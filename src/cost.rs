use vstd::prelude::*;
use crate::lang::{Arith, Expr, Level, Node, Op, nodes_ok};

verus! {

/// Operation names under which a tower level's weights are configured.
#[derive(Clone, Copy, Debug, PartialEq, Eq, Structural)]
pub enum CostKey {
    Add,
    Mult,
    ConstMult,
    Square,
    Inv,
}

/// The configured operation that weighs an arithmetic kind: subtraction is
/// weighed as addition.
pub open spec fn key_of_spec(a: Arith) -> CostKey {
    match a {
        Arith::Add | Arith::Sub => CostKey::Add,
        Arith::Mul => CostKey::Mult,
        Arith::ConstMul => CostKey::ConstMult,
        Arith::Square => CostKey::Square,
        Arith::Inv => CostKey::Inv,
    }
}

pub fn key_of(a: Arith) -> (r: CostKey)
    ensures
        r == key_of_spec(a),
{
    match a {
        Arith::Add | Arith::Sub => CostKey::Add,
        Arith::Mul => CostKey::Mult,
        Arith::ConstMul => CostKey::ConstMult,
        Arith::Square => CostKey::Square,
        Arith::Inv => CostKey::Inv,
    }
}

pub open spec fn level_index(l: Level) -> int {
    match l {
        Level::Fp => 0,
        Level::Fp2 => 1,
        Level::Fp4 => 2,
        Level::Fp6 => 3,
        Level::Fp12 => 4,
    }
}

pub open spec fn key_index(k: CostKey) -> int {
    match k {
        CostKey::Add => 0,
        CostKey::Mult => 1,
        CostKey::ConstMult => 2,
        CostKey::Square => 3,
        CostKey::Inv => 4,
    }
}

pub open spec fn slot(l: Level, k: CostKey) -> int {
    level_index(l) * 5 + key_index(k)
}

pub const N_SLOTS: usize = 25;

fn slot_of(l: Level, k: CostKey) -> (r: usize)
    ensures
        r == slot(l, k),
        r < N_SLOTS,
{
    let li: usize = match l {
        Level::Fp => 0,
        Level::Fp2 => 1,
        Level::Fp4 => 2,
        Level::Fp6 => 3,
        Level::Fp12 => 4,
    };
    let ki: usize = match k {
        CostKey::Add => 0,
        CostKey::Mult => 1,
        CostKey::ConstMult => 2,
        CostKey::Square => 3,
        CostKey::Inv => 4,
    };
    li * 5 + ki
}

/// Configured weight of `(level, key)`: the last entry for it, else zero.
pub open spec fn lookup(entries: Seq<(Level, CostKey, u64)>, l: Level, k: CostKey) -> u64
    decreases entries.len(),
{
    if entries.len() == 0 {
        0
    } else if entries.last().0 == l && entries.last().1 == k {
        entries.last().2
    } else {
        lookup(entries.drop_last(), l, k)
    }
}

/// Per-kind weights of field operations. Leaves and the extension-element
/// constructors weigh nothing.
pub struct FpCost {
    weights: Vec<u64>,
}

pub open spec fn sat(x: int) -> int {
    if x > u64::MAX {
        u64::MAX as int
    } else {
        x
    }
}

pub open spec fn seq_sum(s: Seq<u64>) -> int
    decreases s.len(),
{
    if s.len() == 0 {
        0
    } else {
        seq_sum(s.drop_last()) + s.last()
    }
}

pub proof fn lemma_sat_step(x: int, y: int)
    requires
        x >= 0,
        y >= 0,
    ensures
        sat(sat(x) + y) == sat(x + y),
{
}

pub proof fn lemma_seq_sum_nonneg(s: Seq<u64>)
    ensures
        seq_sum(s) >= 0,
    decreases s.len(),
{
    if s.len() > 0 {
        lemma_seq_sum_nonneg(s.drop_last());
    }
}

/// Saturating sum of `w` and the costs in `cs`.
pub fn sat_total(w: u64, cs: &Vec<u64>) -> (r: u64)
    ensures
        r == sat(w + seq_sum(cs@)),
{
    let mut acc: u64 = w;
    let mut i: usize = 0;
    while i < cs.len()
        invariant
            i <= cs@.len(),
            acc == sat(w + seq_sum(cs@.subrange(0, i as int))),
        decreases cs@.len() - i,
    {
        proof {
            let s = cs@.subrange(0, i as int + 1);
            assert(s.drop_last() =~= cs@.subrange(0, i as int));
            lemma_seq_sum_nonneg(cs@.subrange(0, i as int));
            lemma_sat_step(w + seq_sum(cs@.subrange(0, i as int)), cs@[i as int] as int);
        }
        acc = acc.saturating_add(cs[i]);
        i = i + 1;
    }
    assert(cs@.subrange(0, cs@.len() as int) =~= cs@);
    acc
}

/// Cost of every position of `nodes`, taken as the root of its own tree: a
/// node costs its weight plus the costs of its operands, saturating.
pub open spec fn tree_costs(c: FpCost, nodes: Seq<Node>) -> Seq<u64>
    decreases nodes.len(),
{
    if nodes.len() == 0 {
        Seq::empty()
    } else {
        let prev = tree_costs(c, nodes.drop_last());
        let n = nodes.last();
        let cs = Seq::new(n.children@.len(), |k: int| prev[n.children@[k] as int]);
        prev.push(sat(c.weight_of(n.op) + seq_sum(cs)) as u64)
    }
}

/// Appending nodes leaves the costs of the earlier positions as they were.
pub proof fn lemma_tree_costs_prefix(c: FpCost, s: Seq<Node>, t: Seq<Node>)
    requires
        s.len() <= t.len(),
        t.subrange(0, s.len() as int) == s,
    ensures
        tree_costs(c, t).len() == t.len(),
        tree_costs(c, t).subrange(0, s.len() as int) == tree_costs(c, s),
    decreases t.len(),
{
    lemma_tree_costs_len(c, t);
    lemma_tree_costs_len(c, s);
    if s.len() < t.len() {
        assert(t.drop_last().subrange(0, s.len() as int) =~= s);
        lemma_tree_costs_prefix(c, s, t.drop_last());
        lemma_tree_costs_len(c, t.drop_last());
        assert(tree_costs(c, t).subrange(0, s.len() as int) =~= tree_costs(c, t.drop_last()).subrange(0, s.len() as int));
    } else {
        assert(t =~= s);
        assert(tree_costs(c, t).subrange(0, s.len() as int) =~= tree_costs(c, s));
    }
}

pub proof fn lemma_tree_costs_len(c: FpCost, nodes: Seq<Node>)
    ensures
        tree_costs(c, nodes).len() == nodes.len(),
    decreases nodes.len(),
{
    if nodes.len() > 0 {
        lemma_tree_costs_len(c, nodes.drop_last());
    }
}

impl FpCost {
    pub closed spec fn wf(&self) -> bool {
        self.weights@.len() == N_SLOTS
    }

    /// Weight of one node of kind `op`.
    pub closed spec fn weight_of(&self, op: Op) -> u64 {
        match op {
            Op::Arith(a, l) => self.weights@[slot(l, key_of_spec(a))],
            _ => 0,
        }
    }

    /// The table built from configured `(level, operation, weight)` entries;
    /// a kind with no entry weighs zero.
    pub fn new(entries: &Vec<(Level, CostKey, u64)>) -> (r: FpCost)
        ensures
            r.wf(),
            forall|a: Arith, l: Level|
                #[trigger] r.weight_of(Op::Arith(a, l)) == lookup(entries@, l, key_of_spec(a)),
            forall|op: Op| !(op is Arith) ==> #[trigger] r.weight_of(op) == 0,
    {
        let mut weights: Vec<u64> = Vec::new();
        let mut s: usize = 0;
        while s < N_SLOTS
            invariant
                s <= N_SLOTS,
                weights@.len() == s,
                forall|t: int| 0 <= t < s ==> weights@[t] == 0,
            decreases N_SLOTS - s,
        {
            weights.push(0);
            s = s + 1;
        }
        let mut i: usize = 0;
        while i < entries.len()
            invariant
                i <= entries@.len(),
                weights@.len() == N_SLOTS,
                forall|l: Level, k: CostKey|
                    #[trigger] weights@[slot(l, k)] == lookup(entries@.subrange(0, i as int), l, k),
            decreases entries@.len() - i,
        {
            let (l, k, w) = entries[i];
            let t = slot_of(l, k);
            weights.set(t, w);
            proof {
                let sub = entries@.subrange(0, i as int + 1);
                assert(sub.drop_last() =~= entries@.subrange(0, i as int));
                assert forall|l2: Level, k2: CostKey|
                    #[trigger] weights@[slot(l2, k2)] == lookup(sub, l2, k2) by {
                    if slot(l2, k2) == slot(l, k) {
                        assert(l2 == l && k2 == k);
                    }
                }
            }
            i = i + 1;
        }
        assert(entries@.subrange(0, entries@.len() as int) =~= entries@);
        FpCost { weights }
    }

    /// Weight of one node of kind `op`.
    pub fn weight(&self, op: Op) -> (r: u64)
        requires
            self.wf(),
        ensures
            r == self.weight_of(op),
    {
        match op {
            Op::Arith(a, l) => {
                let t = slot_of(l, key_of(a));
                self.weights[t]
            },
            _ => 0,
        }
    }

    /// Cost of a node whose operands cost `child_costs`: its own weight plus
    /// theirs, saturating at `u64::MAX`.
    pub fn cost(&self, op: Op, child_costs: &Vec<u64>) -> (r: u64)
        requires
            self.wf(),
        ensures
            r == sat(self.weight_of(op) + seq_sum(child_costs@)),
    {
        let w = self.weight(op);
        sat_total(w, child_costs)
    }

    /// Cost of the whole tree that `e` denotes, shared positions counted once
    /// for every place where they occur.
    pub fn tree_cost(&self, e: &Expr) -> (r: u64)
        requires
            self.wf(),
            e.wf(),
        ensures
            r == tree_costs(*self, e.nodes@)[e.root()],
    {
        let mut costs: Vec<u64> = Vec::new();
        let mut i: usize = 0;
        while i < e.nodes.len()
            invariant
                self.wf(),
                e.wf(),
                i <= e.nodes@.len(),
                costs@ == tree_costs(*self, e.nodes@.subrange(0, i as int)),
            decreases e.nodes@.len() - i,
        {
            let n = &e.nodes[i];
            proof {
                lemma_tree_costs_len(*self, e.nodes@.subrange(0, i as int));
                assert(nodes_ok(e.nodes@, e.names@.len() as int));
                assert(crate::lang::node_ok(e.nodes@[i as int], i as int, e.names@.len() as int));
            }
            let mut cs: Vec<u64> = Vec::new();
            let mut k: usize = 0;
            while k < n.children.len()
                invariant
                    e.wf(),
                    i < e.nodes@.len(),
                    *n == e.nodes@[i as int],
                    costs@.len() == i,
                    k <= n.children@.len(),
                    forall|m: int| 0 <= m < n.children@.len() ==> 0 <= #[trigger] n.children@[m] < i,
                    cs@ =~= Seq::new(k as nat, |m: int| costs@[n.children@[m] as int]),
                decreases n.children@.len() - k,
            {
                cs.push(costs[n.children[k]]);
                k = k + 1;
            }
            let c = self.cost(n.op, &cs);
            proof {
                let sub = e.nodes@.subrange(0, i as int + 1);
                assert(sub.drop_last() =~= e.nodes@.subrange(0, i as int));
                assert(sub.last() == *n);
            }
            costs.push(c);
            i = i + 1;
        }
        assert(e.nodes@.subrange(0, e.nodes@.len() as int) =~= e.nodes@);
        proof {
            lemma_tree_costs_len(*self, e.nodes@);
        }
        costs[e.nodes.len() - 1]
    }
}

} // verus!
