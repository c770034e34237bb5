use vstd::prelude::*;
use crate::cost::{FpCost, sat, seq_sum};
use crate::egraph::{EGraph, expr_embedded, expr_in, in_class};
use crate::lang::{Expr, Node};

verus! {

/// `a` is at most `b`, with `None` standing for an unbounded cost.
pub open spec fn opt_le(a: Option<u64>, b: Option<u64>) -> bool {
    b is None || (a is Some && a->0 <= b->0)
}

/// Recorded best costs of the operand classes of node `i`.
pub open spec fn operand_costs(g: EGraph, best: Seq<Option<u64>>, i: int) -> Seq<Option<u64>> {
    Seq::new(
        g.node_seq()[i].children@.len(),
        |k: int| best[g.root(g.node_seq()[i].children@[k] as int)],
    )
}

pub open spec fn all_known(s: Seq<Option<u64>>) -> bool {
    forall|k: int| 0 <= k < s.len() ==> (#[trigger] s[k]) is Some
}

pub open spec fn unwrap_all(s: Seq<Option<u64>>) -> Seq<u64> {
    Seq::new(s.len(), |k: int| s[k]->0)
}

/// Cost of node `i` given the recorded costs of its operand classes: its
/// weight plus theirs, or unbounded while one of them is.
pub open spec fn node_cost(cf: FpCost, g: EGraph, best: Seq<Option<u64>>, i: int) -> Option<u64> {
    let cs = operand_costs(g, best, i);
    if all_known(cs) {
        Some(sat(cf.weight_of(g.node_seq()[i].op) + seq_sum(unwrap_all(cs))) as u64)
    } else {
        None
    }
}

pub proof fn lemma_sum_mono(s: Seq<u64>, t: Seq<u64>)
    requires
        s.len() == t.len(),
        forall|k: int| 0 <= k < s.len() ==> s[k] <= t[k],
    ensures
        seq_sum(s) <= seq_sum(t),
    decreases s.len(),
{
    if s.len() > 0 {
        lemma_sum_mono(s.drop_last(), t.drop_last());
    }
}

proof fn lemma_sum_elem(s: Seq<u64>, k: int)
    requires
        0 <= k < s.len(),
    ensures
        seq_sum(s) >= s[k],
    decreases s.len(),
{
    if k < s.len() - 1 {
        lemma_sum_elem(s.drop_last(), k);
    } else {
        lemma_sum_nonneg(s.drop_last());
    }
}

pub proof fn lemma_sum_nonneg(s: Seq<u64>)
    ensures
        seq_sum(s) >= 0,
    decreases s.len(),
{
    if s.len() > 0 {
        lemma_sum_nonneg(s.drop_last());
    }
}

/// Lowering recorded costs never raises a node's cost.
proof fn lemma_node_cost_mono(cf: FpCost, g: EGraph, a: Seq<Option<u64>>, b: Seq<Option<u64>>, i: int)
    requires
        a.len() == b.len(),
        forall|c: int| 0 <= c < a.len() ==> opt_le(#[trigger] a[c], b[c]),
        forall|k: int|
            0 <= k < g.node_seq()[i].children@.len() ==> 0 <= #[trigger] g.root(
                g.node_seq()[i].children@[k] as int,
            ) < a.len(),
    ensures
        opt_le(node_cost(cf, g, a, i), node_cost(cf, g, b, i)),
{
    let ca = operand_costs(g, a, i);
    let cb = operand_costs(g, b, i);
    if all_known(cb) {
        assert forall|k: int| 0 <= k < ca.len() implies (#[trigger] ca[k]) is Some && unwrap_all(ca)[k]
            <= unwrap_all(cb)[k] by {
            let d = g.root(g.node_seq()[i].children@[k] as int);
            assert(0 <= d < a.len());
            assert(opt_le(a[d], b[d]));
            assert(cb[k] is Some);
            assert(ca[k] == a[d]);
            assert(cb[k] == b[d]);
        }
        lemma_sum_mono(unwrap_all(ca), unwrap_all(cb));
        lemma_sum_nonneg(unwrap_all(ca));
        assert(all_known(ca));
        let w = cf.weight_of(g.node_seq()[i].op) as int;
        assert(sat(w + seq_sum(unwrap_all(ca))) <= sat(w + seq_sum(unwrap_all(cb))));
    }
}

/// Potential of the recorded costs: an unbounded cost counts above every
/// bounded one. Each improvement lowers it.
pub open spec fn potential(best: Seq<Option<u64>>) -> int
    decreases best.len(),
{
    if best.len() == 0 {
        0
    } else {
        potential(best.drop_last()) + match best.last() {
            Some(v) => v as int,
            None => u64::MAX as int + 1,
        }
    }
}

proof fn lemma_potential_update(best: Seq<Option<u64>>, c: int, v: u64)
    requires
        0 <= c < best.len(),
        best[c] is None || v < best[c]->0,
    ensures
        potential(best.update(c, Some(v))) < potential(best),
        potential(best.update(c, Some(v))) >= 0,
    decreases best.len(),
{
    let nb = best.update(c, Some(v));
    if c < best.len() - 1 {
        assert(nb.drop_last() =~= best.drop_last().update(c, Some(v)));
        lemma_potential_update(best.drop_last(), c, v);
    } else {
        assert(nb.drop_last() =~= best.drop_last());
        lemma_potential_nonneg(best.drop_last());
    }
}

proof fn lemma_potential_nonneg(best: Seq<Option<u64>>)
    ensures
        potential(best) >= 0,
    decreases best.len(),
{
    if best.len() > 0 {
        lemma_potential_nonneg(best.drop_last());
    }
}

/// Chooses one cheapest node for every class of a graph.
pub struct Extractor {
    best: Vec<Option<u64>>,
    choice: Vec<usize>,
    stamp: Ghost<Seq<int>>,
}

impl Extractor {
    pub closed spec fn best_seq(&self) -> Seq<Option<u64>> {
        self.best@
    }

    /// Recorded cost of the class of `i`.
    pub open spec fn best_of(&self, g: EGraph, i: int) -> Option<u64> {
        self.best_seq()[g.root(i)]
    }

    /// The recorded choices: every class with a cost has a member node whose
    /// cost is at most that; its operand classes have costs that are lower, or
    /// equal and recorded earlier.
    pub closed spec fn inv(&self, g: EGraph, cf: FpCost) -> bool {
        let n = g.len();
        &&& g.wf()
        &&& self.best@.len() == n
        &&& self.choice@.len() == n
        &&& self.stamp@.len() == n
        &&& forall|c: int| 0 <= c < n ==> #[trigger] self.stamp@[c] >= 0
        &&& forall|c: int|
            0 <= c < n && (#[trigger] self.best@[c]) is Some ==> {
                let i = self.choice@[c] as int;
                &&& g.root(c) == c
                &&& 0 <= i < n
                &&& g.root(i) == c
                &&& opt_le(node_cost(cf, g, self.best@, i), self.best@[c])
                &&& forall|k: int|
                    0 <= k < g.node_seq()[i].children@.len() ==> {
                        let d = #[trigger] g.root(g.node_seq()[i].children@[k] as int);
                        &&& self.best@[d] is Some
                        &&& (self.best@[d]->0 < self.best@[c]->0 || (self.best@[d] == self.best@[c]
                            && self.stamp@[d] < self.stamp@[c]))
                    }
            }
    }

    /// No node is cheaper than its class's recorded cost.
    pub open spec fn fixpoint(&self, g: EGraph, cf: FpCost) -> bool {
        forall|i: int|
            0 <= i < g.len() ==> opt_le(self.best_seq()[g.root(i)], #[trigger] node_cost(cf, g, self.best_seq(), i))
    }

    /// Computes, by repeated relaxation until nothing improves, the cheapest
    /// cost of every class of `g` under `cf`.
    pub fn new(g: &EGraph, cf: &FpCost) -> (r: Extractor)
        requires
            g.wf(),
            cf.wf(),
        ensures
            r.inv(*g, *cf),
            r.fixpoint(*g, *cf),
    {
        let n = g.size();
        let mut best: Vec<Option<u64>> = Vec::new();
        let mut choice: Vec<usize> = Vec::new();
        let mut k: usize = 0;
        while k < n
            invariant
                k <= n,
                best@.len() == k,
                choice@.len() == k,
                forall|c: int| 0 <= c < k ==> best@[c] is None,
            decreases n - k,
        {
            best.push(None);
            choice.push(0);
            k = k + 1;
        }
        let mut ex = Extractor { best, choice, stamp: Ghost(Seq::new(n as nat, |c: int| 0int)) };
        let ghost mut clock: int = 1;
        assert(ex.inv(*g, *cf));
        loop
            invariant
                ex.inv(*g, *cf),
                cf.wf(),
                n == g.len(),
                clock >= 1,
                forall|c: int| 0 <= c < n ==> ex.stamp@[c] < clock,
            ensures
                ex.inv(*g, *cf),
                ex.fixpoint(*g, *cf),
            decreases potential(ex.best@),
        {
            let ghost start = ex.best@;
            proof {
                lemma_potential_nonneg(start);
            }
            let mut changed = false;
            // newest nodes first: of two nodes of equal cost, the one that a
            // rewrite added later is kept
            let mut i: usize = n;
            while i > 0
                invariant
                    ex.inv(*g, *cf),
                    cf.wf(),
                    n == g.len(),
                    i <= n,
                    clock >= 1,
                    forall|c: int| 0 <= c < n ==> ex.stamp@[c] < clock,
                    !changed ==> ex.best@ == start,
                    !changed ==> forall|j: int|
                        i <= j < n ==> opt_le(ex.best@[g.root(j)], #[trigger] node_cost(*cf, *g, ex.best@, j)),
                    changed ==> potential(ex.best@) < potential(start),
                    potential(ex.best@) <= potential(start),
                decreases i,
            {
                i = i - 1;
                let nc = ex.cost_of(g, cf, i);
                let c = g.find(i);
                proof {
                    g.lemma_wf(i as int);
                }
                if let Some(v) = nc {
                    let better = match ex.best[c] {
                        None => true,
                        Some(b) => v < b,
                    };
                    if better {
                        let ghost old_best = ex.best@;
                        proof {
                            lemma_potential_update(old_best, c as int, v);
                        }
                        ex.relax(g, cf, c, i, v, Ghost(clock));
                        proof {
                            clock = clock + 1;
                        }
                        changed = true;
                    }
                }
            }
            if !changed {
                break;
            }
            proof {
                lemma_potential_nonneg(ex.best@);
            }
        }
        ex
    }

    /// Cost of node `i` under the costs recorded so far.
    fn cost_of(&self, g: &EGraph, cf: &FpCost, i: usize) -> (r: Option<u64>)
        requires
            self.inv(*g, *cf),
            cf.wf(),
            i < g.len(),
        ensures
            r == node_cost(*cf, *g, self.best@, i as int),
    {
        let node = g.node(i);
        proof {
            g.lemma_wf(i as int);
        }
        let mut cs: Vec<u64> = Vec::new();
        let mut k: usize = 0;
        while k < node.children.len()
            invariant
                self.inv(*g, *cf),
                i < g.len(),
                *node == g.node_seq()[i as int],
                forall|m: int| 0 <= m < node.children@.len() ==> #[trigger] node.children@[m] < i,
                k <= node.children@.len(),
                cs@.len() == k,
                forall|m: int| 0 <= m < k ==> (#[trigger] operand_costs(*g, self.best@, i as int)[m]) is Some,
                forall|m: int| 0 <= m < k ==> #[trigger] cs@[m] == operand_costs(*g, self.best@, i as int)[m]->0,
            decreases node.children@.len() - k,
        {
            let d = g.find(node.children[k]);
            proof {
                g.lemma_wf(node.children@[k as int] as int);
            }
            match self.best[d] {
                Some(v) => cs.push(v),
                None => {
                    assert(operand_costs(*g, self.best@, i as int)[k as int] is None);
                    return None;
                },
            }
            k = k + 1;
        }
        assert(cs@ =~= unwrap_all(operand_costs(*g, self.best@, i as int)));
        Some(cf.cost(node.op, &cs))
    }

    /// Records node `i`, of cost `v`, as the choice of its class `c`.
    fn relax(&mut self, g: &EGraph, cf: &FpCost, c: usize, i: usize, v: u64, clock: Ghost<int>)
        requires
            old(self).inv(*g, *cf),
            i < g.len(),
            c == g.root(i as int),
            node_cost(*cf, *g, old(self).best@, i as int) == Some(v),
            old(self).best@[c as int] is None || v < old(self).best@[c as int]->0,
            forall|d: int| 0 <= d < g.len() ==> old(self).stamp@[d] < clock@,
            clock@ >= 1,
        ensures
            final(self).inv(*g, *cf),
            final(self).best@ == old(self).best@.update(c as int, Some(v)),
            final(self).stamp@ == old(self).stamp@.update(c as int, clock@),
    {
        let ghost ob = self.best@;
        let ghost os = self.stamp@;
        proof {
            g.lemma_wf(i as int);
        }
        self.best.set(c, Some(v));
        self.choice.set(c, i);
        self.stamp = Ghost(os.update(c as int, clock@));
        proof {
            let nb = self.best@;
            let n = g.len();
            assert forall|x: int| 0 <= x < n implies opt_le(#[trigger] nb[x], ob[x]) by {}
            let cs = operand_costs(*g, ob, i as int);
            assert forall|k: int| 0 <= k < g.node_seq()[i as int].children@.len() implies {
                let d = #[trigger] g.root(g.node_seq()[i as int].children@[k] as int);
                &&& d != c
                &&& ob[d] is Some
                &&& ob[d]->0 <= v
            } by {
                let d = g.root(g.node_seq()[i as int].children@[k] as int);
                g.lemma_wf(g.node_seq()[i as int].children@[k] as int);
                assert(cs[k] == ob[d]);
                assert(unwrap_all(cs)[k] == ob[d]->0);
                lemma_sum_elem(unwrap_all(cs), k);
            }
            assert forall|x: int| 0 <= x < n && (#[trigger] nb[x]) is Some implies {
                let j = self.choice@[x] as int;
                &&& g.root(x) == x
                &&& 0 <= j < n
                &&& g.root(j) == x
                &&& opt_le(node_cost(*cf, *g, nb, j), nb[x])
                &&& forall|k: int|
                    0 <= k < g.node_seq()[j].children@.len() ==> {
                        let d = #[trigger] g.root(g.node_seq()[j].children@[k] as int);
                        &&& nb[d] is Some
                        &&& (nb[d]->0 < nb[x]->0 || (nb[d] == nb[x] && self.stamp@[d] < self.stamp@[x]))
                    }
            } by {
                let j = self.choice@[x] as int;
                g.lemma_wf(j);
                assert forall|k: int| 0 <= k < g.node_seq()[j].children@.len() implies 0 <= #[trigger] g.root(
                    g.node_seq()[j].children@[k] as int,
                ) < nb.len() by {
                    g.lemma_wf(g.node_seq()[j].children@[k] as int);
                }
                lemma_node_cost_mono(*cf, *g, nb, ob, j);
                if x != c {
                    assert(ob[x] is Some);
                }
            }
        }
    }
}

impl Extractor {
    /// Positions of `out` stand for classes of `g` as `origin` records: each
    /// holds its class's chosen node over the positions of the operand
    /// classes, and costs what its class was recorded to cost. `memo` gives
    /// the position already built for a class.
    pub closed spec fn built(
        &self,
        g: EGraph,
        cf: FpCost,
        out: Seq<Node>,
        origin: Seq<usize>,
        memo: Seq<Option<usize>>,
    ) -> bool {
        &&& origin.len() == out.len()
        &&& memo.len() == g.len()
        &&& crate::cost::tree_costs(cf, out).len() == out.len()
        &&& forall|p: int| 0 <= p < out.len() ==> #[trigger] self.traced(g, cf, out, origin, p)
        &&& forall|d: int|
            0 <= d < g.len() && (#[trigger] memo[d]) is Some ==> memo[d]->0 < out.len() && origin[memo[d]->0 as int]
                == d
    }

    pub closed spec fn traced(&self, g: EGraph, cf: FpCost, out: Seq<Node>, origin: Seq<usize>, p: int) -> bool {
        let c = origin[p] as int;
        let i = self.choice@[c] as int;
        &&& 0 <= c < g.len()
        &&& self.best@[c] is Some
        &&& g.root(c) == c
        &&& out[p].op == g.node_seq()[i].op
        &&& out[p].children@.len() == g.node_seq()[i].children@.len()
        &&& forall|k: int|
            0 <= k < out[p].children@.len() ==> {
                let q = #[trigger] out[p].children@[k] as int;
                &&& 0 <= q < p
                &&& origin[q] == g.root(g.node_seq()[i].children@[k] as int)
            }
        &&& crate::cost::tree_costs(cf, out)[p] == self.best@[c]->0
    }

    /// Class `x` comes no later than class `d` in the order of recorded costs,
    /// ties broken by when they were recorded.
    pub closed spec fn rank_le(&self, x: int, d: int) -> bool {
        self.best@[x]->0 < self.best@[d]->0 || (self.best@[x]->0 == self.best@[d]->0 && self.stamp@[x]
            <= self.stamp@[d])
    }

    proof fn lemma_traced_extend(
        &self,
        g: EGraph,
        cf: FpCost,
        out: Seq<Node>,
        origin: Seq<usize>,
        out2: Seq<Node>,
        origin2: Seq<usize>,
        p: int,
    )
        requires
            0 <= p < out.len(),
            origin.len() == out.len(),
            out.len() <= out2.len(),
            origin2.len() == out2.len(),
            out2.subrange(0, out.len() as int) == out,
            origin2.subrange(0, out.len() as int) == origin,
            self.traced(g, cf, out, origin, p),
        ensures
            self.traced(g, cf, out2, origin2, p),
    {
        crate::cost::lemma_tree_costs_prefix(cf, out, out2);
        assert(out2[p] == out[p]);
        assert(origin2[p] == origin[p]);
        assert(crate::cost::tree_costs(cf, out2)[p] == crate::cost::tree_costs(cf, out2).subrange(0, out.len() as int)[p]);
        let c = origin[p] as int;
        let i = self.choice@[c] as int;
        assert forall|k: int| 0 <= k < out2[p].children@.len() implies {
            let q = #[trigger] out2[p].children@[k] as int;
            &&& 0 <= q < p
            &&& origin2[q] == g.root(g.node_seq()[i].children@[k] as int)
        } by {
            let q = out[p].children@[k] as int;
            assert(origin2[q] == origin2.subrange(0, out.len() as int)[q]);
        }
    }

    /// Every class has a recorded cost once the relaxation is done: by
    /// induction on the canonical id, whose own node has operands below it.
    pub proof fn lemma_all_costed(&self, g: EGraph, cf: FpCost, c: int)
        requires
            self.inv(g, cf),
            self.fixpoint(g, cf),
            0 <= c < g.len(),
        ensures
            self.best_of(g, c) is Some,
        decreases c,
    {
        g.lemma_wf(c);
        let r = g.root(c);
        if r < c {
            self.lemma_all_costed(g, cf, r);
        } else {
            let cs = operand_costs(g, self.best@, r);
            assert forall|k: int| 0 <= k < cs.len() implies (#[trigger] cs[k]) is Some by {
                let x = g.node_seq()[r].children@[k] as int;
                g.lemma_wf(x);
                self.lemma_all_costed(g, cf, x);
            }
            assert(opt_le(self.best@[g.root(r)], node_cost(cf, g, self.best@, r)));
        }
    }

    pub closed spec fn chosen(&self, c: int) -> int {
        self.choice@[c] as int
    }

    /// Once the relaxation is done, every class has a cost; its chosen node
    /// costs exactly that, and no member node of the class costs less.
    pub proof fn lemma_optimal(&self, g: EGraph, cf: FpCost, c: int)
        requires
            self.inv(g, cf),
            self.fixpoint(g, cf),
            0 <= c < g.len(),
        ensures
            self.best_of(g, c) is Some,
            g.root(self.chosen(g.root(c))) == g.root(c),
            node_cost(cf, g, self.best_seq(), self.chosen(g.root(c))) == self.best_of(g, c),
            forall|i: int|
                0 <= i < g.len() && g.root(i) == g.root(c) ==> opt_le(
                    self.best_of(g, c),
                    #[trigger] node_cost(cf, g, self.best_seq(), i),
                ),
    {
        self.lemma_all_costed(g, cf, c);
        g.lemma_wf(c);
        let r = g.root(c);
        let i = self.choice@[r] as int;
        assert(opt_le(self.best@[g.root(i)], node_cost(cf, g, self.best@, i)));
    }

    fn build(
        &self,
        g: &EGraph,
        cf: &FpCost,
        c: usize,
        memo: &mut Vec<Option<usize>>,
        out: &mut Vec<Node>,
        origin: &mut Vec<usize>,
    ) -> (r: usize)
        requires
            self.inv(*g, *cf),
            self.fixpoint(*g, *cf),
            cf.wf(),
            c < g.len(),
            g.root(c as int) == c,
            self.best@[c as int] is Some,
            self.built(*g, *cf, old(out)@, old(origin)@, old(memo)@),
        ensures
            self.built(*g, *cf, final(out)@, final(origin)@, final(memo)@),
            r < final(out)@.len(),
            final(origin)@[r as int] == c,
            old(out)@.len() <= final(out)@.len(),
            final(out)@.subrange(0, old(out)@.len() as int) == old(out)@,
            final(origin)@.subrange(0, old(out)@.len() as int) == old(origin)@,
            old(memo)@[c as int] is None ==> r == final(out)@.len() - 1,
            forall|x: int|
                0 <= x < g.len() && old(memo)@[x] is None && (#[trigger] final(memo)@[x]) is Some ==> self.rank_le(
                    x,
                    c as int,
                ),
        decreases self.best@[c as int]->0, self.stamp@[c as int],
    {
        if let Some(p) = memo[c] {
            assert(out@.subrange(0, out@.len() as int) =~= out@);
            assert(origin@.subrange(0, out@.len() as int) =~= origin@);
            return p;
        }
        let ghost out0 = out@;
        let ghost origin0 = origin@;
        let i = self.choice[c];
        let node = g.node(i);
        proof {
            g.lemma_wf(i as int);
        }
        let mut ch: Vec<usize> = Vec::new();
        let mut k: usize = 0;
        while k < node.children.len()
            invariant
                self.inv(*g, *cf),
                self.fixpoint(*g, *cf),
                cf.wf(),
                c < g.len(),
                g.root(c as int) == c,
                self.best@[c as int] is Some,
                i == self.choice@[c as int],
                i < g.len(),
                g.root(i as int) == c,
                forall|m: int| 0 <= m < node.children@.len() ==> #[trigger] node.children@[m] < i,
                forall|x: int|
                    0 <= x < g.len() && old(memo)@[x] is None && (#[trigger] memo@[x]) is Some ==> self.rank_le(
                        x,
                        c as int,
                    ),
                *node == g.node_seq()[i as int],
                memo@[c as int] is None,
                self.built(*g, *cf, out@, origin@, memo@),
                k <= node.children@.len(),
                ch@.len() == k,
                forall|m: int|
                    0 <= m < k ==> {
                        let q = #[trigger] ch@[m] as int;
                        &&& 0 <= q < out@.len()
                        &&& origin@[q] == g.root(node.children@[m] as int)
                    },
                out0.len() <= out@.len(),
                out@.subrange(0, out0.len() as int) == out0,
                origin@.subrange(0, out0.len() as int) == origin0,
            decreases node.children@.len() - k,
        {
            let d = g.find(node.children[k]);
            proof {
                g.lemma_wf(node.children@[k as int] as int);
                g.lemma_wf(i as int);
            }
            let ghost out1 = out@;
            let ghost origin1 = origin@;
            let q = self.build(g, cf, d, memo, out, origin);
            proof {
                assert(out@.subrange(0, out0.len() as int) =~= out@.subrange(0, out1.len() as int).subrange(0, out0.len() as int));
                assert(origin@.subrange(0, out0.len() as int) =~= origin@.subrange(0, out1.len() as int).subrange(0, out0.len() as int));
                assert forall|m: int| 0 <= m < k implies {
                    let q2 = #[trigger] ch@[m] as int;
                    &&& 0 <= q2 < out@.len()
                    &&& origin@[q2] == g.root(node.children@[m] as int)
                } by {
                    let q2 = ch@[m] as int;
                    assert(origin@[q2] == origin@.subrange(0, out1.len() as int)[q2]);
                }
                if memo@[c as int] is Some {
                    assert(origin@[memo@[c as int]->0 as int] == c);
                }
            }
            ch.push(q);
            k = k + 1;
        }
        let ghost out2 = out@;
        let ghost origin2 = origin@;
        let ghost chs = ch@;
        let p = out.len();
        out.push(Node { op: node.op, children: ch });
        origin.push(c);
        memo.set(c, Some(p));
        proof {
            let cs_seq = Seq::new(chs.len(), |m: int| crate::cost::tree_costs(*cf, out2)[chs[m] as int]);
            let oc = operand_costs(*g, self.best@, i as int);
            crate::cost::lemma_tree_costs_len(*cf, out2);
            assert forall|m: int| 0 <= m < chs.len() implies (#[trigger] oc[m]) is Some && cs_seq[m] == oc[m]->0 by {
                let q = chs[m] as int;
                assert(self.traced(*g, *cf, out2, origin2, q));
                g.lemma_wf(node.children@[m] as int);
            }
            assert(cs_seq =~= unwrap_all(oc));
            assert(out@.drop_last() =~= out2);
            assert(opt_le(self.best@[g.root(i as int)], node_cost(*cf, *g, self.best@, i as int)));
            assert(crate::cost::tree_costs(*cf, out@)[p as int] == self.best@[c as int]->0);
            assert(out@.subrange(0, out2.len() as int) =~= out2);
            assert(origin@.subrange(0, out2.len() as int) =~= origin2);
            assert forall|x: int| 0 <= x < out@.len() implies #[trigger] self.traced(*g, *cf, out@, origin@, x) by {
                if x < p {
                    self.lemma_traced_extend(*g, *cf, out2, origin2, out@, origin@, x);
                }
            }
            crate::cost::lemma_tree_costs_len(*cf, out@);
            assert(out@.subrange(0, out0.len() as int) =~= out2.subrange(0, out0.len() as int));
            assert(origin@.subrange(0, out0.len() as int) =~= origin2.subrange(0, out0.len() as int));
        }
        p
    }

    /// Every position of `nodes`, placed in the class that `ids` gives it,
    /// costs what that class was recorded to cost, and no member node of the
    /// class costs less.
    pub open spec fn cheapest_everywhere(&self, g: EGraph, cf: FpCost, nodes: Seq<Node>, ids: Seq<usize>) -> bool {
        forall|p: int|
            0 <= p < nodes.len() ==> {
                &&& self.best_of(g, #[trigger] ids[p] as int) == Some(crate::cost::tree_costs(cf, nodes)[p])
                &&& forall|i: int|
                    0 <= i < g.len() && g.root(i) == g.root(ids[p] as int) ==> opt_le(
                        self.best_of(g, ids[p] as int),
                        #[trigger] node_cost(cf, g, self.best_seq(), i),
                    )
            }
    }

    /// The built positions are represented in the graph, the last one in the
    /// class of `class`.
    proof fn lemma_extracted_in_class(&self, g: EGraph, cf: FpCost, e: Expr, origin: Seq<usize>, c: int, class: int)
        requires
            self.inv(g, cf),
            self.fixpoint(g, cf),
            e.nodes@.len() > 0,
            origin.len() == e.nodes@.len(),
            forall|x: int| 0 <= x < e.nodes@.len() ==> #[trigger] self.traced(g, cf, e.nodes@, origin, x),
            origin[e.root()] == c,
            c == g.root(class),
            0 <= class < g.len(),
        ensures
            exists|ids: Seq<usize>|
                expr_embedded(g, e.nodes@, ids) && g.root(#[trigger] ids[e.root()] as int) == g.root(class)
                    && self.cheapest_everywhere(g, cf, e.nodes@, ids),
    {
        let ids = origin;
        assert forall|p: int| 0 <= p < e.nodes@.len() implies {
            &&& self.best_of(g, #[trigger] ids[p] as int) == Some(crate::cost::tree_costs(cf, e.nodes@)[p])
            &&& forall|i: int|
                0 <= i < g.len() && g.root(i) == g.root(ids[p] as int) ==> opt_le(
                    self.best_of(g, ids[p] as int),
                    #[trigger] node_cost(cf, g, self.best_seq(), i),
                )
        } by {
            assert(self.traced(g, cf, e.nodes@, origin, p));
            g.lemma_wf(origin[p] as int);
            assert forall|i: int| 0 <= i < g.len() && g.root(i) == g.root(ids[p] as int) implies opt_le(
                self.best_of(g, ids[p] as int),
                #[trigger] node_cost(cf, g, self.best_seq(), i),
            ) by {
                assert(opt_le(self.best_seq()[g.root(i)], node_cost(cf, g, self.best_seq(), i)));
            }
        }
        assert forall|x: int| 0 <= x < e.nodes@.len() implies #[trigger] expr_in(g, e.nodes@, ids, x) by {
            assert(self.traced(g, cf, e.nodes@, origin, x));
            let cc = origin[x] as int;
            let i = self.choice@[cc] as int;
            g.lemma_wf(i);
            g.lemma_wf(cc);
            let ch = Seq::new(e.nodes@[x].children@.len(), |k: int| ids[e.nodes@[x].children@[k] as int]);
            assert forall|k: int| 0 <= k < ch.len() implies g.root(#[trigger] g.node_seq()[i].children@[k] as int) == g.root(
                ch[k] as int,
            ) by {
                g.lemma_wf(g.node_seq()[i].children@[k] as int);
            }
            assert(in_class(g, ids[x] as int, i));
            assert(g.node_matches(i, e.nodes@[x].op, ch));
        }
        assert forall|x: int| 0 <= x < e.nodes@.len() implies #[trigger] ids[x] < g.len() by {
            assert(self.traced(g, cf, e.nodes@, origin, x));
        }
        g.lemma_wf(class);
        assert(expr_embedded(g, e.nodes@, ids));
        assert(g.root(ids[e.root()] as int) == g.root(class));
    }

    /// The recorded cost of the class of `class`, and a cheapest expression
    /// of it: each of its nodes is its class's chosen node, which no other
    /// member of that class undercuts.
    pub fn find_best(&self, g: &EGraph, cf: &FpCost, class: usize, names: Vec<Vec<u8>>) -> (r: (u64, Expr))
        requires
            self.inv(*g, *cf),
            self.fixpoint(*g, *cf),
            cf.wf(),
            class < g.len(),
            g.ops_ok(names@.len() as int),
        ensures
            Some(r.0) == self.best_of(*g, class as int),
            forall|i: int|
                0 <= i < g.len() && g.root(i) == g.root(class as int) ==> opt_le(
                    Some(r.0),
                    #[trigger] node_cost(*cf, *g, self.best_seq(), i),
                ),
            r.1.wf(),
            r.1.names@ == names@,
            crate::cost::tree_costs(*cf, r.1.nodes@)[r.1.root()] == r.0,
            exists|ids: Seq<usize>|
                expr_embedded(*g, r.1.nodes@, ids) && g.root(#[trigger] ids[r.1.root()] as int) == g.root(class as int)
                    && self.cheapest_everywhere(*g, *cf, r.1.nodes@, ids),
    {
        let c = g.find(class);
        proof {
            g.lemma_wf(class as int);
            self.lemma_all_costed(*g, *cf, class as int);
        }
        let n = g.size();
        let mut memo: Vec<Option<usize>> = Vec::new();
        let mut k: usize = 0;
        while k < n
            invariant
                k <= n,
                memo@.len() == k,
                forall|d: int| 0 <= d < k ==> memo@[d] is None,
            decreases n - k,
        {
            memo.push(None);
            k = k + 1;
        }
        let mut out: Vec<Node> = Vec::new();
        let mut origin: Vec<usize> = Vec::new();
        proof {
            crate::cost::lemma_tree_costs_len(*cf, out@);
        }
        let p = self.build(g, cf, c, &mut memo, &mut out, &mut origin);
        let cost = match self.best[c] {
            Some(v) => v,
            None => 0,
        };
        let e = Expr { nodes: out, names };
        proof {
            let m = e.names@.len() as int;
            assert forall|x: int| 0 <= x < e.nodes@.len() implies crate::lang::node_ok(#[trigger] e.nodes@[x], x, m) by {
                assert(self.traced(*g, *cf, out@, origin@, x));
                let cc = origin@[x] as int;
                let i = self.choice@[cc] as int;
                g.lemma_wf(i);
                assert(crate::lang::op_ok(g.node_seq()[i].op, m));
            }
            assert(self.traced(*g, *cf, out@, origin@, p as int));
            self.lemma_extracted_in_class(*g, *cf, e, origin@, c as int, class as int);
        }
        (cost, e)
    }
}

} // verus!
