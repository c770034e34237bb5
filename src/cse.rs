use vstd::prelude::*;
use crate::cost::{FpCost, lemma_sat_step, lemma_seq_sum_nonneg, lemma_tree_costs_len, lemma_tree_costs_prefix, sat, seq_sum, tree_costs};
use crate::lang::{Expr, Node, dec, is_leaf, is_leaf_op, nodes_ok, op_text, push_all, push_dec, push_op, same};

verus! {

pub proof fn lemma_same_refl(nodes: Seq<Node>, m: int, i: int)
    requires
        nodes_ok(nodes, m),
        0 <= i < nodes.len(),
    ensures
        same(nodes, i, i),
    decreases i,
{
    assert(crate::lang::node_ok(nodes[i], i, m));
    assert forall|k: int| 0 <= k < nodes[i].children@.len() implies {
        let a = #[trigger] nodes[i].children@[k] as int;
        0 <= a < i && same(nodes, a, a)
    } by {
        lemma_same_refl(nodes, m, nodes[i].children@[k] as int);
    }
}

pub proof fn lemma_same_sym(nodes: Seq<Node>, i: int, j: int)
    requires
        same(nodes, i, j),
    ensures
        same(nodes, j, i),
    decreases i + j,
{
    assert forall|k: int| 0 <= k < nodes[j].children@.len() implies {
        let a = #[trigger] nodes[j].children@[k] as int;
        let b = nodes[i].children@[k] as int;
        0 <= a < j && 0 <= b < i && same(nodes, a, b)
    } by {
        let b = nodes[i].children@[k] as int;
        assert(0 <= b < i && same(nodes, b, nodes[j].children@[k] as int));
        lemma_same_sym(nodes, b, nodes[j].children@[k] as int);
    }
}

pub proof fn lemma_same_trans(nodes: Seq<Node>, i: int, j: int, l: int)
    requires
        same(nodes, i, j),
        same(nodes, j, l),
    ensures
        same(nodes, i, l),
    decreases i + j + l,
{
    assert forall|k: int| 0 <= k < nodes[i].children@.len() implies {
        let a = #[trigger] nodes[i].children@[k] as int;
        let b = nodes[l].children@[k] as int;
        0 <= a < i && 0 <= b < l && same(nodes, a, b)
    } by {
        let a = nodes[i].children@[k] as int;
        let b = nodes[j].children@[k] as int;
        let c = nodes[l].children@[k] as int;
        assert(same(nodes, a, b));
        assert(same(nodes, b, c));
        lemma_same_trans(nodes, a, b, c);
    }
}

/// `canon[i]` is the lowest position whose tree is identical to that of `i`.
pub open spec fn canon_ok(nodes: Seq<Node>, canon: Seq<usize>, upto: int) -> bool {
    forall|i: int|
        0 <= i < upto ==> {
            &&& #[trigger] canon[i] <= i
            &&& same(nodes, i, canon[i] as int)
            &&& forall|j: int| 0 <= j < canon[i] ==> !same(nodes, i, j)
        }
}

proof fn lemma_canon_eq(nodes: Seq<Node>, canon: Seq<usize>, upto: int, i: int, j: int)
    requires
        canon_ok(nodes, canon, upto),
        0 <= i < upto,
        0 <= j < upto,
    ensures
        (canon[i] == canon[j]) == same(nodes, i, j),
{
    let ci = canon[i] as int;
    let cj = canon[j] as int;
    if same(nodes, i, j) {
        if ci < cj {
            lemma_same_sym(nodes, i, j);
            lemma_same_trans(nodes, j, i, ci);
        } else if cj < ci {
            lemma_same_trans(nodes, i, j, cj);
        }
    } else if ci == cj {
        lemma_same_sym(nodes, j, cj);
        lemma_same_trans(nodes, i, ci, j);
    }
}

/// For every position, the lowest position whose tree is structurally
/// identical to its own: kinds, payloads and operands equal all the way down.
pub fn share_classes(e: &Expr) -> (canon: Vec<usize>)
    requires
        e.wf(),
    ensures
        canon@.len() == e.nodes@.len(),
        canon_ok(e.nodes@, canon@, e.nodes@.len() as int),
{
    let ghost nodes = e.nodes@;
    let ghost m = e.names@.len() as int;
    let n = e.nodes.len();
    let mut canon: Vec<usize> = Vec::new();
    let mut i: usize = 0;
    while i < n
        invariant
            e.wf(),
            nodes == e.nodes@,
            m == e.names@.len(),
            n == nodes.len(),
            i <= n,
            canon@.len() == i,
            canon_ok(nodes, canon@, i as int),
        decreases n - i,
    {
        let ni = &e.nodes[i];
        proof {
            assert(crate::lang::node_ok(nodes[i as int], i as int, m));
            lemma_same_refl(nodes, m, i as int);
        }
        let mut j: usize = 0;
        let mut found = false;
        while !found && j < i
            invariant
                e.wf(),
                nodes == e.nodes@,
                m == e.names@.len(),
                n == nodes.len(),
                i < n,
                *ni == nodes[i as int],
                canon@.len() == i,
                canon_ok(nodes, canon@, i as int),
                j <= i,
                found ==> j < i && same(nodes, i as int, j as int),
                forall|x: int| 0 <= x < j ==> !same(nodes, i as int, x),
            decreases i - j + if found { 0int } else { 1 },
        {
            let nj = &e.nodes[j];
            proof {
                assert(crate::lang::node_ok(nodes[i as int], i as int, m));
                assert(crate::lang::node_ok(nodes[j as int], j as int, m));
            }
            let mut eq = ni.op == nj.op && ni.children.len() == nj.children.len();
            let mut k: usize = 0;
            while eq && k < ni.children.len()
                invariant
                    e.wf(),
                    nodes == e.nodes@,
                    i < n,
                    j < i,
                    *ni == nodes[i as int],
                    *nj == nodes[j as int],
                    canon@.len() == i,
                    canon_ok(nodes, canon@, i as int),
                    eq ==> ni.op == nj.op && ni.children@.len() == nj.children@.len(),
                    k <= ni.children@.len(),
                    forall|q: int| 0 <= q < ni.children@.len() ==> #[trigger] ni.children@[q] < i,
                    forall|q: int| 0 <= q < nj.children@.len() ==> #[trigger] nj.children@[q] < j,
                    eq ==> forall|q: int|
                        0 <= q < k ==> same(nodes, #[trigger] ni.children@[q] as int, nj.children@[q] as int),
                    !eq ==> !same(nodes, i as int, j as int),
                decreases ni.children@.len() - k,
            {
                let a = ni.children[k];
                let b = nj.children[k];
                proof {
                    lemma_canon_eq(nodes, canon@, i as int, a as int, b as int);
                }
                if canon[a] != canon[b] {
                    eq = false;
                }
                k = k + 1;
            }
            if eq {
                found = true;
                assert(same(nodes, i as int, j as int));
            } else {
                j = j + 1;
            }
        }
        let c = if found { j } else { i };
        let ghost before = canon@;
        canon.push(c);
        proof {
            assert forall|x: int| 0 <= x < i + 1 implies {
                &&& #[trigger] canon@[x] <= x
                &&& same(nodes, x, canon@[x] as int)
                &&& forall|y: int| 0 <= y < canon@[x] ==> !same(nodes, x, y)
            } by {
                if x < i {
                    assert(canon@[x] == before[x]);
                }
            }
        }
        i = i + 1;
    }
    canon
}


/// Number of operand slots of `ch` that hold position `j`.
pub open spec fn slots(ch: Seq<usize>, j: int) -> nat
    decreases ch.len(),
{
    if ch.len() == 0 {
        0
    } else {
        slots(ch.drop_last(), j) + if ch.last() == j { 1nat } else { 0 }
    }
}

/// Number of places at which position `j` occurs in the tree of the root.
pub open spec fn paths(nodes: Seq<Node>, j: int) -> nat
    decreases nodes.len() - j, nodes.len() - j,
{
    if !(0 <= j < nodes.len()) {
        0
    } else {
        (if j == nodes.len() - 1 { 1nat } else { 0 }) + uses(nodes, j, j + 1)
    }
}

/// Places at which `j` occurs as an operand of the positions from `i` on.
pub open spec fn uses(nodes: Seq<Node>, j: int, i: int) -> nat
    decreases nodes.len() - j, nodes.len() - i,
{
    if !(0 <= j < i < nodes.len()) {
        0
    } else {
        slots(nodes[i].children@, j) * paths(nodes, i) + uses(nodes, j, i + 1)
    }
}

pub open spec fn cap2(x: int) -> int {
    if x > 2 {
        2
    } else {
        x
    }
}

proof fn lemma_cap2_add(y: int, p: int)
    requires
        y >= 0,
        p >= 0,
    ensures
        cap2(cap2(y) + cap2(p)) == cap2(y + p),
{
}

proof fn lemma_slots_push(ch: Seq<usize>, k: int, j: int)
    requires
        0 <= k < ch.len(),
    ensures
        slots(ch.subrange(0, k + 1), j) == slots(ch.subrange(0, k), j) + if ch[k] == j { 1nat } else { 0 },
{
    assert(ch.subrange(0, k + 1).drop_last() =~= ch.subrange(0, k));
}

proof fn lemma_slots_none(ch: Seq<usize>, j: int)
    requires
        forall|k: int| 0 <= k < ch.len() ==> ch[k] != j,
    ensures
        slots(ch, j) == 0,
    decreases ch.len(),
{
    if ch.len() > 0 {
        lemma_slots_none(ch.drop_last(), j);
    }
}

/// How often each position occurs in the tree of the root, counted up to two.
pub fn occurrences(e: &Expr) -> (cnt: Vec<u64>)
    requires
        e.wf(),
    ensures
        cnt@.len() == e.nodes@.len(),
        forall|j: int| 0 <= j < e.nodes@.len() ==> #[trigger] cnt@[j] == cap2(paths(e.nodes@, j) as int),
{
    let ghost nodes = e.nodes@;
    let ghost m = e.names@.len() as int;
    let n = e.nodes.len();
    let mut cnt: Vec<u64> = Vec::new();
    let mut q: usize = 0;
    while q < n
        invariant
            q <= n,
            n == nodes.len(),
            cnt@.len() == q,
            forall|j: int| 0 <= j < q ==> #[trigger] cnt@[j] == if j == n - 1 { 1u64 } else { 0 },
        decreases n - q,
    {
        if q == n - 1 {
            cnt.push(1);
        } else {
            cnt.push(0);
        }
        q = q + 1;
    }
    let mut i: usize = n;
    while i > 0
        invariant
            e.wf(),
            nodes == e.nodes@,
            m == e.names@.len(),
            n == nodes.len(),
            i <= n,
            cnt@.len() == n,
            forall|j: int|
                0 <= j < i ==> #[trigger] cnt@[j] == cap2(
                    (if j == n - 1 { 1int } else { 0 }) + uses(nodes, j, i as int),
                ),
            forall|j: int| i <= j < n ==> #[trigger] cnt@[j] == cap2(paths(nodes, j) as int),
        decreases i,
    {
        let p = i - 1;
        let cp = cnt[p];
        assert(cp == cap2(paths(nodes, p as int) as int));
        let ch = &e.nodes[p].children;
        proof {
            assert(crate::lang::node_ok(nodes[p as int], p as int, m));
        }
        let ghost pp = paths(nodes, p as int) as int;
        proof {
            assert(ch@.subrange(0, 0) =~= Seq::<usize>::empty());
            assert forall|j: int| 0 <= j < p implies #[trigger] cnt@[j] == cap2(
                (if j == n - 1 { 1int } else { 0 }) + uses(nodes, j, i as int) + slots(ch@.subrange(0, 0), j) * pp,
            ) by {
                assert(slots(ch@.subrange(0, 0), j) == 0);
            }
        }
        let mut k: usize = 0;
        while k < ch.len()
            invariant
                e.wf(),
                nodes == e.nodes@,
                n == nodes.len(),
                p < n,
                i == p + 1,
                *ch == nodes[p as int].children,
                forall|q2: int| 0 <= q2 < ch@.len() ==> #[trigger] ch@[q2] < p,
                cnt@.len() == n,
                cp == cap2(pp),
                pp == paths(nodes, p as int),
                k <= ch@.len(),
                forall|j: int|
                    0 <= j < p ==> #[trigger] cnt@[j] == cap2(
                        (if j == n - 1 { 1int } else { 0 }) + uses(nodes, j, i as int) + slots(
                            ch@.subrange(0, k as int),
                            j,
                        ) * pp,
                    ),
                forall|j: int| p <= j < n ==> #[trigger] cnt@[j] == cap2(paths(nodes, j) as int),
            decreases ch@.len() - k,
        {
            let c = ch[k];
            let v = cnt[c];
            let nv: u64 = if v + cp > 2 { 2 } else { v + cp };
            proof {
                assert(v <= 2 && cp <= 2);
            }
            cnt.set(c, nv);
            proof {
                assert forall|j: int| 0 <= j < p implies #[trigger] cnt@[j] == cap2(
                    (if j == n - 1 { 1int } else { 0 }) + uses(nodes, j, i as int) + slots(
                        ch@.subrange(0, k as int + 1),
                        j,
                    ) * pp,
                ) by {
                    lemma_slots_push(ch@, k as int, j);
                    let y = (if j == n - 1 { 1int } else { 0 }) + uses(nodes, j, i as int) + slots(
                        ch@.subrange(0, k as int),
                        j,
                    ) * pp;
                    assert(y >= 0) by (nonlinear_arith)
                        requires
                            y == (if j == n - 1 { 1int } else { 0 }) + uses(nodes, j, i as int) + slots(
                                ch@.subrange(0, k as int),
                                j,
                            ) * pp,
                            pp >= 0,
                    ;
                    if j == c {
                        lemma_cap2_add(y, pp);
                        assert((slots(ch@.subrange(0, k as int), j) + 1) * pp == slots(ch@.subrange(0, k as int), j)
                            * pp + pp) by (nonlinear_arith);
                    }
                }
            }
            k = k + 1;
        }
        proof {
            assert(ch@.subrange(0, ch@.len() as int) =~= ch@);
            assert forall|j: int| 0 <= j < p implies #[trigger] cnt@[j] == cap2(
                (if j == n - 1 { 1int } else { 0 }) + uses(nodes, j, p as int),
            ) by {
                assert(uses(nodes, j, p as int) == slots(nodes[p as int].children@, j) * paths(nodes, p as int) + uses(
                    nodes,
                    j,
                    i as int,
                ));
            }
            assert(cnt@[p as int] == cap2(paths(nodes, p as int) as int)) by {
                assert(uses(nodes, p as int, p as int + 1) == uses(nodes, p as int, i as int));
            }
        }
        i = p;
    }
    cnt
}


pub open spec fn first_same(nodes: Seq<Node>, p: int, j: int) -> int
    decreases p - j,
{
    if j >= p {
        p
    } else if same(nodes, p, j) {
        j
    } else {
        first_same(nodes, p, j + 1)
    }
}

/// The lowest position whose tree is identical to that of `p`.
pub open spec fn class_of(nodes: Seq<Node>, p: int) -> int {
    first_same(nodes, p, 0)
}

proof fn lemma_first_same(nodes: Seq<Node>, p: int, j: int, c: int)
    requires
        0 <= j <= c <= p,
        forall|x: int| j <= x < c ==> !same(nodes, p, x),
        same(nodes, p, c),
    ensures
        first_same(nodes, p, j) == c,
    decreases c - j,
{
    if j < c {
        lemma_first_same(nodes, p, j + 1, c);
    }
}

proof fn lemma_class_of(nodes: Seq<Node>, canon: Seq<usize>, p: int)
    requires
        canon_ok(nodes, canon, nodes.len() as int),
        0 <= p < nodes.len(),
    ensures
        canon[p] == class_of(nodes, p),
{
    lemma_first_same(nodes, p, 0, canon[p] as int);
}

/// Places at which the tree of `c` occurs in the tree of the root, counting
/// the positions below `m` that hold it.
pub open spec fn class_occ(nodes: Seq<Node>, c: int, m: int) -> nat
    decreases m,
{
    if m <= 0 {
        0
    } else {
        class_occ(nodes, c, m - 1) + if same(nodes, m - 1, c) { paths(nodes, m - 1) } else { 0 }
    }
}

/// Position `c` is the first of a non-leaf tree that occurs at least twice:
/// it gets a binding of its own.
pub open spec fn shared(nodes: Seq<Node>, c: int) -> bool {
    &&& 0 <= c < nodes.len()
    &&& class_of(nodes, c) == c
    &&& !is_leaf_op(nodes[c].op)
    &&& class_occ(nodes, c, nodes.len() as int) >= 2
}

/// The child-first walk from position `p`, appending to `o` each shared tree
/// as the walk completes it. A shared tree already in `o` is not walked again.
pub open spec fn walk(nodes: Seq<Node>, p: int, o: Seq<usize>) -> Seq<usize>
    decreases p, nodes[p].children@.len() + 1,
{
    if !(0 <= p < nodes.len()) {
        o
    } else {
        let c = class_of(nodes, p);
        if shared(nodes, c) && o.contains(c as usize) {
            o
        } else {
            let o2 = walk_kids(nodes, p, nodes[p].children@.len() as int, o);
            if shared(nodes, c) {
                o2.push(c as usize)
            } else {
                o2
            }
        }
    }
}

/// The walk over the first `k` operands of position `p`, left to right.
pub open spec fn walk_kids(nodes: Seq<Node>, p: int, k: int, o: Seq<usize>) -> Seq<usize>
    decreases p, k,
{
    if k <= 0 || !(0 <= p < nodes.len()) || k > nodes[p].children@.len() {
        o
    } else {
        let o1 = walk_kids(nodes, p, k - 1, o);
        let ch = nodes[p].children@[k - 1] as int;
        if 0 <= ch < p {
            walk(nodes, ch, o1)
        } else {
            o1
        }
    }
}

/// The shared trees of `nodes` in the order in which the walk from the root
/// completes them: the order of their bindings.
pub open spec fn bind_order(nodes: Seq<Node>) -> Seq<usize> {
    walk(nodes, nodes.len() - 1, seq![])
}

/// The first index at which `c` stands in `s`.
pub open spec fn first_at(s: Seq<usize>, c: int) -> Option<nat>
    decreases s.len(),
{
    if s.len() == 0 {
        None
    } else {
        let f = first_at(s.drop_last(), c);
        if f is Some {
            f
        } else if s.last() == c {
            Some((s.len() - 1) as nat)
        } else {
            None
        }
    }
}

/// The operand texts of `ch`, each after a space.
pub open spec fn spaced(texts: Seq<Seq<u8>>, ch: Seq<usize>) -> Seq<u8>
    decreases ch.len(),
{
    if ch.len() == 0 {
        seq![]
    } else {
        spaced(texts, ch.drop_last()) + seq![32u8] + texts[ch.last() as int]
    }
}

/// Position `p` written out one level deep, its operands written as `texts`
/// gives them.
pub open spec fn inline_text(nodes: Seq<Node>, names: Seq<Vec<u8>>, texts: Seq<Seq<u8>>, p: int) -> Seq<u8> {
    if nodes[p].children@.len() == 0 {
        op_text(names, nodes[p].op)
    } else {
        seq![40u8] + op_text(names, nodes[p].op) + spaced(texts, nodes[p].children@) + seq![41u8]
    }
}

/// Name of the binding with index `t`.
pub open spec fn name_text(t: nat) -> Seq<u8> {
    seq![116u8] + dec(t)
}

/// How each position below `m` is written where it is used: by the name of
/// its tree's binding, which is its place in `order`, else in full.
pub open spec fn ref_texts(nodes: Seq<Node>, names: Seq<Vec<u8>>, order: Seq<usize>, m: int) -> Seq<Seq<u8>>
    decreases m,
{
    if m <= 0 {
        seq![]
    } else {
        let prev = ref_texts(nodes, names, order, m - 1);
        let c = class_of(nodes, m - 1);
        prev.push(
            if shared(nodes, c) && first_at(order, c) is Some {
                name_text(first_at(order, c)->0)
            } else {
                inline_text(nodes, names, prev, m - 1)
            },
        )
    }
}

/// The binding line of the tree at shared position `c`, named `t<i>`.
pub open spec fn let_line(nodes: Seq<Node>, names: Seq<Vec<u8>>, order: Seq<usize>, c: int, i: nat) -> Seq<u8> {
    seq![108u8, 101, 116, 32] + name_text(i) + seq![32u8, 61, 32] + inline_text(
        nodes,
        names,
        ref_texts(nodes, names, order, c),
        c,
    ) + seq![10u8]
}

/// Binding lines of the first `i` trees of `order`, in that order.
pub open spec fn lets_text(nodes: Seq<Node>, names: Seq<Vec<u8>>, order: Seq<usize>, i: int) -> Seq<u8>
    decreases i,
{
    if i <= 0 {
        seq![]
    } else {
        let c = order[i - 1] as int;
        lets_text(nodes, names, order, i - 1) + if first_at(order, c) == Some((i - 1) as nat) {
            let_line(nodes, names, order, c, (i - 1) as nat)
        } else {
            seq![]
        }
    }
}

/// Cost of position `p` written out one level deep: its weight plus what
/// `costs` charges for its operands.
pub open spec fn inline_cost(cf: FpCost, nodes: Seq<Node>, costs: Seq<u64>, p: int) -> u64 {
    sat(
        cf.weight_of(nodes[p].op) + seq_sum(
            Seq::new(nodes[p].children@.len(), |k: int| costs[nodes[p].children@[k] as int]),
        ),
    ) as u64
}

/// What each position below `m` charges where it is used: nothing for a
/// reference to a binding, else its cost written out.
pub open spec fn ref_costs(cf: FpCost, nodes: Seq<Node>, m: int) -> Seq<u64>
    decreases m,
{
    if m <= 0 {
        seq![]
    } else {
        let prev = ref_costs(cf, nodes, m - 1);
        let c = class_of(nodes, m - 1);
        prev.push(if shared(nodes, c) { 0 } else { inline_cost(cf, nodes, prev, m - 1) })
    }
}

/// Cost of the binding lines of the shared positions below `m`: each shared
/// tree is charged once.
pub open spec fn lets_cost(cf: FpCost, nodes: Seq<Node>, m: int) -> int
    decreases m,
{
    if m <= 0 {
        0
    } else {
        lets_cost(cf, nodes, m - 1) + if shared(nodes, m - 1) {
            inline_cost(cf, nodes, ref_costs(cf, nodes, m - 1), m - 1) as int
        } else {
            0
        }
    }
}

/// The text of `e` with its shared trees bound: the binding lines, in the
/// order in which the child-first walk from the root completes the trees,
/// then the root as it is written.
pub open spec fn shared_text(e: Expr) -> Seq<u8> {
    let n = e.nodes@.len() as int;
    let order = bind_order(e.nodes@);
    lets_text(e.nodes@, e.names@, order, order.len() as int) + ref_texts(e.nodes@, e.names@, order, n)[n - 1]
}

/// The cost of `e` with each shared tree charged once.
pub open spec fn shared_cost(cf: FpCost, e: Expr) -> int {
    let n = e.nodes@.len() as int;
    sat(lets_cost(cf, e.nodes@, n) + ref_costs(cf, e.nodes@, n)[n - 1])
}


/// For every position that is first of its tree, how often that tree occurs
/// in the tree of the root, counted up to two.
fn class_counts(e: &Expr, canon: &Vec<usize>, cnt: &Vec<u64>) -> (mult: Vec<u64>)
    requires
        e.wf(),
        canon@.len() == e.nodes@.len(),
        canon_ok(e.nodes@, canon@, e.nodes@.len() as int),
        cnt@.len() == e.nodes@.len(),
        forall|j: int| 0 <= j < e.nodes@.len() ==> #[trigger] cnt@[j] == cap2(paths(e.nodes@, j) as int),
    ensures
        mult@.len() == e.nodes@.len(),
        forall|c: int|
            0 <= c < e.nodes@.len() && canon@[c] == c ==> #[trigger] mult@[c] == cap2(
                class_occ(e.nodes@, c, e.nodes@.len() as int) as int,
            ),
{
    let ghost nodes = e.nodes@;
    let n = e.nodes.len();
    let mut mult: Vec<u64> = Vec::new();
    let mut q: usize = 0;
    while q < n
        invariant
            q <= n,
            mult@.len() == q,
            forall|j: int| 0 <= j < q ==> #[trigger] mult@[j] == 0,
        decreases n - q,
    {
        mult.push(0);
        q = q + 1;
    }
    let mut j: usize = 0;
    while j < n
        invariant
            nodes == e.nodes@,
            n == nodes.len(),
            canon@.len() == n,
            canon_ok(nodes, canon@, n as int),
            cnt@.len() == n,
            forall|x: int| 0 <= x < n ==> #[trigger] cnt@[x] == cap2(paths(nodes, x) as int),
            j <= n,
            mult@.len() == n,
            forall|c: int| 0 <= c < n && canon@[c] == c ==> #[trigger] mult@[c] == cap2(class_occ(nodes, c, j as int) as int),
        decreases n - j,
    {
        let c = canon[j];
        proof {
            assert(canon@[j as int] <= j);
        }
        let v = mult[c];
        let x = cnt[j];
        let ghost before = mult@;
        proof {
            assert(canon@[c as int] == c) by {
                lemma_canon_eq(nodes, canon@, n as int, j as int, c as int);
                assert(same(nodes, j as int, c as int));
                lemma_same_sym(nodes, j as int, c as int);
                lemma_canon_eq(nodes, canon@, n as int, c as int, j as int);
            }
            assert(v <= 2);
        }
        mult.set(c, if v + x > 2 { 2 } else { v + x });
        proof {
            assert forall|d: int| 0 <= d < n && canon@[d] == d implies #[trigger] mult@[d] == cap2(
                class_occ(nodes, d, j as int + 1) as int,
            ) by {
                lemma_canon_eq(nodes, canon@, n as int, j as int, d);
                if d == c {
                    lemma_cap2_add(class_occ(nodes, d, j as int) as int, paths(nodes, j as int) as int);
                }
            }
        }
        j = j + 1;
    }
    mult
}

/// Which positions get a binding: the first of each non-leaf tree that
/// occurs at least twice.
fn binding_plan(e: &Expr, canon: &Vec<usize>, mult: &Vec<u64>) -> (r: Vec<bool>)
    requires
        e.wf(),
        canon@.len() == e.nodes@.len(),
        canon_ok(e.nodes@, canon@, e.nodes@.len() as int),
        mult@.len() == e.nodes@.len(),
        forall|c: int|
            0 <= c < e.nodes@.len() && canon@[c] == c ==> #[trigger] mult@[c] == cap2(
                class_occ(e.nodes@, c, e.nodes@.len() as int) as int,
            ),
    ensures
        r@.len() == e.nodes@.len(),
        forall|c: int| 0 <= c < e.nodes@.len() ==> #[trigger] r@[c] == shared(e.nodes@, c),
{
    let ghost nodes = e.nodes@;
    let n = e.nodes.len();
    let mut flags: Vec<bool> = Vec::new();
    let mut c: usize = 0;
    while c < n
        invariant
            nodes == e.nodes@,
            n == nodes.len(),
            canon@.len() == n,
            canon_ok(nodes, canon@, n as int),
            mult@.len() == n,
            forall|d: int| 0 <= d < n && canon@[d] == d ==> #[trigger] mult@[d] == cap2(class_occ(nodes, d, n as int) as int),
            c <= n,
            flags@.len() == c,
            forall|d: int| 0 <= d < c ==> #[trigger] flags@[d] == shared(nodes, d),
        decreases n - c,
    {
        proof {
            lemma_class_of(nodes, canon@, c as int);
        }
        let f = canon[c] == c && !is_leaf(e.nodes[c].op) && mult[c] >= 2;
        flags.push(f);
        c = c + 1;
    }
    flags
}

/// The child-first walk from position `p`: appends to `order` each shared
/// tree as it is completed, skipping the trees already there.
fn walk_from(
    e: &Expr,
    canon: &Vec<usize>,
    flags: &Vec<bool>,
    p: usize,
    visited: &mut Vec<bool>,
    order: &mut Vec<usize>,
)
    requires
        e.wf(),
        p < e.nodes@.len(),
        canon@.len() == e.nodes@.len(),
        canon_ok(e.nodes@, canon@, e.nodes@.len() as int),
        flags@.len() == e.nodes@.len(),
        forall|d: int| 0 <= d < e.nodes@.len() ==> #[trigger] flags@[d] == shared(e.nodes@, d),
        old(visited)@.len() == e.nodes@.len(),
        forall|x: int| 0 <= x < e.nodes@.len() ==> #[trigger] old(visited)@[x] == old(order)@.contains(x as usize),
        forall|x: int| 0 <= x < old(order)@.len() ==> #[trigger] old(order)@[x] < e.nodes@.len(),
    ensures
        final(order)@ == walk(e.nodes@, p as int, old(order)@),
        final(visited)@.len() == e.nodes@.len(),
        forall|x: int| 0 <= x < e.nodes@.len() ==> #[trigger] final(visited)@[x] == final(order)@.contains(x as usize),
        forall|x: int| 0 <= x < final(order)@.len() ==> #[trigger] final(order)@[x] < e.nodes@.len(),
    decreases p,
{
    let ghost nodes = e.nodes@;
    let ghost o0 = order@;
    let c = canon[p];
    proof {
        lemma_class_of(nodes, canon@, p as int);
        assert(canon@[p as int] <= p);
    }
    if flags[c] && visited[c] {
        return;
    }
    let node = &e.nodes[p];
    proof {
        assert(crate::lang::node_ok(nodes[p as int], p as int, e.names@.len() as int));
    }
    let mut k: usize = 0;
    while k < node.children.len()
        invariant
            e.wf(),
            nodes == e.nodes@,
            p < nodes.len(),
            *node == nodes[p as int],
            forall|q: int| 0 <= q < node.children@.len() ==> #[trigger] node.children@[q] < p,
            canon@.len() == nodes.len(),
            canon_ok(nodes, canon@, nodes.len() as int),
            flags@.len() == nodes.len(),
            forall|d: int| 0 <= d < nodes.len() ==> #[trigger] flags@[d] == shared(nodes, d),
            visited@.len() == nodes.len(),
            forall|x: int| 0 <= x < nodes.len() ==> #[trigger] visited@[x] == order@.contains(x as usize),
            forall|x: int| 0 <= x < order@.len() ==> #[trigger] order@[x] < nodes.len(),
            k <= node.children@.len(),
            order@ == walk_kids(nodes, p as int, k as int, o0),
        decreases node.children@.len() - k,
    {
        walk_from(e, canon, flags, node.children[k], visited, order);
        k = k + 1;
    }
    if flags[c] {
        let ghost before = order@;
        let nn = e.nodes.len();
        visited.set(c, true);
        order.push(c);
        proof {
            assert(nodes.len() == nn);
            assert forall|x: int| 0 <= x < nodes.len() implies #[trigger] visited@[x] == order@.contains(x as usize) by {
                if x == c {
                    assert(order@[before.len() as int] == c);
                } else {
                    if before.contains(x as usize) {
                        let w = choose|w: int| 0 <= w < before.len() && before[w] == x as usize;
                        assert(order@[w] == x as usize);
                    }
                    if order@.contains(x as usize) {
                        let w = choose|w: int| 0 <= w < order@.len() && order@[w] == x as usize;
                        assert(order@[before.len() as int] == c);
                        assert((x as usize) as int == x);
                        assert(x != c as int);
                        assert(w != before.len());
                        assert(before[w] == x as usize);
                    }
                }
            }
        }
    }
}

/// For every position, the first place of it in `order`.
fn first_places(order: &Vec<usize>, n: usize) -> (r: Vec<Option<usize>>)
    requires
        forall|x: int| 0 <= x < order@.len() ==> #[trigger] order@[x] < n,
    ensures
        r@.len() == n,
        forall|c: int| 0 <= c < n ==> (#[trigger] r@[c] matches Some(i) ==> first_at(order@, c) == Some(i as nat)),
        forall|c: int| 0 <= c < n ==> (r@[c] is None <==> #[trigger] first_at(order@, c) is None),
{
    let mut r: Vec<Option<usize>> = Vec::new();
    let mut q: usize = 0;
    while q < n
        invariant
            q <= n,
            r@.len() == q,
            forall|c: int| 0 <= c < q ==> (#[trigger] r@[c]) is None,
        decreases n - q,
    {
        r.push(None);
        q = q + 1;
    }
    let mut i: usize = 0;
    while i < order.len()
        invariant
            forall|x: int| 0 <= x < order@.len() ==> #[trigger] order@[x] < n,
            i <= order@.len(),
            r@.len() == n,
            forall|c: int|
                0 <= c < n ==> (#[trigger] r@[c] matches Some(j) ==> first_at(order@.subrange(0, i as int), c) == Some(j as nat)),
            forall|c: int| 0 <= c < n ==> (r@[c] is None <==> #[trigger] first_at(order@.subrange(0, i as int), c) is None),
        decreases order@.len() - i,
    {
        let c = order[i];
        proof {
            assert(order@.subrange(0, i as int + 1).drop_last() =~= order@.subrange(0, i as int));
        }
        let ghost r0 = r@;
        if r[c].is_none() {
            r.set(c, Some(i));
        }
        proof {
            let sub = order@.subrange(0, i as int + 1);
            assert(sub.last() == c);
            assert(sub.drop_last() =~= order@.subrange(0, i as int));
            assert forall|c2: int| 0 <= c2 < n implies (#[trigger] r@[c2] matches Some(j) ==> first_at(sub, c2) == Some(j as nat))
                && (r@[c2] is None <==> first_at(sub, c2) is None) by {
                assert(r0[c2] is None <==> first_at(order@.subrange(0, i as int), c2) is None);
            }
        }
        i = i + 1;
    }
    assert(order@.subrange(0, order@.len() as int) =~= order@);
    r
}

proof fn lemma_ref_texts_len(nodes: Seq<Node>, names: Seq<Vec<u8>>, order: Seq<usize>, m: int)
    requires
        m >= 0,
    ensures
        ref_texts(nodes, names, order, m).len() == m,
    decreases m,
{
    if m > 0 {
        lemma_ref_texts_len(nodes, names, order, m - 1);
    }
}

proof fn lemma_ref_texts_prefix(nodes: Seq<Node>, names: Seq<Vec<u8>>, order: Seq<usize>, m: int, m2: int)
    requires
        0 <= m <= m2,
    ensures
        ref_texts(nodes, names, order, m2).subrange(0, m) == ref_texts(nodes, names, order, m),
    decreases m2,
{
    lemma_ref_texts_len(nodes, names, order, m2);
    lemma_ref_texts_len(nodes, names, order, m);
    if m < m2 {
        lemma_ref_texts_prefix(nodes, names, order, m, m2 - 1);
        lemma_ref_texts_len(nodes, names, order, m2 - 1);
        assert(ref_texts(nodes, names, order, m2).subrange(0, m) =~= ref_texts(nodes, names, order, m2 - 1).subrange(0, m));
    } else {
        assert(ref_texts(nodes, names, order, m2).subrange(0, m) =~= ref_texts(nodes, names, order, m));
    }
}

proof fn lemma_ref_costs_len(cf: FpCost, nodes: Seq<Node>, m: int)
    requires
        m >= 0,
    ensures
        ref_costs(cf, nodes, m).len() == m,
    decreases m,
{
    if m > 0 {
        lemma_ref_costs_len(cf, nodes, m - 1);
    }
}

proof fn lemma_lets_cost_nonneg(cf: FpCost, nodes: Seq<Node>, m: int)
    ensures
        lets_cost(cf, nodes, m) >= 0,
    decreases m,
{
    if m > 0 {
        lemma_lets_cost_nonneg(cf, nodes, m - 1);
    }
}

/// Writes `e` with each non-leaf tree that occurs more than once bound to a
/// name: one `let t<i> = ...` line per such tree, numbered in the order in
/// which a child-first walk from the root completes them, each line using
/// only names bound above it, then the root. Returns the cost that this form
/// has, where each bound tree is charged once, and its text.
#[verifier::rlimit(40)]
pub fn extract_common_subexpressions(e: &Expr, cf: &FpCost) -> (r: (u64, Vec<u8>))
    requires
        e.wf(),
        cf.wf(),
    ensures
        r.0 == shared_cost(*cf, *e),
        r.1@ == shared_text(*e),
{
    let ghost nodes = e.nodes@;
    let ghost names = e.names@;
    let n = e.nodes.len();
    let canon = share_classes(e);
    let cnt = occurrences(e);
    let mult = class_counts(e, &canon, &cnt);
    let flags = binding_plan(e, &canon, &mult);
    let mut visited: Vec<bool> = Vec::new();
    let mut q: usize = 0;
    while q < n
        invariant
            q <= n,
            visited@.len() == q,
            forall|x: int| 0 <= x < q ==> !(#[trigger] visited@[x]),
        decreases n - q,
    {
        visited.push(false);
        q = q + 1;
    }
    let mut order: Vec<usize> = Vec::new();
    walk_from(e, &canon, &flags, n - 1, &mut visited, &mut order);
    let ghost ord = order@;
    assert(ord == bind_order(nodes));
    let place = first_places(&order, n);
    let mut texts: Vec<Vec<u8>> = Vec::new();
    let mut inl: Vec<Vec<u8>> = Vec::new();
    let mut costs: Vec<u64> = Vec::new();
    let mut lcost: u64 = 0;
    let mut p: usize = 0;
    while p < n
        invariant
            e.wf(),
            cf.wf(),
            nodes == e.nodes@,
            names == e.names@,
            n == nodes.len(),
            canon@.len() == n,
            canon_ok(nodes, canon@, n as int),
            flags@.len() == n,
            forall|d: int| 0 <= d < n ==> #[trigger] flags@[d] == shared(nodes, d),
            ord == order@,
            place@.len() == n,
            forall|c: int| 0 <= c < n ==> (#[trigger] place@[c] matches Some(i) ==> first_at(ord, c) == Some(i as nat)),
            forall|c: int| 0 <= c < n ==> (place@[c] is None <==> #[trigger] first_at(ord, c) is None),
            p <= n,
            texts@.len() == p,
            inl@.len() == p,
            forall|x: int| 0 <= x < p ==> (#[trigger] texts@[x])@ == ref_texts(nodes, names, ord, p as int)[x],
            forall|x: int|
                0 <= x < p ==> (#[trigger] inl@[x])@ == inline_text(nodes, names, ref_texts(nodes, names, ord, x), x),
            costs@ == ref_costs(*cf, nodes, p as int),
            lcost == sat(lets_cost(*cf, nodes, p as int)),
        decreases n - p,
    {
        let node = &e.nodes[p];
        proof {
            assert(crate::lang::node_ok(nodes[p as int], p as int, names.len() as int));
            lemma_ref_texts_len(nodes, names, ord, p as int);
            lemma_ref_costs_len(*cf, nodes, p as int);
        }
        let ghost prev = ref_texts(nodes, names, ord, p as int);
        let ghost prevc = ref_costs(*cf, nodes, p as int);
        // the node written out one level deep
        let mut t: Vec<u8> = Vec::new();
        let mut cs: Vec<u64> = Vec::new();
        if node.children.len() == 0 {
            push_op(&mut t, &e.names, node.op);
        } else {
            t.push(40u8);
            push_op(&mut t, &e.names, node.op);
            let mut k: usize = 0;
            while k < node.children.len()
                invariant
                    e.wf(),
                    nodes == e.nodes@,
                    names == e.names@,
                    p < n,
                    n == nodes.len(),
                    *node == nodes[p as int],
                    forall|q2: int| 0 <= q2 < node.children@.len() ==> #[trigger] node.children@[q2] < p,
                    texts@.len() == p,
                    prev.len() == p,
                    prevc.len() == p,
                    costs@ == prevc,
                    forall|x: int| 0 <= x < p ==> (#[trigger] texts@[x])@ == prev[x],
                    k <= node.children@.len(),
                    t@ == seq![40u8] + op_text(names, node.op) + spaced(prev, node.children@.subrange(0, k as int)),
                    cs@ =~= Seq::new(k as nat, |q2: int| prevc[node.children@[q2] as int]),
                decreases node.children@.len() - k,
            {
                t.push(32u8);
                push_all(&mut t, &texts[node.children[k]]);
                cs.push(costs[node.children[k]]);
                proof {
                    assert(node.children@.subrange(0, k as int + 1).drop_last() =~= node.children@.subrange(0, k as int));
                    assert(t@ =~= seq![40u8] + op_text(names, node.op) + spaced(prev, node.children@.subrange(0, k as int + 1)));
                }
                k = k + 1;
            }
            t.push(41u8);
            proof {
                assert(node.children@.subrange(0, node.children@.len() as int) =~= node.children@);
            }
        }
        if node.children.len() == 0 {
            assert(cs@ =~= Seq::new(0, |q2: int| prevc[node.children@[q2] as int]));
        }
        assert(t@ =~= inline_text(nodes, names, prev, p as int));
        let ic = cf.cost(node.op, &cs);
        assert(ic == inline_cost(*cf, nodes, prevc, p as int));
        let c = canon[p];
        proof {
            lemma_class_of(nodes, canon@, p as int);
            assert(canon@[p as int] <= p);
        }
        // what the binding line of a shared tree is charged
        if flags[p] {
            proof {
                lemma_lets_cost_nonneg(*cf, nodes, p as int);
                lemma_sat_step(lets_cost(*cf, nodes, p as int), ic as int);
            }
            lcost = lcost.saturating_add(ic);
        }
        // how the node is written where it is used
        let named = flags[c] && place[c].is_some();
        let mut copy: Vec<u8> = Vec::new();
        push_all(&mut copy, &t);
        inl.push(copy);
        if named {
            let i = match place[c] {
                Some(i) => i,
                None => 0,
            };
            let mut nm: Vec<u8> = Vec::new();
            nm.push(116u8);
            push_dec(&mut nm, i as u64);
            assert(nm@ =~= name_text(first_at(ord, c as int)->0));
            texts.push(nm);
        } else {
            texts.push(t);
        }
        if flags[c] {
            costs.push(0);
        } else {
            costs.push(ic);
        }
        proof {
            assert(ref_texts(nodes, names, ord, p as int + 1) == prev.push(
                if shared(nodes, c as int) && first_at(ord, c as int) is Some {
                    name_text(first_at(ord, c as int)->0)
                } else {
                    inline_text(nodes, names, prev, p as int)
                },
            ));
            assert forall|x: int| 0 <= x < p + 1 implies (#[trigger] texts@[x])@ == ref_texts(
                nodes,
                names,
                ord,
                p as int + 1,
            )[x] by {}
            assert forall|x: int|
                0 <= x < p + 1 implies (#[trigger] inl@[x])@ == inline_text(nodes, names, ref_texts(nodes, names, ord, x), x) by {}
            assert(costs@ =~= ref_costs(*cf, nodes, p as int + 1));
        }
        p = p + 1;
    }
    // the binding lines, in the order of the walk
    let mut lets: Vec<u8> = Vec::new();
    let mut i: usize = 0;
    while i < order.len()
        invariant
            nodes == e.nodes@,
            names == e.names@,
            n == nodes.len(),
            ord == order@,
            forall|x: int| 0 <= x < order@.len() ==> #[trigger] order@[x] < n,
            place@.len() == n,
            forall|c: int| 0 <= c < n ==> (#[trigger] place@[c] matches Some(j) ==> first_at(ord, c) == Some(j as nat)),
            forall|c: int| 0 <= c < n ==> (place@[c] is None <==> #[trigger] first_at(ord, c) is None),
            inl@.len() == n,
            forall|x: int|
                0 <= x < n ==> (#[trigger] inl@[x])@ == inline_text(nodes, names, ref_texts(nodes, names, ord, x), x),
            i <= order@.len(),
            lets@ == lets_text(nodes, names, ord, i as int),
        decreases order@.len() - i,
    {
        let c = order[i];
        let ghost lets0 = lets@;
        let first = match place[c] {
            Some(j) => j == i,
            None => false,
        };
        if first {
            lets.push(108u8);
            lets.push(101u8);
            lets.push(116u8);
            lets.push(32u8);
            lets.push(116u8);
            push_dec(&mut lets, i as u64);
            lets.push(32u8);
            lets.push(61u8);
            lets.push(32u8);
            push_all(&mut lets, &inl[c]);
            lets.push(10u8);
            proof {
                assert(lets@ =~= lets0 + let_line(nodes, names, ord, c as int, i as nat));
            }
        } else {
            proof {
                if first_at(ord, c as int) == Some(i as nat) {
                    assert(place@[c as int] is Some);
                }
            }
            assert(lets@ =~= lets0 + seq![]);
        }
        i = i + 1;
    }
    proof {
        lemma_ref_texts_len(nodes, names, ord, n as int);
        lemma_ref_costs_len(*cf, nodes, n as int);
        lemma_lets_cost_nonneg(*cf, nodes, n as int);
        lemma_sat_step(lets_cost(*cf, nodes, n as int), costs@[n - 1] as int);
    }
    let total = lcost.saturating_add(costs[n - 1]);
    push_all(&mut lets, &texts[n - 1]);
    (total, lets)
}

/// The text of every position below `m`, written out in full.
pub open spec fn full_texts(nodes: Seq<Node>, names: Seq<Vec<u8>>, m: int) -> Seq<Seq<u8>>
    decreases m,
{
    if m <= 0 {
        seq![]
    } else {
        let prev = full_texts(nodes, names, m - 1);
        prev.push(inline_text(nodes, names, prev, m - 1))
    }
}

proof fn lemma_full_texts_len(nodes: Seq<Node>, names: Seq<Vec<u8>>, m: int)
    requires
        m >= 0,
    ensures
        full_texts(nodes, names, m).len() == m,
    decreases m,
{
    if m > 0 {
        lemma_full_texts_len(nodes, names, m - 1);
    }
}

/// The text of the tree of `e`, in the notation that the parser reads.
pub open spec fn expr_text(e: Expr) -> Seq<u8> {
    full_texts(e.nodes@, e.names@, e.nodes@.len() as int)[e.nodes@.len() - 1]
}

impl Expr {
    /// Writes the tree of `e` out in full, operation names first.
    pub fn to_text(&self) -> (r: Vec<u8>)
        requires
            self.wf(),
        ensures
            r@ == expr_text(*self),
    {
        let ghost nodes = self.nodes@;
        let ghost names = self.names@;
        let n = self.nodes.len();
        let mut texts: Vec<Vec<u8>> = Vec::new();
        let mut p: usize = 0;
        while p < n
            invariant
                self.wf(),
                nodes == self.nodes@,
                names == self.names@,
                n == nodes.len(),
                p <= n,
                texts@.len() == p,
                forall|x: int| 0 <= x < p ==> (#[trigger] texts@[x])@ == full_texts(nodes, names, p as int)[x],
            decreases n - p,
        {
            let node = &self.nodes[p];
            proof {
                assert(crate::lang::node_ok(nodes[p as int], p as int, names.len() as int));
                lemma_full_texts_len(nodes, names, p as int);
            }
            let ghost prev = full_texts(nodes, names, p as int);
            let mut t: Vec<u8> = Vec::new();
            if node.children.len() == 0 {
                push_op(&mut t, &self.names, node.op);
            } else {
                t.push(40u8);
                push_op(&mut t, &self.names, node.op);
                let mut k: usize = 0;
                while k < node.children.len()
                    invariant
                        self.wf(),
                        nodes == self.nodes@,
                        names == self.names@,
                        p < n,
                        *node == nodes[p as int],
                        forall|q: int| 0 <= q < node.children@.len() ==> #[trigger] node.children@[q] < p,
                        texts@.len() == p,
                        prev.len() == p,
                        forall|x: int| 0 <= x < p ==> (#[trigger] texts@[x])@ == prev[x],
                        k <= node.children@.len(),
                        t@ == seq![40u8] + op_text(names, node.op) + spaced(prev, node.children@.subrange(0, k as int)),
                    decreases node.children@.len() - k,
                {
                    t.push(32u8);
                    push_all(&mut t, &texts[node.children[k]]);
                    proof {
                        assert(node.children@.subrange(0, k as int + 1).drop_last() =~= node.children@.subrange(0, k as int));
                        assert(t@ =~= seq![40u8] + op_text(names, node.op) + spaced(prev, node.children@.subrange(0, k as int + 1)));
                    }
                    k = k + 1;
                }
                t.push(41u8);
                proof {
                    assert(node.children@.subrange(0, node.children@.len() as int) =~= node.children@);
                }
            }
            assert(t@ =~= inline_text(nodes, names, prev, p as int));
            texts.push(t);
            p = p + 1;
        }
        proof {
            lemma_full_texts_len(nodes, names, n as int);
        }
        let mut out: Vec<u8> = Vec::new();
        push_all(&mut out, &texts[n - 1]);
        assert(out@ =~= texts@[n - 1]@);
        out
    }
}


pub open spec fn nsum(s: Seq<nat>) -> nat
    decreases s.len(),
{
    if s.len() == 0 {
        0
    } else {
        nsum(s.drop_last()) + s.last()
    }
}

/// For every position below `m`, how often the tree of `c` occurs within its
/// tree, the position itself included.
pub open spec fn occ_list(nodes: Seq<Node>, c: int, m: int) -> Seq<nat>
    decreases m,
{
    if m <= 0 {
        seq![]
    } else {
        let prev = occ_list(nodes, c, m - 1);
        prev.push(
            (if same(nodes, m - 1, c) { 1nat } else { 0 }) + nsum(
                Seq::new(nodes[m - 1].children@.len(), |k: int| prev[nodes[m - 1].children@[k] as int]),
            ),
        )
    }
}

proof fn lemma_occ_list_prefix(nodes: Seq<Node>, c: int, m: int, m2: int)
    requires
        0 <= m <= m2,
    ensures
        occ_list(nodes, c, m2).len() == m2,
        occ_list(nodes, c, m2).subrange(0, m) == occ_list(nodes, c, m),
    decreases m2,
{
    if m2 > 0 {
        if m < m2 {
            lemma_occ_list_prefix(nodes, c, m, m2 - 1);
            assert(occ_list(nodes, c, m2).subrange(0, m) =~= occ_list(nodes, c, m2 - 1).subrange(0, m));
        } else {
            lemma_occ_list_prefix(nodes, c, m - 1, m2 - 1);
            assert(occ_list(nodes, c, m2).subrange(0, m) =~= occ_list(nodes, c, m));
        }
    } else {
        assert(occ_list(nodes, c, m2).subrange(0, m) =~= occ_list(nodes, c, m));
    }
}

proof fn lemma_ref_costs_prefix(cf: FpCost, nodes: Seq<Node>, m: int, m2: int)
    requires
        0 <= m <= m2,
    ensures
        ref_costs(cf, nodes, m2).len() == m2,
        ref_costs(cf, nodes, m2).subrange(0, m) == ref_costs(cf, nodes, m),
    decreases m2,
{
    lemma_ref_costs_len(cf, nodes, m2);
    if m2 > 0 {
        if m < m2 {
            lemma_ref_costs_prefix(cf, nodes, m, m2 - 1);
            assert(ref_costs(cf, nodes, m2).subrange(0, m) =~= ref_costs(cf, nodes, m2 - 1).subrange(0, m));
        } else {
            lemma_ref_costs_len(cf, nodes, m);
            assert(ref_costs(cf, nodes, m2).subrange(0, m) =~= ref_costs(cf, nodes, m));
        }
    } else {
        assert(ref_costs(cf, nodes, m2).subrange(0, m) =~= ref_costs(cf, nodes, m));
    }
}

/// The operand values of position `q` in `vals`.
pub open spec fn at_children<T>(nodes: Seq<Node>, vals: Seq<T>, q: int) -> Seq<T> {
    Seq::new(nodes[q].children@.len(), |k: int| vals[nodes[q].children@[k] as int])
}

proof fn lemma_occ_unfold(nodes: Seq<Node>, m: int, c: int, q: int)
    requires
        nodes_ok(nodes, m),
        0 <= q < nodes.len(),
    ensures
        occ_list(nodes, c, nodes.len() as int)[q] == (if same(nodes, q, c) { 1nat } else { 0 }) + nsum(
            at_children(nodes, occ_list(nodes, c, nodes.len() as int), q),
        ),
{
    let n = nodes.len() as int;
    assert(crate::lang::node_ok(nodes[q], q, m));
    lemma_occ_list_prefix(nodes, c, q + 1, n);
    lemma_occ_list_prefix(nodes, c, q, q + 1);
    let full = occ_list(nodes, c, n);
    let prev = occ_list(nodes, c, q);
    assert(full[q] == occ_list(nodes, c, q + 1)[q]) by {
        assert(full[q] == full.subrange(0, q + 1)[q]);
    }
    assert(at_children(nodes, full, q) =~= at_children(nodes, prev, q)) by {
        assert forall|k: int| 0 <= k < nodes[q].children@.len() implies full[nodes[q].children@[k] as int]
            == prev[nodes[q].children@[k] as int] by {
            let x = nodes[q].children@[k] as int;
            assert(full[x] == full.subrange(0, q + 1)[x]);
            assert(occ_list(nodes, c, q + 1)[x] == occ_list(nodes, c, q + 1).subrange(0, q)[x]);
        }
    }
}

proof fn lemma_ref_unfold(cf: FpCost, nodes: Seq<Node>, m: int, q: int)
    requires
        nodes_ok(nodes, m),
        0 <= q < nodes.len(),
    ensures
        ref_costs(cf, nodes, nodes.len() as int)[q] == if shared(nodes, class_of(nodes, q)) {
            0
        } else {
            sat(cf.weight_of(nodes[q].op) + seq_sum(at_children(nodes, ref_costs(cf, nodes, nodes.len() as int), q))) as u64
        },
{
    let n = nodes.len() as int;
    assert(crate::lang::node_ok(nodes[q], q, m));
    lemma_ref_costs_prefix(cf, nodes, q + 1, n);
    lemma_ref_costs_prefix(cf, nodes, q, q + 1);
    let full = ref_costs(cf, nodes, n);
    let prev = ref_costs(cf, nodes, q);
    assert(full[q] == ref_costs(cf, nodes, q + 1)[q]) by {
        assert(full[q] == full.subrange(0, q + 1)[q]);
    }
    assert(at_children(nodes, full, q) =~= at_children(nodes, prev, q)) by {
        assert forall|k: int| 0 <= k < nodes[q].children@.len() implies full[nodes[q].children@[k] as int]
            == prev[nodes[q].children@[k] as int] by {
            let x = nodes[q].children@[k] as int;
            assert(full[x] == full.subrange(0, q + 1)[x]);
            assert(ref_costs(cf, nodes, q + 1)[x] == ref_costs(cf, nodes, q + 1).subrange(0, q)[x]);
        }
    }
    assert(at_children(nodes, prev, q) =~= Seq::new(nodes[q].children@.len(), |k: int| prev[nodes[q].children@[k] as int]));
}

proof fn lemma_tree_unfold(cf: FpCost, nodes: Seq<Node>, m: int, q: int)
    requires
        nodes_ok(nodes, m),
        0 <= q < nodes.len(),
    ensures
        tree_costs(cf, nodes)[q] == sat(cf.weight_of(nodes[q].op) + seq_sum(at_children(nodes, tree_costs(cf, nodes), q))),
{
    assert(crate::lang::node_ok(nodes[q], q, m));
    let pre = nodes.subrange(0, q + 1);
    lemma_tree_costs_prefix(cf, pre, nodes);
    assert(pre.drop_last() =~= nodes.subrange(0, q));
    lemma_tree_costs_prefix(cf, nodes.subrange(0, q), nodes);
    lemma_tree_costs_len(cf, nodes.subrange(0, q));
    let full = tree_costs(cf, nodes);
    let prev = tree_costs(cf, nodes.subrange(0, q));
    assert(full[q] == tree_costs(cf, pre)[q]) by {
        assert(full[q] == full.subrange(0, q + 1)[q]);
    }
    assert(pre.last() == nodes[q]);
    lemma_seq_sum_nonneg(Seq::new(nodes[q].children@.len(), |k: int| prev[nodes[q].children@[k] as int]));
    assert(at_children(nodes, full, q) =~= Seq::new(nodes[q].children@.len(), |k: int| prev[nodes[q].children@[k] as int])) by {
        assert forall|k: int| 0 <= k < nodes[q].children@.len() implies full[nodes[q].children@[k] as int]
            == prev[nodes[q].children@[k] as int] by {
            let x = nodes[q].children@[k] as int;
            assert(full[x] == full.subrange(0, q)[x]);
        }
    }
}

proof fn lemma_sum_combine(a: Seq<u64>, b: Seq<nat>, t: Seq<u64>, x: int)
    requires
        a.len() == b.len(),
        b.len() == t.len(),
        forall|k: int| 0 <= k < a.len() ==> #[trigger] a[k] + b[k] * x == t[k],
    ensures
        seq_sum(a) + nsum(b) * x == seq_sum(t),
    decreases a.len(),
{
    if a.len() > 0 {
        lemma_sum_combine(a.drop_last(), b.drop_last(), t.drop_last(), x);
        let sb = nsum(b.drop_last());
        let lb = b.last();
        assert((sb + lb) * x == sb * x + lb * x) by (nonlinear_arith);
        assert(a.last() + b.last() * x == t.last()) by {
            assert(a[a.len() - 1] + b[a.len() - 1] * x == t[a.len() - 1]);
        }
        assert(nsum(b) == sb + lb);
        assert(seq_sum(a) == seq_sum(a.drop_last()) + a.last());
        assert(seq_sum(t) == seq_sum(t.drop_last()) + t.last());
        assert(nsum(b) * x == sb * x + lb * x);
    } else {
        assert(nsum(b) * x == 0) by (nonlinear_arith)
            requires
                nsum(b) == 0,
        ;
    }
}

proof fn lemma_nsum_elem(s: Seq<nat>, k: int)
    requires
        0 <= k < s.len(),
    ensures
        nsum(s) >= s[k],
    decreases s.len(),
{
    if k < s.len() - 1 {
        lemma_nsum_elem(s.drop_last(), k);
    }
}

proof fn lemma_nsum_pos(s: Seq<nat>)
    requires
        nsum(s) >= 1,
    ensures
        exists|k: int| 0 <= k < s.len() && s[k] >= 1,
    decreases s.len(),
{
    if s.last() == 0 {
        lemma_nsum_pos(s.drop_last());
        let k = choose|k: int| 0 <= k < s.drop_last().len() && s.drop_last()[k] >= 1;
        assert(s[k] >= 1);
    }
}

/// Identical trees hold the tree of `c` equally often.
proof fn lemma_same_occ(nodes: Seq<Node>, m: int, c: int, i: int, j: int)
    requires
        nodes_ok(nodes, m),
        same(nodes, i, j),
        0 <= c < nodes.len(),
    ensures
        occ_list(nodes, c, nodes.len() as int)[i] == occ_list(nodes, c, nodes.len() as int)[j],
    decreases i + j,
{
    let full = occ_list(nodes, c, nodes.len() as int);
    lemma_occ_unfold(nodes, m, c, i);
    lemma_occ_unfold(nodes, m, c, j);
    assert forall|k: int| 0 <= k < nodes[i].children@.len() implies at_children(nodes, full, i)[k] == at_children(
        nodes,
        full,
        j,
    )[k] by {
        lemma_same_occ(nodes, m, c, nodes[i].children@[k] as int, nodes[j].children@[k] as int);
    }
    assert(at_children(nodes, full, i) =~= at_children(nodes, full, j));
    if same(nodes, i, c) {
        lemma_same_sym(nodes, i, j);
        lemma_same_trans(nodes, j, i, c);
    }
    if same(nodes, j, c) {
        lemma_same_trans(nodes, i, j, c);
    }
}

/// A tree that holds the tree of `c` holds a copy of it that occurs no more
/// often than the tree itself holds it.
proof fn lemma_occ_descent(nodes: Seq<Node>, m: int, c: int, x: int)
    requires
        nodes_ok(nodes, m),
        0 <= x < nodes.len(),
        occ_list(nodes, c, nodes.len() as int)[x] >= 1,
    ensures
        exists|y: int|
            0 <= y < nodes.len() && same(nodes, y, c) && occ_list(nodes, c, nodes.len() as int)[y] <= occ_list(
                nodes,
                c,
                nodes.len() as int,
            )[x],
    decreases x,
{
    let full = occ_list(nodes, c, nodes.len() as int);
    lemma_occ_unfold(nodes, m, c, x);
    if !same(nodes, x, c) {
        let cs = at_children(nodes, full, x);
        lemma_nsum_pos(cs);
        let k = choose|k: int| 0 <= k < cs.len() && cs[k] >= 1;
        assert(crate::lang::node_ok(nodes[x], x, m));
        let d = nodes[x].children@[k] as int;
        lemma_nsum_elem(cs, k);
        lemma_occ_descent(nodes, m, c, d);
    }
}

/// No copy of the tree of `c` lies strictly inside it.
proof fn lemma_not_inside(nodes: Seq<Node>, m: int, c: int, k: int)
    requires
        nodes_ok(nodes, m),
        0 <= c < nodes.len(),
        0 <= k < nodes[c].children@.len(),
    ensures
        occ_list(nodes, c, nodes.len() as int)[nodes[c].children@[k] as int] == 0,
{
    let full = occ_list(nodes, c, nodes.len() as int);
    assert(crate::lang::node_ok(nodes[c], c, m));
    let d = nodes[c].children@[k] as int;
    crate::cse::lemma_same_refl(nodes, m, c);
    lemma_occ_unfold(nodes, m, c, c);
    lemma_nsum_elem(at_children(nodes, full, c), k);
    if full[d] >= 1 {
        lemma_occ_descent(nodes, m, c, d);
        let y = choose|y: int| 0 <= y < nodes.len() && same(nodes, y, c) && full[y] <= full[d];
        lemma_same_occ(nodes, m, c, y, c);
    }
}


proof fn lemma_first_same_props(nodes: Seq<Node>, m: int, p: int, j: int)
    requires
        nodes_ok(nodes, m),
        0 <= j <= p < nodes.len(),
    ensures
        j <= first_same(nodes, p, j) <= p,
        same(nodes, p, first_same(nodes, p, j)),
        forall|x: int| j <= x < first_same(nodes, p, j) ==> !same(nodes, p, x),
    decreases p - j,
{
    if j >= p {
        lemma_same_refl(nodes, m, p);
    } else if !same(nodes, p, j) {
        lemma_first_same_props(nodes, m, p, j + 1);
    }
}

/// Identical trees have one class.
proof fn lemma_same_class(nodes: Seq<Node>, m: int, p: int, q: int)
    requires
        nodes_ok(nodes, m),
        same(nodes, p, q),
    ensures
        class_of(nodes, p) == class_of(nodes, q),
{
    lemma_first_same_props(nodes, m, p, 0);
    lemma_first_same_props(nodes, m, q, 0);
    let a = class_of(nodes, p);
    let b = class_of(nodes, q);
    lemma_same_sym(nodes, p, q);
    if a < b {
        lemma_same_trans(nodes, q, p, a);
    } else if b < a {
        lemma_same_trans(nodes, p, q, b);
    }
}

/// Identical trees cost the same.
proof fn lemma_same_cost(cf: FpCost, nodes: Seq<Node>, m: int, i: int, j: int)
    requires
        nodes_ok(nodes, m),
        same(nodes, i, j),
    ensures
        tree_costs(cf, nodes)[i] == tree_costs(cf, nodes)[j],
    decreases i + j,
{
    let full = tree_costs(cf, nodes);
    lemma_tree_unfold(cf, nodes, m, i);
    lemma_tree_unfold(cf, nodes, m, j);
    assert forall|k: int| 0 <= k < nodes[i].children@.len() implies at_children(nodes, full, i)[k] == at_children(
        nodes,
        full,
        j,
    )[k] by {
        lemma_same_cost(cf, nodes, m, nodes[i].children@[k] as int, nodes[j].children@[k] as int);
    }
    assert(at_children(nodes, full, i) =~= at_children(nodes, full, j));
}

/// Below every position, where `c` is the one shared tree: what the position
/// is charged where it is used, plus the cost of `c` for every copy of `c` it
/// holds, is its tree cost.
proof fn lemma_ref_accounts(cf: FpCost, nodes: Seq<Node>, m: int, c: int, q: int)
    requires
        nodes_ok(nodes, m),
        shared(nodes, c),
        forall|d: int| #[trigger] shared(nodes, d) ==> d == c,
        forall|x: int| 0 <= x < nodes.len() ==> #[trigger] tree_costs(cf, nodes)[x] < u64::MAX,
        0 <= q < nodes.len(),
    ensures
        ref_costs(cf, nodes, nodes.len() as int)[q] + occ_list(nodes, c, nodes.len() as int)[q] * tree_costs(cf, nodes)[c]
            == tree_costs(cf, nodes)[q],
    decreases q,
{
    let n = nodes.len() as int;
    let rf = ref_costs(cf, nodes, n);
    let oc = occ_list(nodes, c, n);
    let tc = tree_costs(cf, nodes);
    lemma_tree_costs_len(cf, nodes);
    lemma_ref_costs_len(cf, nodes, n);
    lemma_occ_list_prefix(nodes, c, n, n);
    lemma_ref_unfold(cf, nodes, m, q);
    lemma_occ_unfold(nodes, m, c, q);
    lemma_tree_unfold(cf, nodes, m, q);
    assert(crate::lang::node_ok(nodes[q], q, m));
    lemma_first_same_props(nodes, m, q, 0);
    lemma_first_same_props(nodes, m, c, 0);
    if shared(nodes, class_of(nodes, q)) {
        // a copy of `c`
        assert(class_of(nodes, q) == c);
        assert(same(nodes, q, c));
        lemma_same_occ(nodes, m, c, q, c);
        lemma_same_cost(cf, nodes, m, q, c);
        lemma_same_refl(nodes, m, c);
        lemma_occ_unfold(nodes, m, c, c);
        assert(crate::lang::node_ok(nodes[c], c, m));
        let cs = at_children(nodes, oc, c);
        assert forall|k: int| 0 <= k < cs.len() implies cs[k] == 0 by {
            lemma_not_inside(nodes, m, c, k);
        }
        lemma_nsum_zero(cs);
        assert(oc[q] == 1);
    } else {
        if same(nodes, q, c) {
            lemma_same_class(nodes, m, q, c);
        }
        assert(!same(nodes, q, c));
        let rs = at_children(nodes, rf, q);
        let os = at_children(nodes, oc, q);
        let ts = at_children(nodes, tc, q);
        assert forall|k: int| 0 <= k < rs.len() implies #[trigger] rs[k] + os[k] * tc[c] == ts[k] by {
            lemma_ref_accounts(cf, nodes, m, c, nodes[q].children@[k] as int);
        }
        lemma_sum_combine(rs, os, ts, tc[c] as int);
        lemma_seq_sum_nonneg(rs);
        lemma_seq_sum_nonneg(ts);
        assert(nsum(os) * tc[c] >= 0) by (nonlinear_arith)
            requires
                tc[c] >= 0,
        ;
    }
}

proof fn lemma_nsum_zero(s: Seq<nat>)
    requires
        forall|k: int| 0 <= k < s.len() ==> s[k] == 0,
    ensures
        nsum(s) == 0,
    decreases s.len(),
{
    if s.len() > 0 {
        lemma_nsum_zero(s.drop_last());
    }
}

proof fn lemma_lets_single(cf: FpCost, nodes: Seq<Node>, c: int, m: int)
    requires
        shared(nodes, c),
        forall|d: int| #[trigger] shared(nodes, d) ==> d == c,
        0 <= m <= nodes.len(),
    ensures
        lets_cost(cf, nodes, m) == if m > c { inline_cost(cf, nodes, ref_costs(cf, nodes, c), c) as int } else { 0 },
    decreases m,
{
    if m > 0 {
        lemma_lets_single(cf, nodes, c, m - 1);
    }
}

/// Where the tree of `c` is the one non-leaf tree that occurs in `e` more
/// than once, `k` times, and no tree cost reaches `u64::MAX`: binding it
/// charges the tree's cost less `k - 1` times the cost of `c`.
pub proof fn lemma_sharing_saves(cf: FpCost, e: Expr, c: int)
    requires
        e.wf(),
        shared(e.nodes@, c),
        forall|d: int| #[trigger] shared(e.nodes@, d) ==> d == c,
        occ_list(e.nodes@, c, e.nodes@.len() as int)[e.root()] > 1,
        forall|x: int| 0 <= x < e.nodes@.len() ==> #[trigger] tree_costs(cf, e.nodes@)[x] < u64::MAX,
    ensures
        shared_cost(cf, e) == tree_costs(cf, e.nodes@)[e.root()] - (occ_list(e.nodes@, c, e.nodes@.len() as int)[e.root()]
            - 1) * tree_costs(cf, e.nodes@)[c],
{
    let nodes = e.nodes@;
    let m = e.names@.len() as int;
    let n = nodes.len() as int;
    let rf = ref_costs(cf, nodes, n);
    let oc = occ_list(nodes, c, n);
    let tc = tree_costs(cf, nodes);
    let r = n - 1;
    lemma_ref_accounts(cf, nodes, m, c, r);
    lemma_lets_single(cf, nodes, c, n);
    // the binding of `c` is written out in full: nothing inside it is shared
    assert(crate::lang::node_ok(nodes[c], c, m));
    lemma_ref_costs_prefix(cf, nodes, c, n);
    let cs = Seq::new(nodes[c].children@.len(), |k: int| ref_costs(cf, nodes, c)[nodes[c].children@[k] as int]);
    assert forall|k: int| 0 <= k < cs.len() implies cs[k] == at_children(nodes, tc, c)[k] by {
        let d = nodes[c].children@[k] as int;
        assert(0 <= d < c);
        assert(ref_costs(cf, nodes, c)[d] == rf.subrange(0, c)[d]);
        assert(rf.subrange(0, c)[d] == rf[d]);
        lemma_ref_accounts(cf, nodes, m, c, d);
        lemma_not_inside(nodes, m, c, k);
        assert(oc[d] == 0);
        assert(oc[d] * tc[c] == 0);
        assert(rf[d] == tc[d]);
    }
    assert(cs =~= at_children(nodes, tc, c));
    lemma_tree_unfold(cf, nodes, m, c);
    let k = oc[r];
    assert(k * tc[c] == (k - 1) * tc[c] + tc[c]) by (nonlinear_arith);
    assert((k - 1) * tc[c] >= 0) by (nonlinear_arith)
        requires
            k > 1,
            tc[c] >= 0,
    ;
}


proof fn lemma_walk_unshared(nodes: Seq<Node>, p: int, o: Seq<usize>)
    requires
        forall|c: int| !#[trigger] shared(nodes, c),
    ensures
        walk(nodes, p, o) == o,
    decreases p, nodes[p].children@.len() + 1,
{
    if 0 <= p < nodes.len() {
        lemma_walk_kids_unshared(nodes, p, nodes[p].children@.len() as int, o);
    }
}

proof fn lemma_walk_kids_unshared(nodes: Seq<Node>, p: int, k: int, o: Seq<usize>)
    requires
        forall|c: int| !#[trigger] shared(nodes, c),
    ensures
        walk_kids(nodes, p, k, o) == o,
    decreases p, k,
{
    if k > 0 && 0 <= p < nodes.len() && k <= nodes[p].children@.len() {
        lemma_walk_kids_unshared(nodes, p, k - 1, o);
        let ch = nodes[p].children@[k - 1] as int;
        if 0 <= ch < p {
            lemma_walk_unshared(nodes, ch, o);
        }
    }
}

proof fn lemma_ref_texts_unshared(nodes: Seq<Node>, names: Seq<Vec<u8>>, order: Seq<usize>, m: int)
    requires
        forall|c: int| !#[trigger] shared(nodes, c),
    ensures
        ref_texts(nodes, names, order, m) == full_texts(nodes, names, m),
    decreases m,
{
    if m > 0 {
        lemma_ref_texts_unshared(nodes, names, order, m - 1);
    }
}

proof fn lemma_lets_cost_unshared(cf: FpCost, nodes: Seq<Node>, m: int)
    requires
        forall|c: int| !#[trigger] shared(nodes, c),
    ensures
        lets_cost(cf, nodes, m) == 0,
    decreases m,
{
    if m > 0 {
        lemma_lets_cost_unshared(cf, nodes, m - 1);
    }
}

proof fn lemma_ref_costs_unshared(cf: FpCost, nodes: Seq<Node>, m: int, q: int)
    requires
        nodes_ok(nodes, m),
        forall|c: int| !#[trigger] shared(nodes, c),
        0 <= q < nodes.len(),
    ensures
        ref_costs(cf, nodes, nodes.len() as int)[q] == tree_costs(cf, nodes)[q],
    decreases q,
{
    let n = nodes.len() as int;
    lemma_ref_unfold(cf, nodes, m, q);
    lemma_tree_unfold(cf, nodes, m, q);
    assert(crate::lang::node_ok(nodes[q], q, m));
    assert forall|k: int| 0 <= k < nodes[q].children@.len() implies at_children(nodes, ref_costs(cf, nodes, n), q)[k]
        == at_children(nodes, tree_costs(cf, nodes), q)[k] by {
        lemma_ref_costs_unshared(cf, nodes, m, nodes[q].children@[k] as int);
    }
    assert(at_children(nodes, ref_costs(cf, nodes, n), q) =~= at_children(nodes, tree_costs(cf, nodes), q));
}

/// Where no non-leaf tree of `e` occurs more than once, nothing is bound: the
/// shared form is the plain text of `e`, and it costs what the tree costs.
pub proof fn lemma_no_sharing(cf: FpCost, e: Expr)
    requires
        e.wf(),
        forall|c: int| !#[trigger] shared(e.nodes@, c),
    ensures
        shared_text(e) == expr_text(e),
        shared_cost(cf, e) == tree_costs(cf, e.nodes@)[e.root()],
{
    let nodes = e.nodes@;
    let n = nodes.len() as int;
    lemma_walk_unshared(nodes, n - 1, seq![]);
    assert(bind_order(nodes) == Seq::<usize>::empty());
    assert(lets_text(e.nodes@, e.names@, seq![], 0) == Seq::<u8>::empty());
    lemma_ref_texts_unshared(nodes, e.names@, seq![], n);
    assert(shared_text(e) =~= expr_text(e));
    lemma_lets_cost_unshared(cf, nodes, n);
    lemma_ref_costs_unshared(cf, nodes, e.names@.len() as int, n - 1);
}

} // verus!
