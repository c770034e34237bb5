use vstd::prelude::*;
use crate::analysis::{ConstantFolding, data_le, join, make_spec};
use crate::lang::{Node, Op, arity_of};

verus! {

/// Representative reached from id `i` by following parent links. Links only
/// ever point to lower ids, which is what makes the walk end.
pub open spec fn root_of(p: Seq<usize>, i: int) -> int
    decreases i,
{
    if !(0 <= i < p.len()) || p[i] as int >= i {
        i
    } else {
        root_of(p, p[i] as int)
    }
}

pub open spec fn parents_ok(p: Seq<usize>) -> bool {
    forall|i: int| 0 <= i < p.len() ==> #[trigger] p[i] <= i
}

pub open spec fn is_root(p: Seq<usize>, i: int) -> bool {
    0 <= i < p.len() && p[i] == i
}

/// Number of representatives among the first `m` ids.
pub open spec fn count_roots(p: Seq<usize>, m: int) -> int
    decreases m,
{
    if m <= 0 {
        0
    } else {
        count_roots(p, m - 1) + if p[m - 1] == m - 1 { 1int } else { 0 }
    }
}

pub proof fn lemma_root(p: Seq<usize>, i: int)
    requires
        parents_ok(p),
        0 <= i < p.len(),
    ensures
        0 <= root_of(p, i) <= i,
        is_root(p, root_of(p, i)),
        root_of(p, root_of(p, i)) == root_of(p, i),
    decreases i,
{
    if p[i] as int != i {
        lemma_root(p, p[i] as int);
    }
}

proof fn lemma_link(p: Seq<usize>, hi: int, lo: int, j: int)
    requires
        parents_ok(p),
        is_root(p, hi),
        is_root(p, lo),
        lo < hi,
        0 <= j < p.len(),
    ensures
        root_of(p.update(hi, lo as usize), j) == if root_of(p, j) == hi {
            lo
        } else {
            root_of(p, j)
        },
    decreases j,
{
    let q = p.update(hi, lo as usize);
    if j == hi {
        lemma_link(p, hi, lo, lo);
    } else if p[j] as int != j {
        lemma_link(p, hi, lo, p[j] as int);
    }
}

proof fn lemma_push(p: Seq<usize>, j: int)
    requires
        0 <= j < p.len(),
        parents_ok(p),
    ensures
        root_of(p.push(p.len() as usize), j) == root_of(p, j),
    decreases j,
{
    if p[j] as int != j {
        lemma_push(p, p[j] as int);
    }
}

proof fn lemma_count_link(p: Seq<usize>, hi: int, lo: int, m: int)
    requires
        is_root(p, hi),
        lo != hi,
        0 <= lo <= usize::MAX,
        0 <= m <= p.len(),
    ensures
        count_roots(p.update(hi, lo as usize), m) == count_roots(p, m) - if hi < m { 1int } else { 0 },
    decreases m,
{
    if m > 0 {
        lemma_count_link(p, hi, lo, m - 1);
    }
}

proof fn lemma_count_bounds(p: Seq<usize>, m: int)
    requires
        0 <= m <= p.len(),
    ensures
        0 <= count_roots(p, m) <= m,
    decreases m,
{
    if m > 0 {
        lemma_count_bounds(p, m - 1);
    }
}

/// Every class of `start` holds, in `g`, at least the datum it had.
pub open spec fn data_kept(start: EGraph, g: EGraph) -> bool {
    forall|x: int|
        0 <= x < start.len() && start.root(x) == x ==> data_le(start.data_seq()[x], #[trigger] g.data_seq()[g.root(x)])
}

/// Every known datum of a class of `g` is the datum that a class of `start`
/// merged into it had: a class's datum is the join of the data merged in.
pub open spec fn data_from(start: EGraph, g: EGraph) -> bool {
    forall|r: int|
        0 <= r < g.len() && g.root(r) == r && (#[trigger] g.data_seq()[r]) is Some ==> exists|x: int|
            0 <= x < start.len() && start.root(x) == x && g.root(x) == r && #[trigger] start.data_seq()[x]
                == g.data_seq()[r]
}

/// Every node of `g` beyond those of `start` is a literal of the known datum
/// of a class of `start` that it was merged with.
pub open spec fn literals_added(start: EGraph, g: EGraph) -> bool {
    forall|j: int|
        start.len() <= j < g.len() ==> exists|x: int|
            0 <= x < start.len() && start.root(x) == x && g.root(x) == g.root(j) && start.data_seq()[x] is Some
                && #[trigger] g.node_seq()[j].op == Op::Num(start.data_seq()[x]->0)
}

proof fn lemma_data_refl(g: EGraph)
    requires
        g.wf(),
    ensures
        data_kept(g, g),
        data_from(g, g),
        literals_added(g, g),
{
    assert forall|r: int| 0 <= r < g.len() && g.root(r) == r && (#[trigger] g.data_seq()[r]) is Some implies exists|x: int|
        0 <= x < g.len() && g.root(x) == x && g.root(x) == r && #[trigger] g.data_seq()[x] == g.data_seq()[r] by {
        assert(g.data_seq()[r] == g.data_seq()[r]);
    }
}

proof fn lemma_data_trans(a: EGraph, b: EGraph, c: EGraph)
    requires
        a.wf(),
        b.wf(),
        a.grows_to(b),
        b.grows_to(c),
        data_kept(a, b),
        data_from(a, b),
        literals_added(a, b),
        data_kept(b, c),
        data_from(b, c),
        literals_added(b, c),
    ensures
        data_kept(a, c),
        data_from(a, c),
        literals_added(a, c),
{
    assert forall|x: int| 0 <= x < a.len() && a.root(x) == x implies data_le(a.data_seq()[x], #[trigger] c.data_seq()[c.root(x)]) by {
        a.lemma_wf(x);
        let y = b.root(x);
        b.lemma_wf(x);
        assert(b.equiv(x, y));
        assert(c.equiv(x, y));
        crate::analysis::lemma_data_le_trans(a.data_seq()[x], b.data_seq()[y], c.data_seq()[c.root(y)]);
    }
    assert forall|r: int| 0 <= r < c.len() && c.root(r) == r && (#[trigger] c.data_seq()[r]) is Some implies exists|x: int|
        0 <= x < a.len() && a.root(x) == x && c.root(x) == r && #[trigger] a.data_seq()[x] == c.data_seq()[r] by {
        let y = choose|y: int| 0 <= y < b.len() && b.root(y) == y && c.root(y) == r && #[trigger] b.data_seq()[y] == c.data_seq()[r];
        let x = choose|x: int| 0 <= x < a.len() && a.root(x) == x && b.root(x) == y && #[trigger] a.data_seq()[x] == b.data_seq()[y];
        b.lemma_wf(x);
        assert(b.equiv(x, y));
        assert(c.equiv(x, y));
    }
    assert forall|j: int| a.len() <= j < c.len() implies exists|x: int|
        0 <= x < a.len() && a.root(x) == x && c.root(x) == c.root(j) && a.data_seq()[x] is Some
            && #[trigger] c.node_seq()[j].op == Op::Num(a.data_seq()[x]->0) by {
        if j < b.len() {
            let x = choose|x: int|
                0 <= x < a.len() && a.root(x) == x && b.root(x) == b.root(j) && a.data_seq()[x] is Some
                    && #[trigger] b.node_seq()[j].op == Op::Num(a.data_seq()[x]->0);
            b.lemma_wf(j);
            assert(b.equiv(x, j));
            assert(c.equiv(x, j));
            assert(c.node_seq()[j] == c.node_seq().subrange(0, b.len())[j]);
        } else {
            let y = choose|y: int|
                0 <= y < b.len() && b.root(y) == y && c.root(y) == c.root(j) && b.data_seq()[y] is Some
                    && #[trigger] c.node_seq()[j].op == Op::Num(b.data_seq()[y]->0);
            assert(data_from(a, b));
            assert(b.data_seq()[y] is Some);
            let x = choose|x: int| 0 <= x < a.len() && a.root(x) == x && b.root(x) == y && #[trigger] a.data_seq()[x] == b.data_seq()[y];
            b.lemma_wf(x);
            assert(b.equiv(x, y));
            assert(c.equiv(x, y));
        }
    }
}

/// A merge keeps old data, takes a merged datum from one of its sides, and
/// adds no node.
proof fn lemma_union_data(start: EGraph, before: EGraph, after: EGraph, a: int, b: int)
    requires
        start.wf(),
        before.wf(),
        after.wf(),
        start.grows_to(before),
        data_kept(start, before),
        data_from(start, before),
        literals_added(start, before),
        0 <= a < before.len(),
        0 <= b < before.len(),
        after.len() == before.len(),
        after.node_seq() == before.node_seq(),
        forall|j: int|
            0 <= j < before.len() ==> #[trigger] after.root(j) == if before.equiv(j, a) || before.equiv(j, b) {
                if before.root(a) < before.root(b) {
                    before.root(a)
                } else {
                    before.root(b)
                }
            } else {
                before.root(j)
            },
        after.data_seq()[after.root(a)] == join(before.data_seq()[before.root(a)], before.data_seq()[before.root(b)]),
        forall|j: int|
            0 <= j < before.len() && !before.equiv(j, a) && !before.equiv(j, b) ==> #[trigger] after.data_seq()[j]
                == before.data_seq()[j],
    ensures
        data_kept(start, after),
        data_from(start, after),
        literals_added(start, after),
{
    before.lemma_wf(a);
    before.lemma_wf(b);
    let ra = before.root(a);
    let rb = before.root(b);
    let lo = after.root(a);
    crate::analysis::lemma_merge_monotone(before.data_seq()[ra], before.data_seq()[rb]);
    assert forall|x: int| 0 <= x < start.len() && start.root(x) == x implies data_le(
        start.data_seq()[x],
        #[trigger] after.data_seq()[after.root(x)],
    ) by {
        before.lemma_wf(x);
        let y = before.root(x);
        assert(data_le(start.data_seq()[x], before.data_seq()[y]));
        if before.equiv(x, a) || before.equiv(x, b) {
            assert(after.root(x) == lo);
            if y == ra {
                crate::analysis::lemma_data_le_trans(start.data_seq()[x], before.data_seq()[y], after.data_seq()[lo]);
            } else {
                crate::analysis::lemma_data_le_trans(start.data_seq()[x], before.data_seq()[y], after.data_seq()[lo]);
            }
        } else {
            assert(after.root(x) == y);
            before.lemma_wf(y);
            assert(!before.equiv(y, a) && !before.equiv(y, b));
        }
    }
    assert forall|r: int| 0 <= r < after.len() && after.root(r) == r && (#[trigger] after.data_seq()[r]) is Some
        implies exists|x: int|
        0 <= x < start.len() && start.root(x) == x && after.root(x) == r && #[trigger] start.data_seq()[x]
            == after.data_seq()[r] by {
        before.lemma_wf(r);
        if before.equiv(r, a) || before.equiv(r, b) {
            assert(r == lo);
            let side = if after.data_seq()[r] == before.data_seq()[ra] { ra } else { rb };
            assert(before.data_seq()[side] == after.data_seq()[r]);
            before.lemma_wf(side);
            let x = choose|x: int|
                0 <= x < start.len() && start.root(x) == x && before.root(x) == side && #[trigger] start.data_seq()[x]
                    == before.data_seq()[side];
            assert(after.root(x) == lo);
        } else {
            assert(before.root(r) == r);
            assert(after.data_seq()[r] == before.data_seq()[r]);
            let x = choose|x: int|
                0 <= x < start.len() && start.root(x) == x && before.root(x) == r && #[trigger] start.data_seq()[x]
                    == before.data_seq()[r];
            assert(after.root(x) == r);
        }
    }
    assert forall|j: int| start.len() <= j < after.len() implies exists|x: int|
        0 <= x < start.len() && start.root(x) == x && after.root(x) == after.root(j) && start.data_seq()[x] is Some
            && #[trigger] after.node_seq()[j].op == Op::Num(start.data_seq()[x]->0) by {
        let x = choose|x: int|
            0 <= x < start.len() && start.root(x) == x && before.root(x) == before.root(j) && start.data_seq()[x] is Some
                && #[trigger] before.node_seq()[j].op == Op::Num(start.data_seq()[x]->0);
        before.lemma_wf(x);
        before.lemma_wf(j);
        assert(before.equiv(x, j));
    }
}

/// Adding the literal of class `c`'s datum and merging it in keeps the data
/// provenance: the new node is a literal of `c`'s datum, and the merged
/// class keeps the datum it had.
proof fn lemma_literal_step_data(start: EGraph, g0: EGraph, g1: EGraph, g2: EGraph, c: int, id: int, k: u64)
    requires
        start.wf(),
        g0.wf(),
        g1.wf(),
        g2.wf(),
        start.grows_to(g0),
        data_kept(start, g0),
        data_from(start, g0),
        literals_added(start, g0),
        0 <= c < start.len(),
        snap_datum(start, c) == Some(k),
        g1 == g0 || (g1.len() == g0.len() + 1 && g1.node_seq().drop_last() == g0.node_seq() && g1.node_seq().last().op
            == Op::Num(k) && g1.data_seq()[g0.len() as int] == Some(k) && g1.root(g0.len() as int) == g0.len()
            && id == g0.len()),
        forall|j: int| 0 <= j < g0.len() ==> #[trigger] g1.root(j) == g0.root(j),
        forall|j: int| 0 <= j < g0.len() ==> #[trigger] g1.data_seq()[j] == g0.data_seq()[j],
        0 <= id < g1.len(),
        g2.len() == g1.len(),
        g2.node_seq() == g1.node_seq(),
        forall|j: int|
            0 <= j < g1.len() ==> #[trigger] g2.root(j) == if g1.equiv(j, c) || g1.equiv(j, id) {
                if g1.root(c) < g1.root(id) {
                    g1.root(c)
                } else {
                    g1.root(id)
                }
            } else {
                g1.root(j)
            },
        g2.data_seq()[g2.root(c)] == join(g1.data_seq()[g1.root(c)], g1.data_seq()[g1.root(id)]),
        forall|j: int|
            0 <= j < g1.len() && !g1.equiv(j, c) && !g1.equiv(j, id) ==> #[trigger] g2.data_seq()[j] == g1.data_seq()[j],
    ensures
        data_kept(start, g2),
        data_from(start, g2),
        literals_added(start, g2),
{
    if g1 == g0 {
        lemma_union_data(start, g0, g2, c, id);
    } else {
        let n = g0.len() as int;
        g0.lemma_wf(c);
        start.lemma_wf(c);
        let rc = g0.root(c);
        assert(g1.root(c) == rc);
        assert(start.root(c) == c);
        assert(data_le(start.data_seq()[c], g0.data_seq()[rc]));
        assert(g1.root(n) == n);
        assert(!g1.equiv(c, n)) by {
            assert(rc < n);
        }
        let lo = g2.root(c);
        assert(lo == rc);
        assert(g2.data_seq()[lo] == g1.data_seq()[rc]);
        assert forall|x: int| 0 <= x < start.len() && start.root(x) == x implies data_le(
            start.data_seq()[x],
            #[trigger] g2.data_seq()[g2.root(x)],
        ) by {
            g0.lemma_wf(x);
            assert(g1.root(x) == g0.root(x));
            assert(data_le(start.data_seq()[x], g0.data_seq()[g0.root(x)]));
            if g1.equiv(x, c) {
                assert(g2.root(x) == lo);
            } else {
                assert(!g1.equiv(x, id));
                g0.lemma_wf(g0.root(x));
                assert(g2.root(x) == g0.root(x));
                assert(!g1.equiv(g0.root(x), c) && !g1.equiv(g0.root(x), id));
            }
        }
        assert forall|r: int| 0 <= r < g2.len() && g2.root(r) == r && (#[trigger] g2.data_seq()[r]) is Some
            implies exists|x: int|
            0 <= x < start.len() && start.root(x) == x && g2.root(x) == r && #[trigger] start.data_seq()[x]
                == g2.data_seq()[r] by {
            if r == n {
                assert(g1.equiv(r, id));
                assert(g2.root(r) == lo);
                assert(false);
            }
            g0.lemma_wf(r);
            if g1.equiv(r, c) {
                assert(r == lo);
                let x = choose|x: int|
                    0 <= x < start.len() && start.root(x) == x && g0.root(x) == rc && #[trigger] start.data_seq()[x]
                        == g0.data_seq()[rc];
                assert(g2.root(x) == lo);
            } else {
                assert(g2.root(r) == g1.root(r));
                assert(g0.root(r) == r);
                assert(g2.data_seq()[r] == g0.data_seq()[r]);
                let x = choose|x: int|
                    0 <= x < start.len() && start.root(x) == x && g0.root(x) == r && #[trigger] start.data_seq()[x]
                        == g0.data_seq()[r];
                g0.lemma_wf(x);
                assert(g2.root(x) == r);
            }
        }
        assert forall|j: int| start.len() <= j < g2.len() implies exists|x: int|
            0 <= x < start.len() && start.root(x) == x && g2.root(x) == g2.root(j) && start.data_seq()[x] is Some
                && #[trigger] g2.node_seq()[j].op == Op::Num(start.data_seq()[x]->0) by {
            if j == n {
                assert(g2.root(n) == lo);
                assert(g2.node_seq()[j].op == Op::Num(k));
                assert(start.data_seq()[c] == Some(k));
                assert(g2.root(c) == g2.root(j));
            } else {
                let x = choose|x: int|
                    0 <= x < start.len() && start.root(x) == x && g0.root(x) == g0.root(j) && start.data_seq()[x] is Some
                        && #[trigger] g0.node_seq()[j].op == Op::Num(start.data_seq()[x]->0);
                g0.lemma_wf(x);
                g0.lemma_wf(j);
                assert(g0.equiv(x, j));
                assert(g1.equiv(x, j));
                assert(g2.equiv(x, j));
                assert(g2.node_seq()[j] == g1.node_seq().drop_last()[j]);
            }
        }
    }
}

/// Every id of `start` whose class has a known datum is related by `rel`
/// to every literal node of `g` for that datum.
pub open spec fn relates_literals(start: EGraph, g: EGraph, rel: spec_fn(int, int) -> bool) -> bool {
    forall|x: int, j: int|
        0 <= x < start.len() && 0 <= j < g.len() && start.data_seq()[start.root(x)] is Some && g.node_seq()[j].op
            == Op::Num(start.data_seq()[start.root(x)]->0) ==> #[trigger] rel(x, j)
}

/// `rel` is a congruence over the nodes of `g` that holds the equivalences
/// of `start` and ties each class of `start` with a known constant to the
/// literals of that constant: the merges that a rebuild of `start` may make.
pub open spec fn admits(start: EGraph, g: EGraph, rel: spec_fn(int, int) -> bool) -> bool {
    &&& is_congruence(g.node_seq(), rel)
    &&& start.within(rel)
    &&& relates_literals(start, g, rel)
}

proof fn lemma_admits_restrict(start: EGraph, g: EGraph, h: EGraph, rel: spec_fn(int, int) -> bool)
    requires
        admits(start, h, rel),
        g.len() <= h.len(),
        h.node_seq().subrange(0, g.len()) == g.node_seq(),
    ensures
        admits(start, g, rel),
        is_congruence(g.node_seq(), rel),
{
    assert forall|i: int| 0 <= i < g.len() implies g.node_seq()[i] == h.node_seq()[i] by {
        assert(h.node_seq().subrange(0, g.len())[i] == h.node_seq()[i]);
    }
}

/// One literal step keeps the graph within every relation that admits it.
proof fn lemma_literal_step_rel(
    start: EGraph,
    g0: EGraph,
    g1: EGraph,
    g2: EGraph,
    c: int,
    id: int,
    k: u64,
    jlit: int,
    rel: spec_fn(int, int) -> bool,
)
    requires
        g0.wf(),
        g1.wf(),
        g2.wf(),
        0 <= c < start.len(),
        start.len() <= g0.len(),
        start.root(c) == c,
        start.data_seq()[c] == Some(k),
        g0.within(rel),
        g1 == g0 || (g1.len() == g0.len() + 1 && g1.node_seq().drop_last() == g0.node_seq() && g1.root(g0.len() as int)
            == g0.len()),
        forall|j: int| 0 <= j < g0.len() ==> #[trigger] g1.root(j) == g0.root(j),
        0 <= id < g1.len(),
        0 <= jlit < g1.len(),
        g1.root(jlit) == id,
        g1.root(id) == id,
        g1.node_seq()[jlit].op == Op::Num(k),
        g2.len() == g1.len(),
        g2.node_seq() == g1.node_seq(),
        forall|j: int|
            0 <= j < g1.len() ==> #[trigger] g2.root(j) == if g1.equiv(j, c) || g1.equiv(j, id) {
                if g1.root(c) < g1.root(id) {
                    g1.root(c)
                } else {
                    g1.root(id)
                }
            } else {
                g1.root(j)
            },
        admits(start, g2, rel),
    ensures
        g2.within(rel),
{
    let n = g1.len();
    assert(is_congruence(g1.node_seq(), rel));
    assert(g1.within(rel)) by {
        if g1 != g0 {
            assert forall|x: int, y: int| 0 <= x < g1.len() && 0 <= y < g1.len() && #[trigger] g1.equiv(x, y) implies rel(
                x,
                y,
            ) by {
                let m = g0.len() as int;
                if x < m && y < m {
                    assert(g0.equiv(x, y));
                } else if x == m && y == m {
                } else if x == m {
                    g0.lemma_wf(y);
                    assert(g1.root(y) == g0.root(y));
                } else {
                    g0.lemma_wf(x);
                    assert(g1.root(x) == g0.root(x));
                }
            }
        }
    }
    assert(rel(c, jlit));
    g1.lemma_wf(jlit);
    assert(g1.equiv(jlit, id));
    assert(rel(jlit, id));
    assert(rel(c, id));
    lemma_union_within_rel(g1, g2, c, id, rel);
}

/// The datum of the class of `x` where `x` is canonical in `g`, else none.
pub open spec fn snap_datum(g: EGraph, x: int) -> Option<u64> {
    if g.parents()[x] == x {
        g.data_seq()[x]
    } else {
        None
    }
}

/// Datum `d` of class `r` of `g` came from a class of `start` that is yet to
/// be given its literal: one canonical at an id from `i` to `n`.
pub open spec fn provenance(start: EGraph, g: EGraph, i: int, n: int, r: int, d: u64) -> bool {
    exists|c2: int| i <= c2 < n && #[trigger] snap_datum(start, c2) == Some(d) && g.root(c2) == r
}

/// The class of `r` holds a literal node of `d`.
pub open spec fn witnessed(g: EGraph, r: int, d: u64) -> bool {
    exists|j: int| #[trigger] in_class(g, r, j) && g.node_seq()[j].op == Op::Num(d)
}

/// `rel` is an equivalence on the ids of `nodes` under which nodes of one
/// kind over related operands are related.
pub open spec fn is_congruence(nodes: Seq<Node>, rel: spec_fn(int, int) -> bool) -> bool {
    let n = nodes.len() as int;
    &&& forall|i: int| 0 <= i < n ==> #[trigger] rel(i, i)
    &&& forall|i: int, j: int| 0 <= i < n && 0 <= j < n && #[trigger] rel(i, j) ==> rel(j, i)
    &&& forall|i: int, j: int, k: int|
        0 <= i < n && 0 <= j < n && 0 <= k < n && #[trigger] rel(i, j) && #[trigger] rel(j, k) ==> rel(i, k)
    &&& forall|i: int, j: int|
        0 <= i < n && 0 <= j < n && nodes[i].op == nodes[j].op && nodes[i].children@.len() == nodes[j].children@.len()
            && (forall|k: int|
            0 <= k < nodes[i].children@.len() ==> rel(nodes[i].children@[k] as int, nodes[j].children@[k] as int))
            ==> #[trigger] rel(i, j)
}

/// Node `j` is a member of the class of `c`.
pub open spec fn in_class(g: EGraph, c: int, j: int) -> bool {
    0 <= j < g.len() && g.root(j) == g.root(c)
}

/// Position `p` of `nodes` is represented in the class of `ids[p]`: a member
/// node has its kind over the classes of its operands' positions.
pub open spec fn expr_in(g: EGraph, nodes: Seq<Node>, ids: Seq<usize>, p: int) -> bool {
    exists|j: int|
        #[trigger] in_class(g, ids[p] as int, j) && g.node_matches(
            j,
            nodes[p].op,
            Seq::new(nodes[p].children@.len(), |k: int| ids[nodes[p].children@[k] as int]),
        )
}

/// Every position of `nodes` is represented in the class that `ids` gives it.
pub open spec fn expr_embedded(g: EGraph, nodes: Seq<Node>, ids: Seq<usize>) -> bool {
    &&& ids.len() == nodes.len()
    &&& forall|p: int| 0 <= p < nodes.len() ==> #[trigger] ids[p] < g.len()
    &&& forall|p: int| 0 <= p < nodes.len() ==> #[trigger] expr_in(g, nodes, ids, p)
}

/// Congruence-closure store: node `i` was added as the first member of class
/// `i`; `parent` links merged classes to their representative, which is always
/// the lowest id of the class. `data` holds each representative's analysis
/// datum.
pub struct EGraph {
    parent: Vec<usize>,
    nodes: Vec<Node>,
    data: Vec<Option<u64>>,
}

impl EGraph {
    pub closed spec fn parents(&self) -> Seq<usize> {
        self.parent@
    }

    pub closed spec fn node_seq(&self) -> Seq<Node> {
        self.nodes@
    }

    pub closed spec fn data_seq(&self) -> Seq<Option<u64>> {
        self.data@
    }

    pub open spec fn len(&self) -> int {
        self.node_seq().len() as int
    }

    /// Canonical id of the class that id `i` belongs to.
    pub open spec fn root(&self, i: int) -> int {
        root_of(self.parents(), i)
    }

    pub open spec fn equiv(&self, i: int, j: int) -> bool {
        self.root(i) == self.root(j)
    }

    /// Node `j` stands for kind `op` over the classes of `ch`.
    pub open spec fn node_matches(&self, j: int, op: Op, ch: Seq<usize>) -> bool {
        &&& self.node_seq()[j].op == op
        &&& self.node_seq()[j].children@.len() == ch.len()
        &&& forall|k: int|
            0 <= k < ch.len() ==> self.root(#[trigger] self.node_seq()[j].children@[k] as int)
                == self.root(ch[k] as int)
    }

    /// Nodes `i` and `j` have one kind and pairwise-equal operand classes.
    pub open spec fn congruent(&self, i: int, j: int) -> bool {
        self.node_matches(i, self.node_seq()[j].op, self.node_seq()[j].children@)
    }

    /// Congruence closure: congruent nodes lie in one class.
    pub open spec fn closed(&self) -> bool {
        forall|i: int, j: int|
            0 <= i < self.len() && 0 <= j < self.len() && #[trigger] self.congruent(i, j)
                ==> self.root(i) == self.root(j)
    }

    /// Every node's kind exists in the language, and its symbols are below `m`.
    pub open spec fn ops_ok(&self, m: int) -> bool {
        forall|i: int| 0 <= i < self.len() ==> crate::lang::op_ok(#[trigger] self.node_seq()[i].op, m)
    }

    /// Every equivalence of the graph holds under `rel`.
    pub open spec fn within(&self, rel: spec_fn(int, int) -> bool) -> bool {
        forall|i: int, j: int| 0 <= i < self.len() && 0 <= j < self.len() && #[trigger] self.equiv(i, j) ==> rel(i, j)
    }

    /// Every class whose datum is a known constant holds a literal of it.
    pub open spec fn literals_ok(&self) -> bool {
        forall|r: int|
            0 <= r < self.len() && self.root(r) == r && (#[trigger] self.data_seq()[r]) is Some ==> witnessed(
                *self,
                r,
                self.data_seq()[r]->0,
            )
    }

    /// Number of classes.
    pub open spec fn class_count(&self) -> int {
        count_roots(self.parents(), self.len())
    }

    pub closed spec fn wf(&self) -> bool {
        &&& self.parent@.len() == self.nodes@.len()
        &&& self.data@.len() == self.nodes@.len()
        &&& parents_ok(self.parent@)
        &&& forall|i: int|
            0 <= i < self.nodes@.len() ==> {
                let n = #[trigger] self.nodes@[i];
                &&& n.children@.len() == arity_of(n.op)
                &&& forall|k: int| 0 <= k < n.children@.len() ==> #[trigger] n.children@[k] < i
            }
    }

    pub proof fn lemma_wf(&self, i: int)
        requires
            self.wf(),
            0 <= i < self.len(),
        ensures
            self.parents().len() == self.len(),
            self.data_seq().len() == self.len(),
            0 <= self.root(i) <= i,
            self.root(self.root(i)) == self.root(i),
            self.parents()[self.root(i)] == self.root(i),
            self.node_seq()[i].children@.len() == arity_of(self.node_seq()[i].op),
            forall|k: int|
                0 <= k < self.node_seq()[i].children@.len() ==> #[trigger] self.node_seq()[i].children@[k] < i,
    {
        lemma_root(self.parent@, i);
    }

    /// An empty graph.
    pub fn new() -> (r: EGraph)
        ensures
            r.wf(),
            r.len() == 0,
    {
        EGraph { parent: Vec::new(), nodes: Vec::new(), data: Vec::new() }
    }

    /// Number of ids handed out so far.
    pub fn size(&self) -> (r: usize)
        requires
            self.wf(),
        ensures
            r == self.len(),
    {
        self.nodes.len()
    }

    /// Canonical id of the class of `i`.
    pub fn find(&self, i: usize) -> (r: usize)
        requires
            self.wf(),
            i < self.len(),
        ensures
            r == self.root(i as int),
            r <= i,
    {
        proof {
            lemma_root(self.parent@, i as int);
        }
        let mut x = i;
        while self.parent[x] != x
            invariant
                self.wf(),
                x < self.len(),
                root_of(self.parent@, x as int) == root_of(self.parent@, i as int),
                x <= i,
            decreases x,
        {
            x = self.parent[x];
        }
        x
    }

    /// Canonical id of the class of `i`; every id on the way is relinked
    /// straight to it, which shortens later lookups and changes no class.
    pub fn find_mut(&mut self, i: usize) -> (r: usize)
        requires
            old(self).wf(),
            i < old(self).len(),
        ensures
            final(self).wf(),
            r == old(self).root(i as int),
            final(self).node_seq() == old(self).node_seq(),
            final(self).data_seq() == old(self).data_seq(),
            forall|j: int| 0 <= j < old(self).len() ==> #[trigger] final(self).root(j) == old(self).root(j),
            final(self).class_count() == old(self).class_count(),
    {
        let r = self.find(i);
        let ghost p0 = self.parent@;
        let mut x = i;
        while self.parent[x] != x
            invariant
                self.wf(),
                self.nodes@ == old(self).nodes@,
                self.data@ == old(self).data@,
                x < self.len(),
                r == root_of(p0, i as int),
                root_of(self.parent@, x as int) == r,
                r <= x,
                forall|j: int| 0 <= j < self.len() ==> #[trigger] root_of(self.parent@, j) == root_of(p0, j),
                forall|j: int| 0 <= j < self.len() ==> (#[trigger] self.parent@[j] == j) == (p0[j] == j),
                p0 == old(self).parent@,
            decreases x,
        {
            let next = self.parent[x];
            let ghost pb = self.parent@;
            proof {
                lemma_root(self.parent@, x as int);
                assert(root_of(pb, next as int) == r);
                assert forall|j: int| 0 <= j < self.len() implies #[trigger] root_of(self.parent@.update(x as int, r), j)
                    == root_of(self.parent@, j) by {
                    lemma_relink(self.parent@, x as int, j);
                }
            }
            self.parent.set(x, r);
            proof {
                assert(parents_ok(self.parent@));
                lemma_root(self.parent@, next as int);
                assert(root_of(self.parent@, next as int) == root_of(pb, next as int));
            }
            x = next;
        }
        proof {
            lemma_count_same_roots(self.parent@, p0, self.len());
        }
        r
    }

    /// The datum of the class of `i`.
    pub fn datum(&self, i: usize) -> (r: Option<u64>)
        requires
            self.wf(),
            i < self.len(),
        ensures
            r == self.data_seq()[self.root(i as int)],
    {
        let c = self.find(i);
        proof {
            self.lemma_wf(i as int);
        }
        self.data[c]
    }

    /// Kind and operand ids of node `i`, as it was added.
    pub fn node(&self, i: usize) -> (r: &Node)
        requires
            self.wf(),
            i < self.len(),
        ensures
            *r == self.node_seq()[i as int],
    {
        &self.nodes[i]
    }

    /// Whether node `j` stands for kind `op` over the classes of `canon`.
    fn matches_node(&self, j: usize, op: Op, canon: &Vec<usize>) -> (r: bool)
        requires
            self.wf(),
            j < self.len(),
            forall|k: int| 0 <= k < canon@.len() ==> #[trigger] canon@[k] < self.len(),
        ensures
            r == self.node_matches(j as int, op, canon@),
    {
        let n = &self.nodes[j];
        if n.op != op || n.children.len() != canon.len() {
            return false;
        }
        proof {
            self.lemma_wf(j as int);
        }
        let mut k: usize = 0;
        while k < canon.len()
            invariant
                self.wf(),
                j < self.len(),
                *n == self.node_seq()[j as int],
                n.children@.len() == canon@.len(),
                forall|m: int| 0 <= m < canon@.len() ==> #[trigger] canon@[m] < self.len(),
                forall|m: int| 0 <= m < n.children@.len() ==> #[trigger] n.children@[m] < j,
                k <= canon@.len(),
                forall|m: int| 0 <= m < k ==> self.root(#[trigger] n.children@[m] as int) == self.root(canon@[m] as int),
            decreases canon@.len() - k,
        {
            if self.find(n.children[k]) != self.find(canon[k]) {
                return false;
            }
            k = k + 1;
        }
        true
    }

    /// Adds a node of kind `op` over the classes of `children`. Where a node of
    /// that kind over the same classes is present, the graph is unchanged and
    /// its class is returned; else the node becomes a new class of its own,
    /// with the datum that `make` gives it.
    pub fn add(&mut self, op: Op, children: &Vec<usize>) -> (r: usize)
        requires
            old(self).wf(),
            children@.len() == arity_of(op),
            forall|k: int| 0 <= k < children@.len() ==> #[trigger] children@[k] < old(self).len(),
        ensures
            final(self).wf(),
            r < final(self).len(),
            final(self).root(r as int) == r,
            exists|j: int|
                0 <= j < final(self).len() && final(self).root(j) == r && #[trigger] final(self).node_matches(j, op, children@),
            (exists|j: int| 0 <= j < old(self).len() && #[trigger] old(self).node_matches(j, op, children@))
                ==> *final(self) == *old(self),
            !(exists|j: int| 0 <= j < old(self).len() && #[trigger] old(self).node_matches(j, op, children@))
                ==> {
                &&& final(self).len() == old(self).len() + 1
                &&& final(self).class_count() == old(self).class_count() + 1
                &&& r == old(self).len()
                &&& final(self).node_seq().drop_last() == old(self).node_seq()
                &&& final(self).node_seq().last().op == op
                &&& final(self).data_seq()[r as int] == make_spec(
                    op,
                    Seq::new(children@.len(), |k: int| old(self).data_seq()[old(self).root(children@[k] as int)]),
                )
            },
            forall|j: int| 0 <= j < old(self).len() ==> #[trigger] final(self).root(j) == old(self).root(j),
            forall|j: int| 0 <= j < old(self).len() ==> #[trigger] final(self).data_seq()[j] == old(self).data_seq()[j],
            final(self).class_count() >= old(self).class_count(),
            forall|m: int| old(self).ops_ok(m) && crate::lang::op_ok(op, m) ==> #[trigger] final(self).ops_ok(m),
            old(self).grows_to(*final(self)),
            old(self).progressed(*final(self)),
    {
        let n = self.nodes.len();
        let mut canon: Vec<usize> = Vec::new();
        let mut cdata: Vec<Option<u64>> = Vec::new();
        let mut k: usize = 0;
        while k < children.len()
            invariant
                self.wf(),
                n == self.len(),
                forall|m: int| 0 <= m < children@.len() ==> #[trigger] children@[m] < n,
                k <= children@.len(),
                canon@.len() == k,
                cdata@.len() == k,
                forall|m: int| 0 <= m < k ==> #[trigger] canon@[m] == self.root(children@[m] as int),
                forall|m: int| 0 <= m < k ==> #[trigger] cdata@[m] == self.data_seq()[self.root(children@[m] as int)],
            decreases children@.len() - k,
        {
            let c = self.find(children[k]);
            proof {
                self.lemma_wf(children@[k as int] as int);
            }
            canon.push(c);
            cdata.push(self.data[c]);
            k = k + 1;
        }
        assert forall|m: int| 0 <= m < canon@.len() implies #[trigger] canon@[m] < n by {
            self.lemma_wf(children@[m] as int);
        }
        let mut j: usize = 0;
        while j < n
            invariant
                self.wf(),
                n == self.len(),
                j <= n,
                canon@.len() == children@.len(),
                forall|m: int| 0 <= m < children@.len() ==> #[trigger] children@[m] < n,
                forall|m: int| 0 <= m < canon@.len() ==> #[trigger] canon@[m] < n,
                forall|m: int| 0 <= m < canon@.len() ==> #[trigger] canon@[m] == self.root(children@[m] as int),
                forall|i: int| 0 <= i < j ==> !#[trigger] self.node_matches(i, op, children@),
            decreases n - j,
        {
            let hit = self.matches_node(j, op, &canon);
            proof {
                assert(hit == self.node_matches(j as int, op, children@)) by {
                    self.lemma_wf(j as int);
                    if hit {
                        assert forall|m: int| 0 <= m < children@.len() implies self.root(
                            #[trigger] self.node_seq()[j as int].children@[m] as int,
                        ) == self.root(children@[m] as int) by {
                            self.lemma_wf(children@[m] as int);
                        }
                    } else if self.node_matches(j as int, op, children@) {
                        assert forall|m: int| 0 <= m < canon@.len() implies self.root(
                            #[trigger] self.node_seq()[j as int].children@[m] as int,
                        ) == self.root(canon@[m] as int) by {
                            self.lemma_wf(children@[m] as int);
                        }
                    }
                }
            }
            if hit {
                let r = self.find(j);
                proof {
                    self.lemma_wf(j as int);
                    assert(self.node_seq().subrange(0, self.len()) =~= self.node_seq());
                }
                return r;
            }
            j = j + 1;
        }
        let d = ConstantFolding::make(op, &cdata);
        assert(cdata@ =~= Seq::new(children@.len(), |k: int| self.data_seq()[self.root(children@[k] as int)]));
        let ghost old_g = *self;
        proof {
            assert forall|jj: int| 0 <= jj < n implies #[trigger] root_of(self.parent@.push(n), jj) == root_of(self.parent@, jj) by {
                lemma_push(self.parent@, jj);
            }
            lemma_count_push(self.parent@);
        }
        self.parent.push(n);
        self.nodes.push(Node { op, children: canon });
        self.data.push(d);
        proof {
            assert(self.parent@ == old_g.parent@.push(n));
            assert(self.nodes@.drop_last() =~= old_g.nodes@);
            assert(self.root(n as int) == n);
            assert forall|i: int| 0 <= i < self.nodes@.len() implies {
                let nd = #[trigger] self.nodes@[i];
                &&& nd.children@.len() == arity_of(nd.op)
                &&& forall|k: int| 0 <= k < nd.children@.len() ==> #[trigger] nd.children@[k] < i
            } by {
                if i < n {
                    assert(self.nodes@[i] == old_g.nodes@[i]);
                }
            }
            assert(parents_ok(self.parent@));
            assert(self.node_matches(n as int, op, children@)) by {
                assert forall|m: int| 0 <= m < children@.len() implies self.root(
                    #[trigger] self.node_seq()[n as int].children@[m] as int,
                ) == self.root(children@[m] as int) by {
                    old_g.lemma_wf(children@[m] as int);
                }
            }
            assert forall|jj: int| 0 <= jj < n && #[trigger] old_g.node_matches(jj, op, children@) implies false by {
                assert(!old_g.node_matches(jj, op, children@));
            }
            assert(self.node_seq().subrange(0, n as int) =~= old_g.node_seq());
            assert forall|i: int, j: int|
                0 <= i < old_g.len() && 0 <= j < old_g.len() && #[trigger] old_g.equiv(i, j) implies self.equiv(i, j) by {
                assert(root_of(self.parent@, i) == root_of(old_g.parent@, i));
                assert(root_of(self.parent@, j) == root_of(old_g.parent@, j));
            }
        }
        n
    }

    /// Merges the classes of `a` and `b`; the lower canonical id stays
    /// canonical and receives the join of both data. Returns whether the two
    /// were distinct; where they were not, nothing changes.
    pub fn union(&mut self, a: usize, b: usize) -> (r: bool)
        requires
            old(self).wf(),
            a < old(self).len(),
            b < old(self).len(),
        ensures
            final(self).wf(),
            final(self).node_seq() == old(self).node_seq(),
            r == (old(self).root(a as int) != old(self).root(b as int)),
            !r ==> *final(self) == *old(self),
            r ==> final(self).class_count() == old(self).class_count() - 1,
            forall|j: int|
                0 <= j < old(self).len() ==> #[trigger] final(self).root(j) == if old(self).equiv(j, a as int)
                    || old(self).equiv(j, b as int) {
                    if old(self).root(a as int) < old(self).root(b as int) {
                        old(self).root(a as int)
                    } else {
                        old(self).root(b as int)
                    }
                } else {
                    old(self).root(j)
                },
            final(self).data_seq()[final(self).root(a as int)] == join(
                old(self).data_seq()[old(self).root(a as int)],
                old(self).data_seq()[old(self).root(b as int)],
            ),
            forall|j: int|
                0 <= j < old(self).len() && !old(self).equiv(j, a as int) && !old(self).equiv(j, b as int)
                    ==> #[trigger] final(self).data_seq()[j] == old(self).data_seq()[j],
            old(self).grows_to(*final(self)),
            old(self).progressed(*final(self)),
    {
        let ra = self.find(a);
        let rb = self.find(b);
        proof {
            self.lemma_wf(a as int);
            self.lemma_wf(b as int);
        }
        if ra == rb {
            assert(self.node_seq().subrange(0, self.len()) =~= self.node_seq());
            return false;
        }
        let (lo, hi) = if ra < rb { (ra, rb) } else { (rb, ra) };
        let ghost old_g = *self;
        proof {
            assert forall|j: int| 0 <= j < old_g.len() implies #[trigger] root_of(self.parent@.update(hi as int, lo), j)
                == if root_of(self.parent@, j) == hi { lo as int } else { root_of(self.parent@, j) } by {
                lemma_link(self.parent@, hi as int, lo as int, j);
            }
            lemma_count_link(self.parent@, hi as int, lo as int, self.len());
        }
        self.parent.set(hi, lo);
        let mut d = self.data[lo];
        let from = self.data[hi];
        ConstantFolding::merge(&mut d, from);
        self.data.set(lo, d);
        proof {
            assert(parents_ok(self.parent@));
            crate::analysis::lemma_join_semilattice(old_g.data@[ra as int], old_g.data@[rb as int], None);
            assert(self.node_seq().subrange(0, self.len()) =~= self.node_seq());
            assert forall|i: int, j: int|
                0 <= i < old_g.len() && 0 <= j < old_g.len() && #[trigger] old_g.equiv(i, j) implies self.equiv(i, j) by {
                assert(root_of(self.parent@, i) == if root_of(old_g.parent@, i) == hi { lo as int } else { root_of(old_g.parent@, i) });
                assert(root_of(self.parent@, j) == if root_of(old_g.parent@, j) == hi { lo as int } else { root_of(old_g.parent@, j) });
            }
        }
        true
    }

    /// One sweep over all pairs of nodes, merging the classes of congruent
    /// nodes that lie apart. Returns whether it merged any.
    fn close_pass(&mut self) -> (r: bool)
        requires
            old(self).wf(),
        ensures
            final(self).wf(),
            final(self).node_seq() == old(self).node_seq(),
            forall|i: int, j: int|
                0 <= i < old(self).len() && 0 <= j < old(self).len() && #[trigger] old(self).equiv(i, j)
                    ==> final(self).equiv(i, j),
            !r ==> *final(self) == *old(self) && old(self).closed(),
            r ==> final(self).class_count() < old(self).class_count(),
            forall|rel: spec_fn(int, int) -> bool|
                #[trigger] is_congruence(old(self).node_seq(), rel) && old(self).within(rel) ==> final(self).within(rel),
            old(self).literals_ok() ==> final(self).literals_ok(),
            old(self).closed() ==> !r,
            data_kept(*old(self), *final(self)),
            data_from(*old(self), *final(self)),
            literals_added(*old(self), *final(self)),
    {
        let ghost start = *self;
        proof {
            lemma_data_refl(start);
        }
        let n = self.nodes.len();
        let mut changed = false;
        let mut i: usize = 0;
        while i < n
            invariant
                self.wf(),
                n == self.len(),
                self.node_seq() == start.node_seq(),
                i <= n,
                forall|x: int, y: int|
                    0 <= x < n && 0 <= y < n && #[trigger] start.equiv(x, y) ==> self.equiv(x, y),
                !changed ==> *self == start,
                !changed ==> forall|x: int, y: int|
                    0 <= y < x < i && #[trigger] start.congruent(x, y) ==> start.root(x) == start.root(y),
                changed ==> self.class_count() < start.class_count(),
                forall|rel: spec_fn(int, int) -> bool|
                    #[trigger] is_congruence(start.node_seq(), rel) && start.within(rel) ==> self.within(rel),
                start.literals_ok() ==> self.literals_ok(),
                start.closed() ==> !changed,
                data_kept(start, *self),
                data_from(start, *self),
                literals_added(start, *self),
                start.wf(),
            decreases n - i,
        {
            let mut j: usize = 0;
            while j < i
                invariant
                    self.wf(),
                    n == self.len(),
                    self.node_seq() == start.node_seq(),
                    i < n,
                    j <= i,
                    forall|x: int, y: int|
                        0 <= x < n && 0 <= y < n && #[trigger] start.equiv(x, y) ==> self.equiv(x, y),
                    !changed ==> *self == start,
                    !changed ==> forall|x: int, y: int|
                        0 <= y < x < i && #[trigger] start.congruent(x, y) ==> start.root(x) == start.root(y),
                    !changed ==> forall|y: int|
                        0 <= y < j && #[trigger] start.congruent(i as int, y) ==> start.root(i as int) == start.root(y),
                    changed ==> self.class_count() < start.class_count(),
                    forall|rel: spec_fn(int, int) -> bool|
                        #[trigger] is_congruence(start.node_seq(), rel) && start.within(rel) ==> self.within(rel),
                    start.literals_ok() ==> self.literals_ok(),
                    start.closed() ==> !changed,
                    data_kept(start, *self),
                    data_from(start, *self),
                    literals_added(start, *self),
                    start.wf(),
                decreases i - j,
            {
                proof {
                    self.lemma_wf(j as int);
                }
                let cong = self.matches_node(i, self.nodes[j].op, &self.nodes[j].children);
                if cong && self.find(i) != self.find(j) {
                    proof {
                        if !changed {
                            assert(start.congruent(i as int, j as int));
                        }
                    }
                    let ghost before = *self;
                    self.union(i, j);
                    proof {
                        assert(start.grows_to(before)) by {
                            assert(before.node_seq().subrange(0, start.len()) =~= start.node_seq());
                        }
                        lemma_union_data(start, before, *self, i as int, j as int);
                        if start.literals_ok() {
                            lemma_union_literals(before, *self, i as int, j as int);
                        }
                        assert forall|rel: spec_fn(int, int) -> bool|
                            #[trigger] is_congruence(start.node_seq(), rel) && start.within(rel) implies self.within(rel) by {
                            lemma_union_within(before, *self, i as int, j as int, rel);
                        }
                        assert forall|x: int, y: int|
                            0 <= x < n && 0 <= y < n && #[trigger] start.equiv(x, y) implies self.equiv(x, y) by {
                            assert(before.equiv(x, y));
                            before.lemma_wf(x);
                            before.lemma_wf(y);
                        }
                    }
                    changed = true;
                }
                j = j + 1;
            }
            i = i + 1;
        }
        proof {
            if !changed {
                assert forall|x: int, y: int|
                    0 <= x < start.len() && 0 <= y < start.len() && #[trigger] start.congruent(x, y)
                    implies start.root(x) == start.root(y) by {
                    if y < x {
                    } else if x < y {
                        assert(start.congruent(y, x));
                    }
                }
            }
        }
        changed
    }

    /// Restores congruence closure: merges the classes of congruent nodes
    /// until none lie apart. Classes are only ever merged, never split.
    pub fn close(&mut self)
        requires
            old(self).wf(),
        ensures
            final(self).wf(),
            final(self).closed(),
            final(self).node_seq() == old(self).node_seq(),
            forall|i: int, j: int|
                0 <= i < old(self).len() && 0 <= j < old(self).len() && #[trigger] old(self).equiv(i, j)
                    ==> final(self).equiv(i, j),
            forall|rel: spec_fn(int, int) -> bool|
                #[trigger] is_congruence(old(self).node_seq(), rel) && old(self).within(rel) ==> final(self).within(rel),
            old(self).progressed(*final(self)),
            old(self).literals_ok() ==> final(self).literals_ok(),
            old(self).closed() ==> *final(self) == *old(self),
            data_kept(*old(self), *final(self)),
            data_from(*old(self), *final(self)),
            literals_added(*old(self), *final(self)),
    {
        let ghost start = *self;
        proof {
            lemma_data_refl(start);
        }
        loop
            invariant
                self.wf(),
                self.node_seq() == start.node_seq(),
                forall|i: int, j: int|
                    0 <= i < start.len() && 0 <= j < start.len() && #[trigger] start.equiv(i, j)
                        ==> self.equiv(i, j),
                forall|rel: spec_fn(int, int) -> bool|
                    #[trigger] is_congruence(start.node_seq(), rel) && start.within(rel) ==> self.within(rel),
                start.progressed(*self),
                start.literals_ok() ==> self.literals_ok(),
                start.closed() ==> *self == start,
                data_kept(start, *self),
                data_from(start, *self),
                literals_added(start, *self),
                start.wf(),
            ensures
                self.closed(),
                start.progressed(*self),
                start.literals_ok() ==> self.literals_ok(),
                start.closed() ==> *self == start,
                data_kept(start, *self),
                data_from(start, *self),
                literals_added(start, *self),
                forall|rel: spec_fn(int, int) -> bool|
                    #[trigger] is_congruence(start.node_seq(), rel) && start.within(rel) ==> self.within(rel),
            decreases count_roots(self.parent@, self.nodes@.len() as int),
        {
            proof {
                lemma_count_bounds(self.parent@, self.len());
            }
            let ghost before = *self;
            let changed = self.close_pass();
            proof {
                lemma_progress_trans(start, before, *self);
                assert(start.grows_to(before)) by {
                    assert(before.node_seq().subrange(0, start.len()) =~= start.node_seq());
                }
                assert(before.grows_to(*self)) by {
                    assert(self.node_seq().subrange(0, before.len()) =~= before.node_seq());
                    assert forall|x: int, y: int| 0 <= x < before.len() && 0 <= y < before.len() && #[trigger] before.equiv(x, y)
                        implies self.equiv(x, y) by {}
                }
                lemma_data_trans(start, before, *self);
                assert forall|rel: spec_fn(int, int) -> bool|
                    #[trigger] is_congruence(start.node_seq(), rel) && start.within(rel) implies self.within(rel) by {
                    assert(is_congruence(before.node_seq(), rel));
                    assert(before.within(rel));
                }
                assert forall|i: int, j: int|
                    0 <= i < start.len() && 0 <= j < start.len() && #[trigger] start.equiv(i, j)
                        implies self.equiv(i, j) by {
                    assert(before.equiv(i, j));
                }
            }
            if !changed {
                assert(before.closed());
                break;
            }
            proof {
                lemma_count_bounds(self.parent@, self.len());
            }
            assert(count_roots(self.parent@, self.nodes@.len() as int) < count_roots(before.parent@, before.nodes@.len() as int));
        }
    }

    /// From `self` to `g` nothing changed, or nodes were added or classes
    /// merged, which raises the potential.
    pub open spec fn progressed(&self, g: EGraph) -> bool {
        *self == g || self.potential() < g.potential()
    }

    /// Twice the number of nodes less the number of classes: adding a node
    /// raises it by one, and so does merging two classes.
    pub open spec fn potential(&self) -> int {
        2 * self.len() - self.class_count()
    }

    /// Ids of the first `m` nodes keep their nodes, and every equivalence of
    /// `self` among them still holds in `g`.
    pub open spec fn grows_to(&self, g: EGraph) -> bool {
        &&& self.len() <= g.len()
        &&& g.node_seq().subrange(0, self.len()) == self.node_seq()
        &&& forall|i: int, j: int|
            0 <= i < self.len() && 0 <= j < self.len() && #[trigger] self.equiv(i, j) ==> g.equiv(i, j)
    }

    /// Gives every class whose datum is a known constant a literal node of
    /// that constant, merged into it.
    fn add_literals(&mut self)
        requires
            old(self).wf(),
        ensures
            final(self).wf(),
            final(self).literals_ok(),
            old(self).grows_to(*final(self)),
            forall|m: int| #[trigger] old(self).ops_ok(m) ==> final(self).ops_ok(m),
            old(self).progressed(*final(self)),
            old(self).closed() && old(self).literals_ok() ==> *final(self) == *old(self),
            data_kept(*old(self), *final(self)),
            data_from(*old(self), *final(self)),
            literals_added(*old(self), *final(self)),
            forall|rel: spec_fn(int, int) -> bool| #[trigger] admits(*old(self), *final(self), rel) ==> final(self).within(rel),
    {
        let ghost start = *self;
        proof {
            assert(self.node_seq().subrange(0, self.len()) =~= self.node_seq());
            lemma_data_refl(start);
        }
        let n = self.nodes.len();
        // the datum of every class as it stands now, kept at its canonical id
        let mut snap: Vec<Option<u64>> = Vec::new();
        let mut q: usize = 0;
        while q < n
            invariant
                self.wf(),
                *self == start,
                n == self.len(),
                q <= n,
                snap@.len() == q,
                forall|x: int| 0 <= x < q ==> #[trigger] snap@[x] == snap_datum(start, x),
            decreases n - q,
        {
            if self.parent[q] == q {
                snap.push(self.data[q]);
            } else {
                snap.push(None);
            }
            q = q + 1;
        }
        proof {
            assert forall|r: int|
                0 <= r < self.len() && self.root(r) == r && (#[trigger] self.data_seq()[r]) is Some implies witnessed(
                    *self,
                    r,
                    self.data_seq()[r]->0,
                ) || provenance(start, *self, 0, n as int, r, self.data_seq()[r]->0) by {
                self.lemma_wf(r);
                assert(snap_datum(start, r) == Some(self.data_seq()[r]->0));
            }
        }
        let mut c: usize = 0;
        while c < n
            invariant
                self.wf(),
                start.wf(),
                start.len() == n,
                c <= n,
                n <= self.len(),
                snap@.len() == n,
                forall|x: int| 0 <= x < n ==> #[trigger] snap@[x] == snap_datum(start, x),
                start.grows_to(*self),
                forall|m: int| #[trigger] start.ops_ok(m) ==> self.ops_ok(m),
                start.progressed(*self),
                forall|r: int|
                    0 <= r < self.len() && self.root(r) == r && (#[trigger] self.data_seq()[r]) is Some ==> witnessed(
                        *self,
                        r,
                        self.data_seq()[r]->0,
                    ) || provenance(start, *self, c as int, n as int, r, self.data_seq()[r]->0),
                start.closed() && start.literals_ok() ==> *self == start,
                data_kept(start, *self),
                data_from(start, *self),
                literals_added(start, *self),
                forall|rel: spec_fn(int, int) -> bool| #[trigger] admits(start, *self, rel) ==> self.within(rel),
            decreases n - c,
        {
            if let Some(k) = snap[c] {
                let ghost g0 = *self;
                let empty: Vec<usize> = Vec::new();
                proof {
                    if start.closed() && start.literals_ok() {
                        start.lemma_wf(c as int);
                        assert(start.data_seq()[c as int] == Some(k));
                        assert(witnessed(start, c as int, k));
                        let j = choose|j: int| #[trigger] in_class(start, c as int, j) && start.node_seq()[j].op == Op::Num(k);
                        start.lemma_wf(j);
                        assert(start.node_matches(j, Op::Num(k), empty@));
                    }
                }
                let id = self.add(Op::Num(k), &empty);
                let ghost g1 = *self;
                proof {
                    assert(g1.node_seq().subrange(0, n as int) =~= g0.node_seq().subrange(0, n as int));
                    assert(g0.grows_to(g1));
                    lemma_literals_after_add(start, g0, g1, c as int, n as int, k);
                }
                let ghost jlit = choose|j: int| 0 <= j < g1.len() && g1.root(j) == id && #[trigger] g1.node_matches(j, Op::Num(k), empty@);
                proof {
                    if start.closed() && start.literals_ok() {
                        assert(g1 == start);
                        start.lemma_wf(c as int);
                        let j = choose|j: int| #[trigger] in_class(start, c as int, j) && start.node_seq()[j].op == Op::Num(k);
                        start.lemma_wf(j);
                        start.lemma_wf(jlit);
                        assert(start.congruent(jlit, j));
                        assert(id == c);
                    }
                }
                self.union(c, id);
                proof {
                    g1.lemma_wf(c as int);
                    assert(snap_datum(start, c as int) == Some(k));
                    lemma_literals_after_union(start, g1, *self, c as int, id as int, k, jlit, n as int);
                    assert(g1 == g0 || (g1.len() == g0.len() + 1 && g1.node_seq().drop_last() == g0.node_seq()
                        && g1.node_seq().last().op == Op::Num(k) && g1.data_seq()[g0.len() as int] == Some(k) && g1.root(
                        g0.len() as int,
                    ) == g0.len() && id == g0.len()));
                    lemma_literal_step_data(start, g0, g1, *self, c as int, id as int, k);
                    assert forall|rel: spec_fn(int, int) -> bool| #[trigger] admits(start, *self, rel) implies self.within(rel) by {
                        assert(g0.node_seq() == self.node_seq().subrange(0, g0.len())) by {
                            assert(self.node_seq().subrange(0, g0.len()) =~= g1.node_seq().subrange(0, g0.len()));
                            assert(g1.node_seq().subrange(0, g0.len()) =~= g0.node_seq());
                        }
                        lemma_admits_restrict(start, g0, *self, rel);
                        g1.lemma_wf(jlit);
                        g1.lemma_wf(id as int);
                        lemma_literal_step_rel(start, g0, g1, *self, c as int, id as int, k, jlit, rel);
                    }
                    lemma_progress_trans(start, g0, g1);
                    lemma_progress_trans(start, g1, *self);
                    assert forall|m: int| #[trigger] start.ops_ok(m) implies self.ops_ok(m) by {
                        assert(g0.ops_ok(m));
                        assert(crate::lang::op_ok(Op::Num(k), m));
                        assert(g1.ops_ok(m));
                    }
                    assert(g1.grows_to(*self));
                    assert(start.grows_to(*self)) by {
                        assert(self.node_seq().subrange(0, start.len()) =~= self.node_seq().subrange(0, g0.len()).subrange(0, start.len()));
                        assert forall|i: int, j: int|
                            0 <= i < start.len() && 0 <= j < start.len() && #[trigger] start.equiv(i, j) implies self.equiv(i, j) by {
                            assert(g0.equiv(i, j));
                            assert(g1.equiv(i, j));
                        }
                    }
                }
            } else {
                proof {
                    assert forall|r: int|
                        0 <= r < self.len() && self.root(r) == r && (#[trigger] self.data_seq()[r]) is Some implies witnessed(
                            *self,
                            r,
                            self.data_seq()[r]->0,
                        ) || provenance(start, *self, c as int + 1, n as int, r, self.data_seq()[r]->0) by {
                        let d = self.data_seq()[r]->0;
                        if !witnessed(*self, r, d) {
                            let c2 = choose|c2: int|
                                c <= c2 < n && #[trigger] snap_datum(start, c2) == Some(d) && self.root(c2) == r;
                            assert(c2 != c);
                        }
                    }
                }
            }
            c = c + 1;
        }
    }

    /// Restores congruence closure, then gives every class whose datum is a
    /// known constant a literal node for it, and closes again. Afterwards
    /// every such class holds a literal of its constant. A graph that is
    /// already closed and already holds its literals is left as it is. Old
    /// classes keep their data, each known datum is that of an old class
    /// merged in, and every node added is a literal of such a datum. It merges
    /// only what congruence, the old classes and the literals call for.
    pub fn rebuild(&mut self)
        requires
            old(self).wf(),
        ensures
            final(self).wf(),
            final(self).closed(),
            final(self).literals_ok(),
            old(self).grows_to(*final(self)),
            forall|m: int| #[trigger] old(self).ops_ok(m) ==> final(self).ops_ok(m),
            old(self).progressed(*final(self)),
            old(self).closed() && old(self).literals_ok() ==> *final(self) == *old(self),
            data_kept(*old(self), *final(self)),
            data_from(*old(self), *final(self)),
            literals_added(*old(self), *final(self)),
            forall|rel: spec_fn(int, int) -> bool| #[trigger] admits(*old(self), *final(self), rel) ==> final(self).within(rel),
    {
        let ghost start = *self;
        self.close();
        let ghost g1 = *self;
        proof {
            assert(g1.node_seq().subrange(0, g1.len()) =~= g1.node_seq());
        }
        self.add_literals();
        let ghost g2 = *self;
        self.close();
        proof {
            lemma_progress_trans(start, g1, g2);
            lemma_progress_trans(start, g2, *self);
            assert(self.node_seq().subrange(0, start.len()) =~= g2.node_seq().subrange(0, start.len()));
            assert forall|i: int, j: int|
                0 <= i < start.len() && 0 <= j < start.len() && #[trigger] start.equiv(i, j) implies self.equiv(i, j) by {
                assert(g1.equiv(i, j));
                assert(g2.equiv(i, j));
            }
            assert forall|m: int| #[trigger] start.ops_ok(m) implies self.ops_ok(m) by {
                assert(g1.ops_ok(m));
                assert(g2.ops_ok(m));
            }
            assert(start.grows_to(g1)) by {
                assert(g1.node_seq().subrange(0, start.len()) =~= start.node_seq());
            }
            assert(g2.grows_to(*self)) by {
                assert(self.node_seq().subrange(0, g2.len()) =~= g2.node_seq());
            }
            lemma_data_trans(start, g1, g2);
            lemma_data_trans(start, g2, *self);
            assert forall|rel: spec_fn(int, int) -> bool| #[trigger] admits(start, *self, rel) implies self.within(rel) by {
                assert(start.node_seq() == self.node_seq().subrange(0, start.len()));
                lemma_admits_restrict(start, start, *self, rel);
                assert(g1.within(rel));
                assert(relates_literals(g1, g2, rel)) by {
                    assert forall|x: int, j: int|
                        0 <= x < g1.len() && 0 <= j < g2.len() && g1.data_seq()[g1.root(x)] is Some && g2.node_seq()[j].op
                            == Op::Num(g1.data_seq()[g1.root(x)]->0) implies #[trigger] rel(x, j) by {
                        g1.lemma_wf(x);
                        let r = g1.root(x);
                        let y = choose|y: int|
                            0 <= y < start.len() && start.root(y) == y && g1.root(y) == r && #[trigger] start.data_seq()[y]
                                == g1.data_seq()[r];
                        assert(self.node_seq()[j] == g2.node_seq()[j]);
                        assert(rel(y, j));
                        assert(g1.equiv(x, y));
                        assert(rel(x, y));
                    }
                }
                assert(admits(g1, g2, rel));
                assert(g2.within(rel));
            }
        }
    }

    /// Number of classes.
    pub fn num_classes(&self) -> (r: usize)
        requires
            self.wf(),
        ensures
            r == self.class_count(),
    {
        let n = self.nodes.len();
        let mut count: usize = 0;
        let mut i: usize = 0;
        while i < n
            invariant
                self.wf(),
                n == self.len(),
                i <= n,
                count == count_roots(self.parent@, i as int),
            decreases n - i,
        {
            proof {
                lemma_count_bounds(self.parent@, i as int);
            }
            if self.parent[i] == i {
                count = count + 1;
            }
            i = i + 1;
        }
        count
    }
}

/// After a merge, a literal of a class is a literal of the class it went into.
proof fn lemma_witness_carry(before: EGraph, after: EGraph, a: int, b: int, x: int, d: u64)
    requires
        before.wf(),
        0 <= a < before.len(),
        0 <= b < before.len(),
        0 <= x < before.len(),
        after.len() == before.len(),
        after.node_seq() == before.node_seq(),
        forall|j: int|
            0 <= j < before.len() ==> #[trigger] after.root(j) == if before.equiv(j, a) || before.equiv(j, b) {
                if before.root(a) < before.root(b) {
                    before.root(a)
                } else {
                    before.root(b)
                }
            } else {
                before.root(j)
            },
        witnessed(before, x, d),
    ensures
        witnessed(after, x, d),
{
    let j = choose|j: int| #[trigger] in_class(before, x, j) && before.node_seq()[j].op == Op::Num(d);
    before.lemma_wf(j);
    before.lemma_wf(x);
    assert(before.equiv(j, x));
    assert(in_class(after, x, j));
}

/// A merge keeps every class whose datum is a known constant holding a
/// literal of it.
proof fn lemma_union_literals(before: EGraph, after: EGraph, a: int, b: int)
    requires
        before.wf(),
        after.wf(),
        before.literals_ok(),
        0 <= a < before.len(),
        0 <= b < before.len(),
        after.len() == before.len(),
        after.node_seq() == before.node_seq(),
        forall|j: int|
            0 <= j < before.len() ==> #[trigger] after.root(j) == if before.equiv(j, a) || before.equiv(j, b) {
                if before.root(a) < before.root(b) {
                    before.root(a)
                } else {
                    before.root(b)
                }
            } else {
                before.root(j)
            },
        after.data_seq()[after.root(a)] == join(before.data_seq()[before.root(a)], before.data_seq()[before.root(b)]),
        forall|j: int|
            0 <= j < before.len() && !before.equiv(j, a) && !before.equiv(j, b) ==> #[trigger] after.data_seq()[j]
                == before.data_seq()[j],
    ensures
        after.literals_ok(),
{
    before.lemma_wf(a);
    before.lemma_wf(b);
    assert forall|r: int|
        0 <= r < after.len() && after.root(r) == r && (#[trigger] after.data_seq()[r]) is Some implies witnessed(
            after,
            r,
            after.data_seq()[r]->0,
        ) by {
        before.lemma_wf(r);
        let ra = before.root(a);
        let rb = before.root(b);
        if before.equiv(r, a) || before.equiv(r, b) {
            // the merged class: its datum is that of one side
            after.lemma_wf(a);
            assert(after.root(a) == r);
            let d = after.data_seq()[r]->0;
            if before.data_seq()[ra] == Some(d) {
                assert(witnessed(before, ra, d));
                lemma_witness_carry(before, after, a, b, ra, d);
                assert(after.root(ra) == r);
                let j = choose|j: int| #[trigger] in_class(after, ra, j) && after.node_seq()[j].op == Op::Num(d);
                assert(in_class(after, r, j));
            } else {
                assert(before.data_seq()[rb] == Some(d));
                assert(witnessed(before, rb, d));
                lemma_witness_carry(before, after, a, b, rb, d);
                assert(after.root(rb) == r);
                let j = choose|j: int| #[trigger] in_class(after, rb, j) && after.node_seq()[j].op == Op::Num(d);
                assert(in_class(after, r, j));
            }
        } else {
            assert(before.root(r) == r);
            assert(after.data_seq()[r] == before.data_seq()[r]);
            lemma_witness_carry(before, after, a, b, r, before.data_seq()[r]->0);
        }
    }
}

/// Adding a literal node keeps every class with a known constant either
/// holding a literal of it or owing one.
proof fn lemma_literals_after_add(start: EGraph, g0: EGraph, g1: EGraph, c: int, n: int, k: u64)
    requires
        g0.wf(),
        g1.wf(),
        n <= g0.len(),
        g1 == g0 || (g1.len() == g0.len() + 1 && g1.node_seq().drop_last() == g0.node_seq() && g1.node_seq().last().op
            == Op::Num(k) && g1.data_seq()[g0.len() as int] == Some(k) && g1.root(g0.len() as int) == g0.len()),
        forall|j: int| 0 <= j < g0.len() ==> #[trigger] g1.root(j) == g0.root(j),
        forall|j: int| 0 <= j < g0.len() ==> #[trigger] g1.data_seq()[j] == g0.data_seq()[j],
        forall|r: int|
            0 <= r < g0.len() && g0.root(r) == r && (#[trigger] g0.data_seq()[r]) is Some ==> witnessed(
                g0,
                r,
                g0.data_seq()[r]->0,
            ) || provenance(start, g0, c, n, r, g0.data_seq()[r]->0),
    ensures
        forall|r: int|
            0 <= r < g1.len() && g1.root(r) == r && (#[trigger] g1.data_seq()[r]) is Some ==> witnessed(
                g1,
                r,
                g1.data_seq()[r]->0,
            ) || provenance(start, g1, c, n, r, g1.data_seq()[r]->0),
{
    if g1 != g0 {
        assert forall|r: int|
            0 <= r < g1.len() && g1.root(r) == r && (#[trigger] g1.data_seq()[r]) is Some implies witnessed(
                g1,
                r,
                g1.data_seq()[r]->0,
            ) || provenance(start, g1, c, n, r, g1.data_seq()[r]->0) by {
            if r < g0.len() {
                g0.lemma_wf(r);
                let d = g1.data_seq()[r]->0;
                assert(g0.data_seq()[r] == g1.data_seq()[r]);
                if witnessed(g0, r, d) {
                    let j = choose|j: int| #[trigger] in_class(g0, r, j) && g0.node_seq()[j].op == Op::Num(d);
                    g0.lemma_wf(j);
                    assert(g1.node_seq()[j] == g0.node_seq()[j]) by {
                        assert(g1.node_seq().drop_last()[j] == g1.node_seq()[j]);
                    }
                    assert(in_class(g1, r, j));
                } else {
                    let c2 = choose|c2: int| c <= c2 < n && #[trigger] snap_datum(start, c2) == Some(d) && g0.root(c2) == r;
                    assert(g1.root(c2) == r);
                }
            } else {
                assert(r == g0.len());
                assert(g1.node_seq()[r].op == Op::Num(k));
                assert(in_class(g1, r, r));
            }
        }
    }
}

/// Merging the class of `c` with that of its new literal settles what the
/// class of `c` owed, and keeps every other class as it stood.
proof fn lemma_literals_after_union(start: EGraph, g1: EGraph, g2: EGraph, c: int, id: int, k: u64, jlit: int, n: int)
    requires
        g1.wf(),
        g2.wf(),
        0 <= c < n,
        n <= g1.len(),
        0 <= id < g1.len(),
        0 <= jlit < g1.len(),
        g1.root(jlit) == id,
        g1.node_seq()[jlit].op == Op::Num(k),
        snap_datum(start, c) == Some(k),
        g2.len() == g1.len(),
        g2.node_seq() == g1.node_seq(),
        forall|j: int|
            0 <= j < g1.len() ==> #[trigger] g2.root(j) == if g1.equiv(j, c) || g1.equiv(j, id) {
                if g1.root(c) < g1.root(id) {
                    g1.root(c)
                } else {
                    g1.root(id)
                }
            } else {
                g1.root(j)
            },
        g2.data_seq()[g2.root(c)] == join(g1.data_seq()[g1.root(c)], g1.data_seq()[g1.root(id)]),
        forall|j: int|
            0 <= j < g1.len() && !g1.equiv(j, c) && !g1.equiv(j, id) ==> #[trigger] g2.data_seq()[j]
                == g1.data_seq()[j],
        forall|r: int|
            0 <= r < g1.len() && g1.root(r) == r && (#[trigger] g1.data_seq()[r]) is Some ==> witnessed(
                g1,
                r,
                g1.data_seq()[r]->0,
            ) || provenance(start, g1, c, n, r, g1.data_seq()[r]->0),
    ensures
        forall|r: int|
            0 <= r < g2.len() && g2.root(r) == r && (#[trigger] g2.data_seq()[r]) is Some ==> witnessed(
                g2,
                r,
                g2.data_seq()[r]->0,
            ) || provenance(start, g2, c + 1, n, r, g2.data_seq()[r]->0),
{
    g1.lemma_wf(c);
    g1.lemma_wf(id);
    g1.lemma_wf(jlit);
    assert forall|r: int|
        0 <= r < g2.len() && g2.root(r) == r && (#[trigger] g2.data_seq()[r]) is Some implies witnessed(
            g2,
            r,
            g2.data_seq()[r]->0,
        ) || provenance(start, g2, c + 1, n, r, g2.data_seq()[r]->0) by {
        g1.lemma_wf(r);
        let d = g2.data_seq()[r]->0;
        let rc = g1.root(c);
        let ri = g1.root(id);
        if g1.equiv(r, c) || g1.equiv(r, id) {
            assert(g2.root(c) == r);
            let x = if g1.data_seq()[rc] == Some(d) { rc } else { ri };
            assert(g1.data_seq()[x] == Some(d));
            g1.lemma_wf(x);
            assert(g2.root(x) == r);
            if witnessed(g1, x, d) {
                lemma_witness_carry(g1, g2, c, id, x, d);
                let j = choose|j: int| #[trigger] in_class(g2, x, j) && g2.node_seq()[j].op == Op::Num(d);
                assert(in_class(g2, r, j));
            } else {
                let c2 = choose|c2: int| c <= c2 < n && #[trigger] snap_datum(start, c2) == Some(d) && g1.root(c2) == x;
                if c2 == c {
                    assert(d == k);
                    assert(g2.root(jlit) == r);
                    assert(in_class(g2, r, jlit));
                } else {
                    g1.lemma_wf(c2);
                    assert(g2.root(c2) == r);
                }
            }
        } else {
            assert(g2.root(r) == g1.root(r));
            assert(g2.data_seq()[r] == g1.data_seq()[r]);
            if witnessed(g1, r, d) {
                lemma_witness_carry(g1, g2, c, id, r, d);
            } else {
                let c2 = choose|c2: int| c <= c2 < n && #[trigger] snap_datum(start, c2) == Some(d) && g1.root(c2) == r;
                g1.lemma_wf(c2);
                assert(c2 != c);
                assert(g2.root(c2) == r);
            }
        }
    }
}

/// Merging the classes of two congruent nodes keeps the graph within every
/// congruence that it was within.
proof fn lemma_union_within(before: EGraph, after: EGraph, a: int, b: int, rel: spec_fn(int, int) -> bool)
    requires
        before.wf(),
        0 <= a < before.len(),
        0 <= b < before.len(),
        before.congruent(a, b),
        after.len() == before.len(),
        after.node_seq() == before.node_seq(),
        forall|j: int|
            0 <= j < before.len() ==> #[trigger] after.root(j) == if before.equiv(j, a) || before.equiv(j, b) {
                if before.root(a) < before.root(b) {
                    before.root(a)
                } else {
                    before.root(b)
                }
            } else {
                before.root(j)
            },
        is_congruence(before.node_seq(), rel),
        before.within(rel),
    ensures
        after.within(rel),
{
    let nodes = before.node_seq();
    before.lemma_wf(a);
    before.lemma_wf(b);
    assert forall|k: int| 0 <= k < nodes[a].children@.len() implies rel(
        nodes[a].children@[k] as int,
        nodes[b].children@[k] as int,
    ) by {
        let x = nodes[a].children@[k] as int;
        let y = nodes[b].children@[k] as int;
        assert(before.equiv(x, y));
    }
    assert(rel(a, b));
    lemma_union_within_rel(before, after, a, b, rel);
}

/// Merging the classes of two related ids keeps the graph within `rel`.
proof fn lemma_union_within_rel(before: EGraph, after: EGraph, a: int, b: int, rel: spec_fn(int, int) -> bool)
    requires
        before.wf(),
        0 <= a < before.len(),
        0 <= b < before.len(),
        rel(a, b),
        after.len() == before.len(),
        after.node_seq() == before.node_seq(),
        forall|j: int|
            0 <= j < before.len() ==> #[trigger] after.root(j) == if before.equiv(j, a) || before.equiv(j, b) {
                if before.root(a) < before.root(b) {
                    before.root(a)
                } else {
                    before.root(b)
                }
            } else {
                before.root(j)
            },
        is_congruence(before.node_seq(), rel),
        before.within(rel),
    ensures
        after.within(rel),
{
    before.lemma_wf(a);
    before.lemma_wf(b);
    assert forall|x: int, y: int| 0 <= x < after.len() && 0 <= y < after.len() && #[trigger] after.equiv(x, y) implies rel(
        x,
        y,
    ) by {
        before.lemma_wf(x);
        before.lemma_wf(y);
        let inx = before.equiv(x, a) || before.equiv(x, b);
        let iny = before.equiv(y, a) || before.equiv(y, b);
        if inx && iny {
            let px = if before.equiv(x, a) { a } else { b };
            let py = if before.equiv(y, a) { a } else { b };
            assert(rel(x, px));
            assert(rel(y, py));
            assert(rel(py, y));
            assert(rel(px, py)) by {
                if px != py {
                    if px == a {
                        assert(rel(a, b));
                    } else {
                        assert(rel(b, a));
                    }
                }
            }
            assert(rel(x, py));
        } else if !inx && !iny {
            assert(before.equiv(x, y));
        } else {
            assert(false);
        }
    }
}

/// Pointing a non-representative id straight at its representative changes
/// the representative of no id.
proof fn lemma_relink(p: Seq<usize>, x: int, j: int)
    requires
        parents_ok(p),
        0 <= x < p.len(),
        p[x] != x,
    ensures
        0 <= j < p.len() ==> root_of(p.update(x, root_of(p, x) as usize), j) == root_of(p, j),
    decreases j,
{
    lemma_root(p, x);
    let r = root_of(p, x);
    let q = p.update(x, r as usize);
    if 0 <= j < p.len() {
        if j == x {
            assert(r < x);
            assert(q[x] as int == r);
            assert(q[r] == r);
            assert(root_of(q, x) == root_of(q, r));
        } else if p[j] as int != j {
            lemma_relink(p, x, p[j] as int);
        }
    }
}

proof fn lemma_count_same_roots(p: Seq<usize>, q: Seq<usize>, m: int)
    requires
        0 <= m <= p.len(),
        m <= q.len(),
        forall|j: int| 0 <= j < m ==> (#[trigger] p[j] == j) == (q[j] == j),
    ensures
        count_roots(p, m) == count_roots(q, m),
    decreases m,
{
    if m > 0 {
        lemma_count_same_roots(p, q, m - 1);
    }
}

/// Progress composes.
pub proof fn lemma_progress_trans(a: EGraph, b: EGraph, c: EGraph)
    requires
        a.progressed(b),
        b.progressed(c),
    ensures
        a.progressed(c),
{
}

/// Looking up a canonical id again gives the same id.
pub proof fn lemma_find_idempotent(g: EGraph, x: int)
    requires
        g.wf(),
        0 <= x < g.len(),
    ensures
        g.root(g.root(x)) == g.root(x),
{
    g.lemma_wf(x);
}

proof fn lemma_count_push(p: Seq<usize>)
    requires
        p.len() <= usize::MAX,
    ensures
        count_roots(p.push(p.len() as usize), p.len() + 1int) == count_roots(p, p.len() as int) + 1,
{
    lemma_count_prefix(p, p.push(p.len() as usize), p.len() as int);
}

proof fn lemma_count_prefix(p: Seq<usize>, q: Seq<usize>, m: int)
    requires
        0 <= m <= p.len(),
        m <= q.len(),
        forall|i: int| 0 <= i < m ==> p[i] == q[i],
    ensures
        count_roots(p, m) == count_roots(q, m),
    decreases m,
{
    if m > 0 {
        lemma_count_prefix(p, q, m - 1);
    }
}

} // verus!
