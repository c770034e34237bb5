use vstd::prelude::*;
use crate::egraph::{EGraph, in_class};
use crate::lang::{Op, arity_of, op_ok};

verus! {

/// Kind of a pattern node: a variable, or a node kind to match literally.
#[derive(Clone, Copy, Debug, PartialEq, Eq, Structural)]
pub enum PatOp {
    Var(u32),
    Node(Op),
}

#[derive(Clone, Debug)]
pub struct PatNode {
    pub op: PatOp,
    pub children: Vec<usize>,
}

/// A pattern stored bottom-up like an expression; its variables are numbered
/// by their first appearance and named in `vars`.
#[derive(Clone, Debug)]
pub struct Pattern {
    pub nodes: Vec<PatNode>,
    pub vars: Vec<Vec<u8>>,
}

pub open spec fn pat_nodes_ok(pat: Seq<PatNode>, n_vars: int) -> bool {
    forall|i: int|
        0 <= i < pat.len() ==> {
            let p = #[trigger] pat[i];
            &&& forall|k: int| 0 <= k < p.children@.len() ==> 0 <= #[trigger] p.children@[k] < i
            &&& match p.op {
                PatOp::Var(v) => v < n_vars && p.children@.len() == 0,
                PatOp::Node(op) => op_ok(op, 0) && p.children@.len() == arity_of(op),
            }
        }
}

impl Pattern {
    pub open spec fn wf(&self) -> bool {
        &&& self.nodes@.len() > 0
        &&& pat_nodes_ok(self.nodes@, self.vars@.len() as int)
        &&& self.vars@.len() <= u32::MAX
    }

    pub open spec fn root(&self) -> int {
        self.nodes@.len() - 1
    }
}

/// A substitution of classes for pattern variables; `None` while unbound.
pub type Subst = Vec<Option<usize>>;

/// `s` binds every variable to an id of `g`, where it binds it.
pub open spec fn subst_ok(g: EGraph, s: Seq<Option<usize>>) -> bool {
    forall|v: int| 0 <= v < s.len() && (#[trigger] s[v]) is Some ==> s[v]->0 < g.len()
}

/// `t` keeps every binding of `s`.
pub open spec fn extends(s: Seq<Option<usize>>, t: Seq<Option<usize>>) -> bool {
    &&& s.len() == t.len()
    &&& forall|v: int| 0 <= v < s.len() && (#[trigger] s[v]) is Some ==> t[v] == s[v]
}

/// Under `s`, the tree of pattern position `pi` is represented in the class
/// of `c`: a variable is bound to that class, and a node kind has a member
/// node of that kind whose operands match the pattern's operands.
pub open spec fn pmatch(g: EGraph, pat: Seq<PatNode>, pi: int, c: int, s: Seq<Option<usize>>) -> bool
    decreases pi,
{
    if !(0 <= pi < pat.len()) {
        false
    } else {
        match pat[pi].op {
            PatOp::Var(v) => {
                &&& 0 <= v < s.len()
                &&& s[v as int] is Some
                &&& g.root(s[v as int]->0 as int) == g.root(c)
            },
            PatOp::Node(op) => exists|j: int|
                #[trigger] in_class(g, c, j) && {
                    &&& g.node_seq()[j].op == op
                    &&& g.node_seq()[j].children@.len() == pat[pi].children@.len()
                    &&& forall|k: int|
                        0 <= k < pat[pi].children@.len() ==> {
                            let q = #[trigger] pat[pi].children@[k] as int;
                            0 <= q < pi && pmatch(g, pat, q, g.node_seq()[j].children@[k] as int, s)
                        }
                },
        }
    }
}

/// Node `j` has kind `op` and operands that match the operands of pattern
/// position `pi`.
pub open spec fn node_fits(g: EGraph, pat: Seq<PatNode>, pi: int, j: int, op: Op, s: Seq<Option<usize>>) -> bool {
    &&& g.node_seq()[j].op == op
    &&& g.node_seq()[j].children@.len() == pat[pi].children@.len()
    &&& forall|k: int|
        0 <= k < pat[pi].children@.len() ==> {
            let q = #[trigger] pat[pi].children@[k] as int;
            0 <= q < pi && pmatch(g, pat, q, g.node_seq()[j].children@[k] as int, s)
        }
}

pub proof fn lemma_pmatch_root(g: EGraph, pat: Seq<PatNode>, pi: int, c1: int, c2: int, s: Seq<Option<usize>>)
    requires
        g.root(c1) == g.root(c2),
        pmatch(g, pat, pi, c1, s),
    ensures
        pmatch(g, pat, pi, c2, s),
{
    if let PatOp::Node(op) = pat[pi].op {
        let j = choose|j: int| #[trigger] in_class(g, c1, j) && node_fits(g, pat, pi, j, op, s);
        assert(in_class(g, c2, j));
    }
}

pub proof fn lemma_pmatch_extend(
    g: EGraph,
    pat: Seq<PatNode>,
    pi: int,
    c: int,
    s: Seq<Option<usize>>,
    t: Seq<Option<usize>>,
)
    requires
        pmatch(g, pat, pi, c, s),
        extends(s, t),
    ensures
        pmatch(g, pat, pi, c, t),
    decreases pi,
{
    if let PatOp::Node(op) = pat[pi].op {
        let j = choose|j: int| #[trigger] in_class(g, c, j) && node_fits(g, pat, pi, j, op, s);
        assert forall|k: int| 0 <= k < pat[pi].children@.len() implies {
            let q = #[trigger] pat[pi].children@[k] as int;
            0 <= q < pi && pmatch(g, pat, q, g.node_seq()[j].children@[k] as int, t)
        } by {
            let q = pat[pi].children@[k] as int;
            lemma_pmatch_extend(g, pat, q, g.node_seq()[j].children@[k] as int, s, t);
        }
        assert(in_class(g, c, j) && node_fits(g, pat, pi, j, op, t));
    }
}

/// What a pattern matches stays matched as the graph grows.
pub proof fn lemma_pmatch_grow(g: EGraph, h: EGraph, pat: Seq<PatNode>, pi: int, c: int, s: Seq<Option<usize>>)
    requires
        g.wf(),
        g.grows_to(h),
        0 <= c < g.len(),
        subst_ok(g, s),
        pmatch(g, pat, pi, c, s),
    ensures
        pmatch(h, pat, pi, c, s),
    decreases pi,
{
    g.lemma_wf(c);
    match pat[pi].op {
        PatOp::Var(v) => {
            let x = s[v as int]->0 as int;
            g.lemma_wf(x);
            assert(g.equiv(x, c));
        },
        PatOp::Node(op) => {
            let j = choose|j: int| #[trigger] in_class(g, c, j) && node_fits(g, pat, pi, j, op, s);
            g.lemma_wf(j);
            assert(g.equiv(j, c));
            assert(h.node_seq()[j] == g.node_seq().subrange(0, g.len())[j]);
            assert(h.node_seq()[j] == h.node_seq().subrange(0, g.len())[j]);
            assert forall|k: int| 0 <= k < pat[pi].children@.len() implies {
                let q = #[trigger] pat[pi].children@[k] as int;
                0 <= q < pi && pmatch(h, pat, q, h.node_seq()[j].children@[k] as int, s)
            } by {
                let q = pat[pi].children@[k] as int;
                lemma_pmatch_grow(g, h, pat, q, g.node_seq()[j].children@[k] as int, s);
            }
            assert(in_class(h, c, j) && node_fits(h, pat, pi, j, op, s));
        },
    }
}

fn copy_subst(s: &Subst) -> (r: Subst)
    ensures
        r@ == s@,
{
    let mut r: Subst = Vec::new();
    let mut i: usize = 0;
    while i < s.len()
        invariant
            i <= s@.len(),
            r@ == s@.subrange(0, i as int),
        decreases s@.len() - i,
    {
        r.push(s[i]);
        i = i + 1;
        assert(r@ =~= s@.subrange(0, i as int));
    }
    assert(s@.subrange(0, s@.len() as int) =~= s@);
    r
}

/// `j` is in `list`.
pub open spec fn listed(list: Seq<usize>, j: int) -> bool {
    exists|x: int| 0 <= x < list.len() && list[x] == j
}

/// Members of each class of a graph that does not change while it is used.
pub struct ClassIndex {
    members: Vec<Vec<usize>>,
}

impl ClassIndex {
    pub closed spec fn ok(&self, g: EGraph) -> bool {
        &&& self.members@.len() == g.len()
        &&& forall|c: int, x: int|
            0 <= c < g.len() && 0 <= x < self.members@[c]@.len() ==> {
                let j = #[trigger] self.members@[c]@[x] as int;
                0 <= j < g.len() && g.root(j) == c
            }
        &&& forall|j: int| 0 <= j < g.len() ==> #[trigger] listed(self.members@[g.root(j)]@, j)
    }

    /// Lists the members of every class of `g`.
    pub fn new(g: &EGraph) -> (r: ClassIndex)
        requires
            g.wf(),
        ensures
            r.ok(*g),
    {
        let n = g.size();
        let mut members: Vec<Vec<usize>> = Vec::new();
        let mut c: usize = 0;
        while c < n
            invariant
                c <= n,
                n == g.len(),
                members@.len() == c,
                forall|d: int| 0 <= d < c ==> (#[trigger] members@[d])@.len() == 0,
            decreases n - c,
        {
            members.push(Vec::new());
            c = c + 1;
        }
        let mut j: usize = 0;
        while j < n
            invariant
                g.wf(),
                j <= n,
                n == g.len(),
                members@.len() == n,
                forall|c: int, x: int|
                    0 <= c < n && 0 <= x < members@[c]@.len() ==> {
                        let m = #[trigger] members@[c]@[x] as int;
                        0 <= m < n && g.root(m) == c
                    },
                forall|y: int| 0 <= y < j ==> #[trigger] listed(members@[g.root(y)]@, y),
            decreases n - j,
        {
            let r = g.find(j);
            proof {
                g.lemma_wf(j as int);
            }
            let ghost before = members@;
            let mut list: Vec<usize> = Vec::new();
            std::mem::swap(&mut list, &mut members[r]);
            let ghost old_list = list@;
            assert(old_list == before[r as int]@);
            list.push(j);
            members.set(r, list);
            proof {
                assert(listed(members@[r as int]@, j as int)) by {
                    assert(members@[r as int]@[old_list.len() as int] == j);
                }
                assert forall|y: int| 0 <= y < j implies #[trigger] listed(members@[g.root(y)]@, y) by {
                    g.lemma_wf(y);
                    assert(listed(before[g.root(y)]@, y));
                    let x = choose|x: int| 0 <= x < before[g.root(y)]@.len() && before[g.root(y)]@[x] == y;
                    if g.root(y) == r {
                        assert(members@[r as int]@[x] == y);
                    } else {
                        assert(members@[g.root(y)] == before[g.root(y)]);
                    }
                }
                assert forall|c: int, x: int|
                    0 <= c < n && 0 <= x < members@[c]@.len() implies {
                        let m = #[trigger] members@[c]@[x] as int;
                        0 <= m < n && g.root(m) == c
                    } by {
                    if c == r {
                        if x < old_list.len() {
                            assert(members@[c]@[x] == before[c]@[x]);
                        }
                    } else {
                        assert(members@[c] == before[c]);
                    }
                }
            }
            j = j + 1;
        }
        ClassIndex { members }
    }
}


/// Every substitution that `search` returns is sound for pattern position `pi`
/// at the class of `c`, and keeps what `s` bound.
pub open spec fn sound_results(g: EGraph, pat: Seq<PatNode>, pi: int, c: int, s: Seq<Option<usize>>, r: Seq<Subst>) -> bool {
    forall|x: int|
        0 <= x < r.len() ==> {
            let t = (#[trigger] r[x])@;
            &&& extends(s, t)
            &&& subst_ok(g, t)
            &&& pmatch(g, pat, pi, c, t)
        }
}

/// Every binding of `a` is bound in `t`, to the same class.
pub open spec fn agrees(g: EGraph, a: Seq<Option<usize>>, t: Seq<Option<usize>>) -> bool {
    &&& a.len() == t.len()
    &&& forall|v: int|
        0 <= v < a.len() && (#[trigger] a[v]) is Some ==> t[v] is Some && g.root(a[v]->0 as int) == g.root(
            t[v]->0 as int,
        )
}

/// Some substitution of `r` agrees with `t`.
pub open spec fn covered(g: EGraph, r: Seq<Subst>, t: Seq<Option<usize>>) -> bool {
    exists|x: int| 0 <= x < r.len() && #[trigger] agrees(g, r[x]@, t)
}

/// The operands of pattern position `pi` before the `k`-th match those of node `j` under `t`.
pub open spec fn fits_upto(g: EGraph, pat: Seq<PatNode>, pi: int, j: int, k: int, t: Seq<Option<usize>>) -> bool {
    forall|kk: int|
        0 <= kk < k ==> pmatch(g, pat, #[trigger] pat[pi].children@[kk] as int, g.node_seq()[j].children@[kk] as int, t)
}

proof fn lemma_extends_trans(a: Seq<Option<usize>>, b: Seq<Option<usize>>, c: Seq<Option<usize>>)
    requires
        extends(a, b),
        extends(b, c),
    ensures
        extends(a, c),
{
    assert forall|v: int| 0 <= v < a.len() && (#[trigger] a[v]) is Some implies c[v] == a[v] by {
        assert(b[v] == a[v]);
    }
}

/// Appends copies of `items` to `out`.
fn append_all(out: &mut Vec<Subst>, items: &Vec<Subst>)
    ensures
        final(out)@.len() == old(out)@.len() + items@.len(),
        forall|w: int| 0 <= w < old(out)@.len() ==> (#[trigger] final(out)@[w])@ == old(out)@[w]@,
        forall|w: int| 0 <= w < items@.len() ==> (#[trigger] final(out)@[old(out)@.len() + w])@ == items@[w]@,
{
    let ghost o = out@;
    let mut y: usize = 0;
    while y < items.len()
        invariant
            y <= items@.len(),
            out@.len() == o.len() + y,
            forall|w: int| 0 <= w < o.len() ==> (#[trigger] out@[w])@ == o[w]@,
            forall|w: int| 0 <= w < y ==> (#[trigger] out@[o.len() + w])@ == items@[w]@,
            o == old(out)@,
        decreases items@.len() - y,
    {
        let t = copy_subst(&items[y]);
        out.push(t);
        proof {
            assert(out@[o.len() + y as int]@ == items@[y as int]@);
        }
        y = y + 1;
    }
}

/// For every substitution of `partial`, every way to extend it so that
/// pattern position `ci` matches the class of `nc`.
fn extend_all(g: &EGraph, idx: &ClassIndex, pat: &Pattern, ci: usize, nc: usize, partial: &Vec<Subst>) -> (r: Vec<Subst>)
    requires
        g.wf(),
        idx.ok(*g),
        pat.wf(),
        ci < pat.nodes@.len(),
        nc < g.len(),
        forall|y: int|
            0 <= y < partial@.len() ==> (#[trigger] partial@[y])@.len() == pat.vars@.len() && subst_ok(*g, partial@[y]@),
    ensures
        forall|w: int|
            0 <= w < r@.len() ==> {
                let t = (#[trigger] r@[w])@;
                &&& exists|y: int| 0 <= y < partial@.len() && #[trigger] extends(partial@[y]@, t)
                &&& subst_ok(*g, t)
                &&& t.len() == pat.vars@.len()
                &&& pmatch(*g, pat.nodes@, ci as int, nc as int, t)
            },
        forall|t: Seq<Option<usize>>|
            #[trigger] pmatch(*g, pat.nodes@, ci as int, nc as int, t) && covered(*g, partial@, t) ==> covered(*g, r@, t),
    decreases ci, 1int,
{
    let mut out: Vec<Subst> = Vec::new();
    let mut y: usize = 0;
    while y < partial.len()
        invariant
            g.wf(),
            idx.ok(*g),
            pat.wf(),
            ci < pat.nodes@.len(),
            nc < g.len(),
            forall|y2: int|
                0 <= y2 < partial@.len() ==> (#[trigger] partial@[y2])@.len() == pat.vars@.len() && subst_ok(*g, partial@[y2]@),
            y <= partial@.len(),
            forall|w: int|
                0 <= w < out@.len() ==> {
                    let t = (#[trigger] out@[w])@;
                    &&& exists|y2: int| 0 <= y2 < partial@.len() && #[trigger] extends(partial@[y2]@, t)
                    &&& subst_ok(*g, t)
                    &&& t.len() == pat.vars@.len()
                    &&& pmatch(*g, pat.nodes@, ci as int, nc as int, t)
                },
            forall|t: Seq<Option<usize>>, y2: int|
                0 <= y2 < y && #[trigger] agrees(*g, partial@[y2]@, t) && pmatch(*g, pat.nodes@, ci as int, nc as int, t)
                    ==> covered(*g, out@, t),
        decreases partial@.len() - y,
    {
        let rs = search(g, idx, pat, ci, nc, &partial[y]);
        let ghost o = out@;
        append_all(&mut out, &rs);
        proof {
            assert forall|w: int| 0 <= w < out@.len() implies {
                let t = (#[trigger] out@[w])@;
                &&& exists|y2: int| 0 <= y2 < partial@.len() && #[trigger] extends(partial@[y2]@, t)
                &&& subst_ok(*g, t)
                &&& t.len() == pat.vars@.len()
                &&& pmatch(*g, pat.nodes@, ci as int, nc as int, t)
            } by {
                if w >= o.len() {
                    let z = w - o.len();
                    assert(out@[o.len() + z]@ == rs@[z]@);
                    assert(o.len() + z == w);
                    assert(extends(partial@[y as int]@, rs@[z]@));
                } else {
                    assert(out@[w]@ == o[w]@);
                }
            }
            assert forall|t: Seq<Option<usize>>, y2: int|
                0 <= y2 < y + 1 && #[trigger] agrees(*g, partial@[y2]@, t) && pmatch(*g, pat.nodes@, ci as int, nc as int, t)
                implies covered(*g, out@, t) by {
                if y2 < y {
                    assert(covered(*g, o, t));
                    let w = choose|w: int| 0 <= w < o.len() && #[trigger] agrees(*g, o[w]@, t);
                    assert(out@[w]@ == o[w]@);
                    assert(agrees(*g, out@[w]@, t));
                } else {
                    assert(covered(*g, rs@, t));
                    let z = choose|z: int| 0 <= z < rs@.len() && #[trigger] agrees(*g, rs@[z]@, t);
                    assert(out@[o.len() + z]@ == rs@[z]@);
                    assert(agrees(*g, out@[o.len() + z]@, t));
                }
            }
        }
        y = y + 1;
    }
    proof {
        assert forall|t: Seq<Option<usize>>|
            #[trigger] pmatch(*g, pat.nodes@, ci as int, nc as int, t) && covered(*g, partial@, t) implies covered(*g, out@, t) by {
            let y2 = choose|y2: int| 0 <= y2 < partial@.len() && #[trigger] agrees(*g, partial@[y2]@, t);
        }
    }
    out
}

/// Substitutions that extend `s` and under which pattern position `pi`
/// matches the class of `c`: each one that does is found, up to which id of a
/// class it binds.
pub fn search(g: &EGraph, idx: &ClassIndex, pat: &Pattern, pi: usize, c: usize, s: &Subst) -> (r: Vec<Subst>)
    requires
        g.wf(),
        idx.ok(*g),
        pat.wf(),
        pi < pat.nodes@.len(),
        c < g.len(),
        s@.len() == pat.vars@.len(),
        subst_ok(*g, s@),
    ensures
        sound_results(*g, pat.nodes@, pi as int, c as int, s@, r@),
        forall|t: Seq<Option<usize>>|
            agrees(*g, s@, t) && #[trigger] pmatch(*g, pat.nodes@, pi as int, c as int, t) ==> covered(*g, r@, t),
    decreases pi, 0int,
{
    proof {
        g.lemma_wf(c as int);
    }
    let pn = &pat.nodes[pi];
    match pn.op {
        PatOp::Var(v) => {
            let cr = g.find(c);
            match s[v as usize] {
                Some(x) => {
                    if g.find(x) == cr {
                        let mut r: Vec<Subst> = Vec::new();
                        r.push(copy_subst(s));
                        proof {
                            assert forall|t: Seq<Option<usize>>|
                                agrees(*g, s@, t) && #[trigger] pmatch(*g, pat.nodes@, pi as int, c as int, t)
                                implies covered(*g, r@, t) by {
                                assert(agrees(*g, r@[0]@, t));
                            }
                        }
                        r
                    } else {
                        proof {
                            g.lemma_wf(x as int);
                            assert forall|t: Seq<Option<usize>>|
                                agrees(*g, s@, t) && #[trigger] pmatch(*g, pat.nodes@, pi as int, c as int, t)
                                implies covered(*g, Seq::<Subst>::empty(), t) by {
                                assert(s@[v as int] is Some);
                            }
                        }
                        Vec::new()
                    }
                },
                None => {
                    let mut t0 = copy_subst(s);
                    t0.set(v as usize, Some(cr));
                    let mut r: Vec<Subst> = Vec::new();
                    r.push(t0);
                    proof {
                        assert forall|t: Seq<Option<usize>>|
                            agrees(*g, s@, t) && #[trigger] pmatch(*g, pat.nodes@, pi as int, c as int, t)
                            implies covered(*g, r@, t) by {
                            assert(agrees(*g, r@[0]@, t));
                        }
                    }
                    r
                },
            }
        },
        PatOp::Node(op) => {
            let cr = g.find(c);
            let members = &idx.members[cr];
            let mut result: Vec<Subst> = Vec::new();
            let mut x: usize = 0;
            while x < members.len()
                invariant
                    g.wf(),
                    idx.ok(*g),
                    pat.wf(),
                    pi < pat.nodes@.len(),
                    *pn == pat.nodes@[pi as int],
                    pn.op == PatOp::Node(op),
                    c < g.len(),
                    cr == g.root(c as int),
                    cr < g.len(),
                    *members == idx.members@[cr as int],
                    s@.len() == pat.vars@.len(),
                    subst_ok(*g, s@),
                    x <= members@.len(),
                    sound_results(*g, pat.nodes@, pi as int, c as int, s@, result@),
                    forall|t: Seq<Option<usize>>, x2: int|
                        0 <= x2 < x && agrees(*g, s@, t) && #[trigger] node_fits(
                            *g,
                            pat.nodes@,
                            pi as int,
                            members@[x2] as int,
                            op,
                            t,
                        ) ==> covered(*g, result@, t),
                decreases members@.len() - x,
            {
                let j = members[x];
                proof {
                    assert(idx.members@[cr as int]@[x as int] == j);
                    assert(0 <= j < g.len() && g.root(j as int) == cr);
                }
                let node = g.node(j);
                proof {
                    g.lemma_wf(j as int);
                }
                let ghost r0 = result@;
                if node.op == op && node.children.len() == pn.children.len() {
                    let mut partial: Vec<Subst> = Vec::new();
                    partial.push(copy_subst(s));
                    proof {
                        assert forall|t: Seq<Option<usize>>|
                            agrees(*g, s@, t) && #[trigger] fits_upto(*g, pat.nodes@, pi as int, j as int, 0, t)
                            implies covered(*g, partial@, t) by {
                            assert(agrees(*g, partial@[0]@, t));
                        }
                    }
                    let mut k: usize = 0;
                    while k < pn.children.len()
                        invariant
                            g.wf(),
                            idx.ok(*g),
                            pat.wf(),
                            pi < pat.nodes@.len(),
                            *pn == pat.nodes@[pi as int],
                            j < g.len(),
                            *node == g.node_seq()[j as int],
                            node.children@.len() == pn.children@.len(),
                            forall|q: int| 0 <= q < node.children@.len() ==> #[trigger] node.children@[q] < j,
                            s@.len() == pat.vars@.len(),
                            subst_ok(*g, s@),
                            k <= pn.children@.len(),
                            forall|y: int|
                                0 <= y < partial@.len() ==> {
                                    let t = (#[trigger] partial@[y])@;
                                    &&& extends(s@, t)
                                    &&& subst_ok(*g, t)
                                    &&& t.len() == pat.vars@.len()
                                    &&& fits_upto(*g, pat.nodes@, pi as int, j as int, k as int, t)
                                },
                            forall|t: Seq<Option<usize>>|
                                agrees(*g, s@, t) && #[trigger] fits_upto(*g, pat.nodes@, pi as int, j as int, k as int, t)
                                    ==> covered(*g, partial@, t),
                        decreases pn.children@.len() - k,
                    {
                        proof {
                            assert(pat_nodes_ok(pat.nodes@, pat.vars@.len() as int));
                            assert(pn.children@[k as int] < pi);
                        }
                        let next = extend_all(g, idx, pat, pn.children[k], node.children[k], &partial);
                        proof {
                            assert forall|y: int| 0 <= y < next@.len() implies {
                                let t = (#[trigger] next@[y])@;
                                &&& extends(s@, t)
                                &&& subst_ok(*g, t)
                                &&& t.len() == pat.vars@.len()
                                &&& fits_upto(*g, pat.nodes@, pi as int, j as int, k as int + 1, t)
                            } by {
                                let t = next@[y]@;
                                let y0 = choose|y0: int| 0 <= y0 < partial@.len() && #[trigger] extends(partial@[y0]@, t);
                                let t0 = partial@[y0]@;
                                lemma_extends_trans(s@, t0, t);
                                assert forall|kk: int| 0 <= kk < k + 1 implies pmatch(
                                    *g,
                                    pat.nodes@,
                                    #[trigger] pat.nodes@[pi as int].children@[kk] as int,
                                    g.node_seq()[j as int].children@[kk] as int,
                                    t,
                                ) by {
                                    if kk < k {
                                        assert(fits_upto(*g, pat.nodes@, pi as int, j as int, k as int, t0));
                                        lemma_pmatch_extend(
                                            *g,
                                            pat.nodes@,
                                            pat.nodes@[pi as int].children@[kk] as int,
                                            g.node_seq()[j as int].children@[kk] as int,
                                            t0,
                                            t,
                                        );
                                    }
                                }
                            }
                            assert forall|t: Seq<Option<usize>>|
                                agrees(*g, s@, t) && #[trigger] fits_upto(*g, pat.nodes@, pi as int, j as int, k as int + 1, t)
                                implies covered(*g, next@, t) by {
                                assert(fits_upto(*g, pat.nodes@, pi as int, j as int, k as int, t));
                                assert(covered(*g, partial@, t));
                                assert(pmatch(
                                    *g,
                                    pat.nodes@,
                                    pat.nodes@[pi as int].children@[k as int] as int,
                                    g.node_seq()[j as int].children@[k as int] as int,
                                    t,
                                ));
                            }
                        }
                        partial = next;
                        k = k + 1;
                    }
                    let ghost parts = partial@;
                    append_all(&mut result, &partial);
                    proof {
                        assert forall|w: int| 0 <= w < result@.len() implies {
                            let t = (#[trigger] result@[w])@;
                            &&& extends(s@, t)
                            &&& subst_ok(*g, t)
                            &&& pmatch(*g, pat.nodes@, pi as int, c as int, t)
                        } by {
                            if w >= r0.len() {
                                let t = result@[w]@;
                                let z = w - r0.len();
                                assert(result@[r0.len() + z]@ == parts[z]@);
                                assert(r0.len() + z == w);
                                assert(t == parts[z]@);
                                assert(pat_nodes_ok(pat.nodes@, pat.vars@.len() as int));
                                assert(fits_upto(*g, pat.nodes@, pi as int, j as int, pn.children@.len() as int, t));
                                assert(in_class(*g, c as int, j as int));
                                assert(node_fits(*g, pat.nodes@, pi as int, j as int, op, t));
                            } else {
                                assert(result@[w]@ == r0[w]@);
                            }
                        }
                        assert forall|t: Seq<Option<usize>>, x2: int|
                            0 <= x2 < x + 1 && agrees(*g, s@, t) && #[trigger] node_fits(
                                *g,
                                pat.nodes@,
                                pi as int,
                                members@[x2] as int,
                                op,
                                t,
                            ) implies covered(*g, result@, t) by {
                            if x2 < x {
                                let w = choose|w: int| 0 <= w < r0.len() && #[trigger] agrees(*g, r0[w]@, t);
                                assert(result@[w]@ == r0[w]@);
                                assert(agrees(*g, result@[w]@, t));
                            } else {
                                assert(fits_upto(*g, pat.nodes@, pi as int, j as int, pn.children@.len() as int, t));
                                let w = choose|w: int| 0 <= w < parts.len() && #[trigger] agrees(*g, parts[w]@, t);
                                assert(result@[r0.len() + w]@ == parts[w]@);
                                assert(agrees(*g, result@[r0.len() + w]@, t));
                            }
                        }
                    }
                } else {
                    proof {
                        assert forall|t: Seq<Option<usize>>, x2: int|
                            0 <= x2 < x + 1 && agrees(*g, s@, t) && #[trigger] node_fits(
                                *g,
                                pat.nodes@,
                                pi as int,
                                members@[x2] as int,
                                op,
                                t,
                            ) implies covered(*g, result@, t) by {
                            if x2 == x {
                                assert(!node_fits(*g, pat.nodes@, pi as int, j as int, op, t));
                            }
                        }
                    }
                }
                x = x + 1;
            }
            proof {
                assert forall|t: Seq<Option<usize>>|
                    agrees(*g, s@, t) && #[trigger] pmatch(*g, pat.nodes@, pi as int, c as int, t) implies covered(
                    *g,
                    result@,
                    t,
                ) by {
                    let j = choose|j: int| #[trigger] in_class(*g, c as int, j) && node_fits(*g, pat.nodes@, pi as int, j, op, t);
                    g.lemma_wf(j);
                    assert(listed(idx.members@[g.root(j)]@, j));
                    let x2 = choose|x2: int| 0 <= x2 < members@.len() && members@[x2] == j;
                    assert(node_fits(*g, pat.nodes@, pi as int, members@[x2] as int, op, t));
                }
            }
            result
        },
    }
}

/// Every variable of `s` is bound.
pub open spec fn all_bound(s: Seq<Option<usize>>) -> bool {
    forall|v: int| 0 <= v < s.len() ==> (#[trigger] s[v]) is Some
}

fn check_all_bound(s: &Subst) -> (r: bool)
    ensures
        r == all_bound(s@),
{
    let mut i: usize = 0;
    while i < s.len()
        invariant
            i <= s@.len(),
            forall|v: int| 0 <= v < i ==> (#[trigger] s@[v]) is Some,
        decreases s@.len() - i,
    {
        if s[i].is_none() {
            return false;
        }
        i = i + 1;
    }
    true
}

/// Adds the tree of `pat` under `s` to `g`, bottom-up, and returns the class
/// that it ends in.
pub fn instantiate(g: &mut EGraph, pat: &Pattern, s: &Subst) -> (r: usize)
    requires
        old(g).wf(),
        pat.wf(),
        s@.len() == pat.vars@.len(),
        subst_ok(*old(g), s@),
        all_bound(s@),
    ensures
        final(g).wf(),
        old(g).grows_to(*final(g)),
        r < final(g).len(),
        pmatch(*final(g), pat.nodes@, pat.root(), r as int, s@),
        forall|m: int| #[trigger] old(g).ops_ok(m) && m >= 0 ==> final(g).ops_ok(m),
        final(g).len() == old(g).len() ==> *final(g) == *old(g),
        old(g).progressed(*final(g)),
{
    let ghost g0 = *g;
    let mut ids: Vec<usize> = Vec::new();
    let mut pi: usize = 0;
    proof {
        assert(g.node_seq().subrange(0, g.len()) =~= g.node_seq());
    }
    while pi < pat.nodes.len()
        invariant
            g.wf(),
            pat.wf(),
            s@.len() == pat.vars@.len(),
            subst_ok(*g, s@),
            all_bound(s@),
            g0.grows_to(*g),
            forall|m: int| #[trigger] g0.ops_ok(m) && m >= 0 ==> g.ops_ok(m),
            g.len() == g0.len() ==> *g == g0,
            g0.progressed(*g),
            pi <= pat.nodes@.len(),
            ids@.len() == pi,
            forall|q: int| 0 <= q < pi ==> #[trigger] ids@[q] < g.len(),
            forall|q: int| 0 <= q < pi ==> pmatch(*g, pat.nodes@, q, #[trigger] ids@[q] as int, s@),
        decreases pat.nodes@.len() - pi,
    {
        let pn = &pat.nodes[pi];
        proof {
            assert(pat_nodes_ok(pat.nodes@, pat.vars@.len() as int));
        }
        match pn.op {
            PatOp::Var(v) => {
                let x = match s[v as usize] {
                    Some(x) => x,
                    None => 0,
                };
                let id = g.find(x);
                proof {
                    g.lemma_wf(x as int);
                }
                ids.push(id);
            },
            PatOp::Node(op) => {
                let mut chs: Vec<usize> = Vec::new();
                let mut k: usize = 0;
                while k < pn.children.len()
                    invariant
                        pat.wf(),
                        pi < pat.nodes@.len(),
                        *pn == pat.nodes@[pi as int],
                        forall|q: int| 0 <= q < pn.children@.len() ==> 0 <= #[trigger] pn.children@[q] < pi,
                        ids@.len() == pi,
                        forall|q: int| 0 <= q < pi ==> #[trigger] ids@[q] < g.len(),
                        k <= pn.children@.len(),
                        chs@.len() == k,
                        forall|q: int| 0 <= q < k ==> #[trigger] chs@[q] == ids@[pn.children@[q] as int],
                    decreases pn.children@.len() - k,
                {
                    chs.push(ids[pn.children[k]]);
                    k = k + 1;
                }
                let ghost ga = *g;
                let id = g.add(op, &chs);
                proof {
                    crate::egraph::lemma_progress_trans(g0, ga, *g);
                    assert forall|q: int| 0 <= q < pi implies pmatch(*g, pat.nodes@, q, #[trigger] ids@[q] as int, s@) by {
                        lemma_pmatch_grow(ga, *g, pat.nodes@, q, ids@[q] as int, s@);
                    }
                    let j = choose|j: int|
                        0 <= j < g.len() && g.root(j) == id && #[trigger] g.node_matches(j, op, chs@);
                    g.lemma_wf(id as int);
                    assert forall|k2: int| 0 <= k2 < pn.children@.len() implies {
                        let q = #[trigger] pn.children@[k2] as int;
                        0 <= q < pi && pmatch(*g, pat.nodes@, q, g.node_seq()[j].children@[k2] as int, s@)
                    } by {
                        let q = pn.children@[k2] as int;
                        assert(chs@[k2] == ids@[q]);
                        g.lemma_wf(j);
                        lemma_pmatch_root(*g, pat.nodes@, q, ids@[q] as int, g.node_seq()[j].children@[k2] as int, s@);
                    }
                    assert(in_class(*g, id as int, j));
                    assert(node_fits(*g, pat.nodes@, pi as int, j, op, s@));
                    assert(ga.grows_to(*g));
                    assert(g0.grows_to(*g)) by {
                        assert(g.node_seq().subrange(0, g0.len()) =~= g.node_seq().subrange(0, ga.len()).subrange(0, g0.len()));
                        assert forall|a: int, b: int| 0 <= a < g0.len() && 0 <= b < g0.len() && #[trigger] g0.equiv(a, b)
                            implies g.equiv(a, b) by {
                            assert(ga.equiv(a, b));
                        }
                    }
                    assert forall|m: int| #[trigger] g0.ops_ok(m) && m >= 0 implies g.ops_ok(m) by {
                        assert(ga.ops_ok(m));
                        assert(op_ok(op, m));
                    }
                    assert forall|v: int| 0 <= v < s@.len() && (#[trigger] s@[v]) is Some implies s@[v]->0 < g.len() by {
                        assert(s@[v]->0 < ga.len());
                    }
                }
                ids.push(id);
            },
        }
        pi = pi + 1;
    }
    ids[pat.nodes.len() - 1]
}


/// Wherever the root of `pat` matches, every variable of it is bound.
pub open spec fn binds_all(pat: Pattern) -> bool {
    forall|g: EGraph, c: int, t: Seq<Option<usize>>|
        t.len() == pat.vars@.len() && #[trigger] pmatch(g, pat.nodes@, pat.root(), c, t) ==> all_bound(t)
}

/// Wherever the root of `pat` matches, so does position `x`, at some class.
pub open spec fn reaches(pat: Pattern, x: int) -> bool {
    forall|g: EGraph, c: int, t: Seq<Option<usize>>|
        #[trigger] pmatch(g, pat.nodes@, pat.root(), c, t) ==> exists|c2: int| #[trigger] pmatch(g, pat.nodes@, x, c2, t)
}

/// Variable `w` stands at a position marked in `reached`.
pub open spec fn var_reached(pat: Seq<PatNode>, reached: Seq<bool>, w: int) -> bool {
    exists|y: int| 0 <= y < reached.len() && reached[y] && #[trigger] pat[y].op == PatOp::Var(w as u32)
}

/// Whether every variable of `pat` is bound wherever its root matches:
/// each one stands at a position that the root's operands lead to.
pub fn binds_every_var(pat: &Pattern) -> (r: Option<usize>)
    requires
        pat.wf(),
    ensures
        r is None ==> binds_all(*pat),
        r matches Some(v) ==> v < pat.vars@.len(),
{
    let n = pat.nodes.len();
    let mut reached: Vec<bool> = Vec::new();
    let mut q: usize = 0;
    while q < n
        invariant
            q <= n,
            n == pat.nodes@.len(),
            reached@.len() == q,
            forall|y: int| 0 <= y < q ==> (#[trigger] reached@[y]) == (y == n - 1),
        decreases n - q,
    {
        reached.push(q == n - 1);
        q = q + 1;
    }
    proof {
        assert(reaches(*pat, n - 1)) by {
            assert forall|g: EGraph, c: int, t: Seq<Option<usize>>|
                #[trigger] pmatch(g, pat.nodes@, pat.root(), c, t) implies exists|c2: int| #[trigger] pmatch(g, pat.nodes@, n - 1, c2, t) by {
                assert(pmatch(g, pat.nodes@, n - 1, c, t));
            }
        }
    }
    let mut x: usize = n;
    while x > 0
        invariant
            pat.wf(),
            n == pat.nodes@.len(),
            x <= n,
            reached@.len() == n,
            forall|y: int| 0 <= y < n && #[trigger] reached@[y] ==> reaches(*pat, y),
        decreases x,
    {
        x = x - 1;
        if reached[x] {
            let pn = &pat.nodes[x];
            proof {
                assert(pat_nodes_ok(pat.nodes@, pat.vars@.len() as int));
            }
            let mut k: usize = 0;
            while k < pn.children.len()
                invariant
                    pat.wf(),
                    n == pat.nodes@.len(),
                    x < n,
                    *pn == pat.nodes@[x as int],
                    reaches(*pat, x as int),
                    forall|q2: int| 0 <= q2 < pn.children@.len() ==> 0 <= #[trigger] pn.children@[q2] < x,
                    reached@.len() == n,
                    forall|y: int| 0 <= y < n && #[trigger] reached@[y] ==> reaches(*pat, y),
                    k <= pn.children@.len(),
                decreases pn.children@.len() - k,
            {
                let ch = pn.children[k];
                proof {
                    assert(reaches(*pat, ch as int)) by {
                        assert forall|g: EGraph, c: int, t: Seq<Option<usize>>|
                            #[trigger] pmatch(g, pat.nodes@, pat.root(), c, t) implies exists|c3: int| #[trigger] pmatch(
                                g,
                                pat.nodes@,
                                ch as int,
                                c3,
                                t,
                            ) by {
                            let c2 = choose|c2: int| #[trigger] pmatch(g, pat.nodes@, x as int, c2, t);
                            if let PatOp::Node(op) = pat.nodes@[x as int].op {
                                let j = choose|j: int|
                                    #[trigger] in_class(g, c2, j) && node_fits(g, pat.nodes@, x as int, j, op, t);
                                assert(pn.children@[k as int] == ch);
                                assert(pmatch(g, pat.nodes@, ch as int, g.node_seq()[j].children@[k as int] as int, t));
                            }
                        }
                    }
                }
                reached.set(ch, true);
                k = k + 1;
            }
        }
    }
    // every variable must stand at a reached position
    let mut v: usize = 0;
    while v < pat.vars.len()
        invariant
            pat.wf(),
            n == pat.nodes@.len(),
            reached@.len() == n,
            forall|y: int| 0 <= y < n && #[trigger] reached@[y] ==> reaches(*pat, y),
            v <= pat.vars@.len(),
            forall|w: int| 0 <= w < v ==> #[trigger] var_reached(pat.nodes@, reached@, w),
        decreases pat.vars@.len() - v,
    {
        let mut y: usize = 0;
        let mut found = false;
        while y < n && !found
            invariant
                n == pat.nodes@.len(),
                reached@.len() == n,
                y <= n,
                found ==> var_reached(pat.nodes@, reached@, v as int),
            decreases n - y + if found { 0int } else { 1 },
        {
            if reached[y] && pat.nodes[y].op == PatOp::Var(v as u32) {
                found = true;
                assert(pat.nodes@[y as int].op == PatOp::Var(v as u32));
            } else {
                y = y + 1;
            }
        }
        if !found {
            return Some(v);
        }
        v = v + 1;
    }
    proof {
        assert forall|g: EGraph, c: int, t: Seq<Option<usize>>|
            t.len() == pat.vars@.len() && #[trigger] pmatch(g, pat.nodes@, pat.root(), c, t) implies all_bound(t) by {
            assert forall|w: int| 0 <= w < t.len() implies (#[trigger] t[w]) is Some by {
                assert(var_reached(pat.nodes@, reached@, w));
                let y = choose|y: int| 0 <= y < n && reached@[y] && #[trigger] pat.nodes@[y].op == PatOp::Var(w as u32);
                assert(reaches(*pat, y));
                let c2 = choose|c2: int| #[trigger] pmatch(g, pat.nodes@, y, c2, t);
            }
        }
    }
    None
}

/// Guard of a rule: the class bound to the first variable, or the one bound
/// to the second, holds a constant or the extension unit.
#[derive(Clone, Copy, Debug, PartialEq, Eq, Structural)]
pub struct Guard {
    pub a: u32,
    pub b: u32,
}

/// A member of the class of `c` is a constant or the extension unit.
pub open spec fn has_const(g: EGraph, c: int) -> bool {
    exists|j: int| #[trigger] in_class(g, c, j) && (g.node_seq()[j].op is Num || g.node_seq()[j].op is Xi)
}

pub open spec fn guard_holds(g: EGraph, guard: Option<Guard>, s: Seq<Option<usize>>) -> bool {
    match guard {
        None => true,
        Some(gd) => (s[gd.a as int] is Some && has_const(g, s[gd.a as int]->0 as int)) || (s[gd.b as int] is Some
            && has_const(g, s[gd.b as int]->0 as int)),
    }
}

/// A rewrite rule: where `lhs` matches a class (and the guard passes), the
/// class is merged with the instance of `rhs`. Both sides share one table
/// of variables.
#[derive(Clone, Debug)]
pub struct Rewrite {
    pub name: Vec<u8>,
    pub lhs: Pattern,
    pub rhs: Pattern,
    pub guard: Option<Guard>,
}

impl Rewrite {
    pub open spec fn wf(&self) -> bool {
        &&& self.lhs.wf()
        &&& self.rhs.wf()
        &&& self.rhs.vars@.len() == self.lhs.vars@.len()
        &&& binds_all(self.lhs)
        &&& match self.guard {
            None => true,
            Some(gd) => gd.a < self.lhs.vars@.len() && gd.b < self.lhs.vars@.len(),
        }
    }
}

pub open spec fn rules_ok(rules: Seq<Rewrite>) -> bool {
    forall|r: int| 0 <= r < rules.len() ==> (#[trigger] rules[r]).wf()
}

impl ClassIndex {
    /// Whether a member of the class of `c` is a constant or the extension unit.
    pub fn class_has_const(&self, g: &EGraph, c: usize) -> (r: bool)
        requires
            g.wf(),
            self.ok(*g),
            c < g.len(),
        ensures
            r == has_const(*g, c as int),
    {
        let cr = g.find(c);
        proof {
            g.lemma_wf(c as int);
        }
        let members = &self.members[cr];
        let mut x: usize = 0;
        while x < members.len()
            invariant
                g.wf(),
                self.ok(*g),
                cr == g.root(c as int),
                cr < g.len(),
                *members == self.members@[cr as int],
                x <= members@.len(),
                forall|y: int|
                    0 <= y < x ==> !(g.node_seq()[#[trigger] members@[y] as int].op is Num || g.node_seq()[members@[y] as int].op is Xi),
            decreases members@.len() - x,
        {
            let j = members[x];
            proof {
                assert(self.members@[cr as int]@[x as int] == j);
            }
            match g.node(j).op {
                Op::Num(_) | Op::Xi => {
                    assert(in_class(*g, c as int, j as int));
                    return true;
                },
                _ => {},
            }
            x = x + 1;
        }
        proof {
            if has_const(*g, c as int) {
                let j = choose|j: int| #[trigger] in_class(*g, c as int, j) && (g.node_seq()[j].op is Num || g.node_seq()[j].op is Xi);
                g.lemma_wf(j);
                assert(listed(self.members@[g.root(j)]@, j));
                let y = choose|y: int| 0 <= y < members@.len() && members@[y] == j;
                assert(members@[y] == j);
            }
        }
        false
    }

    fn guard_passes(&self, g: &EGraph, guard: Option<Guard>, s: &Subst) -> (r: bool)
        requires
            g.wf(),
            self.ok(*g),
            subst_ok(*g, s@),
            match guard {
                None => true,
                Some(gd) => gd.a < s@.len() && gd.b < s@.len(),
            },
        ensures
            r == guard_holds(*g, guard, s@),
    {
        match guard {
            None => true,
            Some(gd) => {
                let ok_a = match s[gd.a as usize] {
                    Some(x) => self.class_has_const(g, x),
                    None => false,
                };
                if ok_a {
                    true
                } else {
                    match s[gd.b as usize] {
                        Some(x) => self.class_has_const(g, x),
                        None => false,
                    }
                }
            },
        }
    }
}

/// One match of a rule: its index, the class its left side matched at, and
/// the substitution.
#[derive(Clone, Debug)]
pub struct Match {
    pub rule: usize,
    pub class: usize,
    pub subst: Subst,
}

/// The match is sound for `g`: the left side matches its class, every
/// variable is bound, and the guard holds.
pub open spec fn match_ok(g: EGraph, rules: Seq<Rewrite>, m: Match) -> bool {
    &&& 0 <= m.rule < rules.len()
    &&& m.class < g.len()
    &&& m.subst@.len() == rules[m.rule as int].lhs.vars@.len()
    &&& subst_ok(g, m.subst@)
    &&& all_bound(m.subst@)
    &&& pmatch(g, rules[m.rule as int].lhs.nodes@, rules[m.rule as int].lhs.root(), m.class as int, m.subst@)
    &&& guard_holds(g, rules[m.rule as int].guard, m.subst@)
}

/// A match of rule `ri` at class `c` under a substitution that binds the
/// variables as `t` does is among `ms`.
pub open spec fn found_match(g: EGraph, ms: Seq<Match>, ri: int, c: int, t: Seq<Option<usize>>) -> bool {
    exists|x: int| 0 <= x < ms.len() && ms[x].rule == ri && ms[x].class == c && #[trigger] agrees(g, ms[x].subst@, t)
}

/// Rule `ri` matches at canonical id `c` under `t`, its guard passing.
pub open spec fn rule_matches(g: EGraph, rules: Seq<Rewrite>, ri: int, c: int, t: Seq<Option<usize>>) -> bool {
    &&& 0 <= ri < rules.len()
    &&& 0 <= c < g.len()
    &&& g.root(c) == c
    &&& t.len() == rules[ri].lhs.vars@.len()
    &&& subst_ok(g, t)
    &&& pmatch(g, rules[ri].lhs.nodes@, rules[ri].lhs.root(), c, t)
    &&& guard_holds(g, rules[ri].guard, t)
}

/// What a pattern matches under `a` it matches under any `t` that binds the
/// same variables to the same classes.
pub proof fn lemma_pmatch_agree(g: EGraph, pat: Seq<PatNode>, pi: int, c: int, a: Seq<Option<usize>>, t: Seq<Option<usize>>)
    requires
        agrees(g, a, t),
        pmatch(g, pat, pi, c, a),
    ensures
        pmatch(g, pat, pi, c, t),
    decreases pi,
{
    if let PatOp::Node(op) = pat[pi].op {
        let j = choose|j: int| #[trigger] in_class(g, c, j) && node_fits(g, pat, pi, j, op, a);
        assert forall|k: int| 0 <= k < pat[pi].children@.len() implies {
            let q = #[trigger] pat[pi].children@[k] as int;
            0 <= q < pi && pmatch(g, pat, q, g.node_seq()[j].children@[k] as int, t)
        } by {
            lemma_pmatch_agree(g, pat, pat[pi].children@[k] as int, g.node_seq()[j].children@[k] as int, a, t);
        }
        assert(in_class(g, c, j) && node_fits(g, pat, pi, j, op, t));
    }
}

/// Bindings to one class stay bindings to one class as the graph grows.
pub proof fn lemma_agrees_grow(g: EGraph, h: EGraph, a: Seq<Option<usize>>, t: Seq<Option<usize>>)
    requires
        g.wf(),
        g.grows_to(h),
        subst_ok(g, a),
        subst_ok(g, t),
        agrees(g, a, t),
    ensures
        agrees(h, a, t),
{
    assert forall|v: int| 0 <= v < a.len() && (#[trigger] a[v]) is Some implies t[v] is Some && h.root(a[v]->0 as int)
        == h.root(t[v]->0 as int) by {
        assert(g.equiv(a[v]->0 as int, t[v]->0 as int));
    }
}

proof fn lemma_found_push(g: EGraph, ms: Seq<Match>, m: Match, ri: int, c: int, t: Seq<Option<usize>>)
    requires
        found_match(g, ms, ri, c, t),
    ensures
        found_match(g, ms.push(m), ri, c, t),
{
    let x = choose|x: int| 0 <= x < ms.len() && ms[x].rule == ri && ms[x].class == c && #[trigger] agrees(g, ms[x].subst@, t);
    assert(ms.push(m)[x] == ms[x]);
}

proof fn lemma_has_const_root(g: EGraph, p: int, q: int)
    requires
        g.root(p) == g.root(q),
    ensures
        has_const(g, p) == has_const(g, q),
{
    if has_const(g, p) {
        let j = choose|j: int| #[trigger] in_class(g, p, j) && (g.node_seq()[j].op is Num || g.node_seq()[j].op is Xi);
        assert(in_class(g, q, j));
    }
    if has_const(g, q) {
        let j = choose|j: int| #[trigger] in_class(g, q, j) && (g.node_seq()[j].op is Num || g.node_seq()[j].op is Xi);
        assert(in_class(g, p, j));
    }
}

/// Substitutions that agree bind the guard's variables to classes that hold
/// a constant alike.
proof fn lemma_guard_agrees(g: EGraph, guard: Option<Guard>, a: Seq<Option<usize>>, t: Seq<Option<usize>>)
    requires
        agrees(g, a, t),
        all_bound(a),
        match guard {
            None => true,
            Some(gd) => gd.a < a.len() && gd.b < a.len(),
        },
    ensures
        guard_holds(g, guard, a) == guard_holds(g, guard, t),
{
    if let Some(gd) = guard {
        let x = gd.a as int;
        let y = gd.b as int;
        assert(a[x] is Some && a[y] is Some);
        assert forall|j: int| #[trigger] in_class(g, a[x]->0 as int, j) == in_class(g, t[x]->0 as int, j) by {}
        assert forall|j: int| #[trigger] in_class(g, a[y]->0 as int, j) == in_class(g, t[y]->0 as int, j) by {}
        lemma_has_const_root(g, a[x]->0 as int, t[x]->0 as int);
        lemma_has_const_root(g, a[y]->0 as int, t[y]->0 as int);
    }
}

/// All matches of all rules at all classes, rule by rule and class by class
/// in ascending id; the graph is only read. Each match of each rule at each
/// class is found, up to which ids of classes it binds.
pub fn search_rules(g: &EGraph, rules: &Vec<Rewrite>) -> (r: Vec<Match>)
    requires
        g.wf(),
        rules_ok(rules@),
    ensures
        forall|x: int| 0 <= x < r@.len() ==> match_ok(*g, rules@, #[trigger] r@[x]),
        forall|ri: int, c: int, t: Seq<Option<usize>>|
            #[trigger] rule_matches(*g, rules@, ri, c, t) ==> found_match(*g, r@, ri, c, t),
{
    let idx = ClassIndex::new(g);
    let n = g.size();
    let mut out: Vec<Match> = Vec::new();
    let mut ri: usize = 0;
    while ri < rules.len()
        invariant
            g.wf(),
            idx.ok(*g),
            rules_ok(rules@),
            n == g.len(),
            ri <= rules@.len(),
            forall|x: int| 0 <= x < out@.len() ==> match_ok(*g, rules@, #[trigger] out@[x]),
            forall|r2: int, c: int, t: Seq<Option<usize>>|
                r2 < ri && #[trigger] rule_matches(*g, rules@, r2, c, t) ==> found_match(*g, out@, r2, c, t),
        decreases rules@.len() - ri,
    {
        let rule = &rules[ri];
        assert(rule.wf());
        let mut empty: Subst = Vec::new();
        let mut v: usize = 0;
        while v < rule.lhs.vars.len()
            invariant
                v <= rule.lhs.vars@.len(),
                empty@.len() == v,
                forall|w: int| 0 <= w < v ==> (#[trigger] empty@[w]) is None,
            decreases rule.lhs.vars@.len() - v,
        {
            empty.push(None);
            v = v + 1;
        }
        let mut c: usize = 0;
        while c < n
            invariant
                g.wf(),
                idx.ok(*g),
                rules_ok(rules@),
                n == g.len(),
                ri < rules@.len(),
                *rule == rules@[ri as int],
                rule.wf(),
                empty@.len() == rule.lhs.vars@.len(),
                forall|w: int| 0 <= w < empty@.len() ==> (#[trigger] empty@[w]) is None,
                subst_ok(*g, empty@),
                c <= n,
                forall|x: int| 0 <= x < out@.len() ==> match_ok(*g, rules@, #[trigger] out@[x]),
                forall|r2: int, c2: int, t: Seq<Option<usize>>|
                    (r2 < ri || (r2 == ri && c2 < c)) && #[trigger] rule_matches(*g, rules@, r2, c2, t) ==> found_match(
                        *g,
                        out@,
                        r2,
                        c2,
                        t,
                    ),
            decreases n - c,
        {
            if g.find(c) == c {
                let found = search(g, &idx, &rule.lhs, rule.lhs.nodes.len() - 1, c, &empty);
                let mut y: usize = 0;
                while y < found.len()
                    invariant
                        g.wf(),
                        idx.ok(*g),
                        rules_ok(rules@),
                        n == g.len(),
                        c < n,
                        g.root(c as int) == c,
                        ri < rules@.len(),
                        *rule == rules@[ri as int],
                        rule.wf(),
                        empty@.len() == rule.lhs.vars@.len(),
                        sound_results(*g, rule.lhs.nodes@, rule.lhs.root(), c as int, empty@, found@),
                        y <= found@.len(),
                        forall|x: int| 0 <= x < out@.len() ==> match_ok(*g, rules@, #[trigger] out@[x]),
                        forall|r2: int, c2: int, t: Seq<Option<usize>>|
                            (r2 < ri || (r2 == ri && c2 < c)) && #[trigger] rule_matches(*g, rules@, r2, c2, t)
                                ==> found_match(*g, out@, r2, c2, t),
                        forall|t: Seq<Option<usize>>, y2: int|
                            0 <= y2 < y && rule_matches(*g, rules@, ri as int, c as int, t) && #[trigger] agrees(
                                *g,
                                found@[y2]@,
                                t,
                            ) ==> found_match(*g, out@, ri as int, c as int, t),
                    decreases found@.len() - y,
                {
                    let t = copy_subst(&found[y]);
                    proof {
                        assert(extends(empty@, found@[y as int]@));
                    }
                    let ghost o = out@;
                    let bound = check_all_bound(&t);
                    let pass = bound && idx.guard_passes(g, rule.guard, &t);
                    if pass {
                        out.push(Match { rule: ri, class: c, subst: t });
                    }
                    proof {
                        if pass {
                            assert forall|r2: int, c2: int, t2: Seq<Option<usize>>|
                                (r2 < ri || (r2 == ri && c2 < c)) && #[trigger] rule_matches(*g, rules@, r2, c2, t2)
                                implies found_match(*g, out@, r2, c2, t2) by {
                                lemma_found_push(*g, o, out@.last(), r2, c2, t2);
                                assert(out@ == o.push(out@.last()));
                            }
                        }
                        assert forall|t2: Seq<Option<usize>>, y2: int|
                            0 <= y2 < y + 1 && rule_matches(*g, rules@, ri as int, c as int, t2) && #[trigger] agrees(
                                *g,
                                found@[y2]@,
                                t2,
                            ) implies found_match(*g, out@, ri as int, c as int, t2) by {
                            if y2 < y {
                                if pass {
                                    lemma_found_push(*g, o, out@.last(), ri as int, c as int, t2);
                                    assert(out@ == o.push(out@.last()));
                                }
                            } else {
                                let a = found@[y2]@;
                                assert(pmatch(*g, rule.lhs.nodes@, rule.lhs.root(), c as int, a));
                                assert(binds_all(rule.lhs));
                                assert(all_bound(a));
                                lemma_guard_agrees(*g, rule.guard, a, t2);
                                assert(pass);
                                assert(out@[o.len() as int].subst@ == a);
                                assert(agrees(*g, out@[o.len() as int].subst@, t2));
                            }
                        }
                    }
                    y = y + 1;
                }
                proof {
                    assert forall|r2: int, c2: int, t: Seq<Option<usize>>|
                        (r2 < ri || (r2 == ri && c2 < c + 1)) && #[trigger] rule_matches(*g, rules@, r2, c2, t)
                        implies found_match(*g, out@, r2, c2, t) by {
                        if r2 == ri && c2 == c {
                            assert(agrees(*g, empty@, t));
                            assert(covered(*g, found@, t));
                            let y2 = choose|y2: int| 0 <= y2 < found@.len() && #[trigger] agrees(*g, found@[y2]@, t);
                        }
                    }
                }
            } else {
                proof {
                    g.lemma_wf(c as int);
                }
            }
            c = c + 1;
        }
        ri = ri + 1;
    }
    out
}

/// Applies every match as a batch: instantiates the right side under its
/// substitution and merges it with the matched class. Returns whether the
/// graph changed.
pub fn apply_matches(g: &mut EGraph, rules: &Vec<Rewrite>, ms: &Vec<Match>) -> (r: bool)
    requires
        old(g).wf(),
        rules_ok(rules@),
        forall|x: int| 0 <= x < ms@.len() ==> match_ok(*old(g), rules@, #[trigger] ms@[x]),
    ensures
        final(g).wf(),
        old(g).grows_to(*final(g)),
        forall|m: int| #[trigger] old(g).ops_ok(m) && m >= 0 ==> final(g).ops_ok(m),
        !r ==> *final(g) == *old(g),
        old(g).progressed(*final(g)),
        forall|x: int|
            0 <= x < ms@.len() ==> {
                let m = #[trigger] ms@[x];
                let rule = rules@[m.rule as int];
                &&& pmatch(*final(g), rule.lhs.nodes@, rule.lhs.root(), m.class as int, m.subst@)
                &&& pmatch(*final(g), rule.rhs.nodes@, rule.rhs.root(), m.class as int, m.subst@)
            },
{
    let ghost g0 = *g;
    let mut changed = false;
    let mut i: usize = 0;
    proof {
        assert(g.node_seq().subrange(0, g.len()) =~= g.node_seq());
    }
    while i < ms.len()
        invariant
            g.wf(),
            g0.wf(),
            rules_ok(rules@),
            g0.grows_to(*g),
            forall|m: int| #[trigger] g0.ops_ok(m) && m >= 0 ==> g.ops_ok(m),
            forall|x: int| 0 <= x < ms@.len() ==> match_ok(g0, rules@, #[trigger] ms@[x]),
            !changed ==> *g == g0,
            g0.progressed(*g),
            i <= ms@.len(),
            forall|x: int|
                0 <= x < i ==> {
                    let m = #[trigger] ms@[x];
                    let rule = rules@[m.rule as int];
                    &&& pmatch(*g, rule.lhs.nodes@, rule.lhs.root(), m.class as int, m.subst@)
                    &&& pmatch(*g, rule.rhs.nodes@, rule.rhs.root(), m.class as int, m.subst@)
                },
        decreases ms@.len() - i,
    {
        let m = &ms[i];
        let rule = &rules[m.rule];
        proof {
            assert(match_ok(g0, rules@, ms@[i as int]));
            assert(rule.wf());
            assert forall|v: int| 0 <= v < m.subst@.len() && (#[trigger] m.subst@[v]) is Some implies m.subst@[v]->0
                < g.len() by {}
        }
        let ghost ga = *g;
        let before = g.size();
        let id = instantiate(g, &rule.rhs, &m.subst);
        let ghost gb = *g;
        let grew = g.size() != before;
        proof {
            g0.lemma_wf(m.class as int);
        }
        let merged = g.union(m.class, id);
        proof {
            crate::egraph::lemma_progress_trans(g0, ga, gb);
            crate::egraph::lemma_progress_trans(g0, gb, *g);
            assert(gb.grows_to(*g));
            assert(ga.grows_to(*g)) by {
                assert(g.node_seq().subrange(0, ga.len()) =~= g.node_seq().subrange(0, gb.len()).subrange(0, ga.len()));
                assert forall|a: int, b: int| 0 <= a < ga.len() && 0 <= b < ga.len() && #[trigger] ga.equiv(a, b)
                    implies g.equiv(a, b) by {
                    assert(gb.equiv(a, b));
                }
            }
            assert(g0.grows_to(*g)) by {
                assert(g.node_seq().subrange(0, g0.len()) =~= g.node_seq().subrange(0, ga.len()).subrange(0, g0.len()));
                assert forall|a: int, b: int| 0 <= a < g0.len() && 0 <= b < g0.len() && #[trigger] g0.equiv(a, b)
                    implies g.equiv(a, b) by {
                    assert(ga.equiv(a, b));
                }
            }
            assert forall|mm: int| #[trigger] g0.ops_ok(mm) && mm >= 0 implies g.ops_ok(mm) by {
                assert(ga.ops_ok(mm));
                assert(gb.ops_ok(mm));
            }
            assert forall|x: int|
                0 <= x < i + 1 implies {
                    let mx = #[trigger] ms@[x];
                    let rx = rules@[mx.rule as int];
                    &&& pmatch(*g, rx.lhs.nodes@, rx.lhs.root(), mx.class as int, mx.subst@)
                    &&& pmatch(*g, rx.rhs.nodes@, rx.rhs.root(), mx.class as int, mx.subst@)
                } by {
                let mx = ms@[x];
                let rx = rules@[mx.rule as int];
                assert(match_ok(g0, rules@, mx));
                if x < i {
                    lemma_pmatch_grow(ga, *g, rx.lhs.nodes@, rx.lhs.root(), mx.class as int, mx.subst@);
                    lemma_pmatch_grow(ga, *g, rx.rhs.nodes@, rx.rhs.root(), mx.class as int, mx.subst@);
                } else {
                    lemma_pmatch_grow(g0, *g, rx.lhs.nodes@, rx.lhs.root(), mx.class as int, mx.subst@);
                    lemma_pmatch_grow(gb, *g, rx.rhs.nodes@, rx.rhs.root(), id as int, mx.subst@);
                    gb.lemma_wf(id as int);
                    gb.lemma_wf(mx.class as int);
                    assert(g.equiv(id as int, mx.class as int));
                    lemma_pmatch_root(*g, rx.rhs.nodes@, rx.rhs.root(), id as int, mx.class as int, mx.subst@);
                }
            }
            if !grew && !merged {
                assert(gb == ga) by {
                    assert(gb.len() == ga.len());
                }
            }
        }
        if grew || merged {
            changed = true;
        }
        i = i + 1;
    }
    changed
}

} // verus!
