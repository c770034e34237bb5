use vstd::prelude::*;
use crate::cost::{FpCost, lemma_tree_costs_len, lemma_tree_costs_prefix, sat, seq_sum, tree_costs};
use crate::cse::{extract_common_subexpressions, shared_cost, shared_text};
use crate::egraph::{EGraph, expr_embedded, expr_in, in_class};
use crate::extract::{Extractor, lemma_sum_mono, lemma_sum_nonneg, node_cost, opt_le, operand_costs, unwrap_all};
use crate::lang::{Expr, Node, op_ok};
use crate::rewrite::{has_const, lemma_pmatch_root, Rewrite, apply_matches, rules_ok, search_rules, rule_matches, found_match, match_ok, lemma_pmatch_grow, lemma_pmatch_agree, lemma_agrees_grow, agrees, pmatch};

verus! {

/// Position `p` stays represented as the graph grows, also under ids that
/// agree on `p` and its operands.
proof fn lemma_expr_in_grow(g: EGraph, h: EGraph, nodes: Seq<Node>, ids: Seq<usize>, ids2: Seq<usize>, p: int, m: int)
    requires
        g.wf(),
        g.grows_to(h),
        crate::lang::nodes_ok(nodes, m),
        0 <= p < nodes.len(),
        p < ids.len(),
        p < ids2.len(),
        forall|x: int| 0 <= x <= p ==> #[trigger] ids2[x] == ids[x],
        forall|x: int| 0 <= x <= p ==> #[trigger] ids[x] < g.len(),
        expr_in(g, nodes, ids, p),
    ensures
        expr_in(h, nodes, ids2, p),
{
    assert(crate::lang::node_ok(nodes[p], p, m));
    let ch = Seq::new(nodes[p].children@.len(), |k: int| ids[nodes[p].children@[k] as int]);
    let ch2 = Seq::new(nodes[p].children@.len(), |k: int| ids2[nodes[p].children@[k] as int]);
    assert(ch =~= ch2);
    let j = choose|j: int| #[trigger] in_class(g, ids[p] as int, j) && g.node_matches(j, nodes[p].op, ch);
    g.lemma_wf(j);
    g.lemma_wf(ids[p] as int);
    assert(g.equiv(j, ids[p] as int));
    assert(h.node_seq()[j] == g.node_seq().subrange(0, g.len())[j]);
    assert(h.node_seq()[j] == h.node_seq().subrange(0, g.len())[j]);
    assert forall|k: int| 0 <= k < ch.len() implies h.root(#[trigger] h.node_seq()[j].children@[k] as int) == h.root(
        ch[k] as int,
    ) by {
        let x = g.node_seq()[j].children@[k] as int;
        g.lemma_wf(x);
        let q = nodes[p].children@[k] as int;
        assert(ids[q] < g.len());
        assert(g.equiv(x, ch[k] as int));
    }
    assert(in_class(h, ids2[p] as int, j));
    assert(h.node_matches(j, nodes[p].op, ch2));
}

/// Adds every node of `e` to `g`, operands first, and returns the class of
/// each position.
pub fn add_expr(g: &mut EGraph, e: &Expr) -> (ids: Vec<usize>)
    requires
        old(g).wf(),
        e.wf(),
    ensures
        final(g).wf(),
        old(g).grows_to(*final(g)),
        expr_embedded(*final(g), e.nodes@, ids@),
        old(g).ops_ok(e.names@.len() as int) ==> final(g).ops_ok(e.names@.len() as int),
{
    let ghost g0 = *g;
    let ghost m = e.names@.len() as int;
    let n = e.nodes.len();
    let mut ids: Vec<usize> = Vec::new();
    proof {
        assert(g.node_seq().subrange(0, g.len()) =~= g.node_seq());
    }
    let mut p: usize = 0;
    while p < n
        invariant
            g.wf(),
            e.wf(),
            m == e.names@.len(),
            n == e.nodes@.len(),
            g0.grows_to(*g),
            g0.ops_ok(m) ==> g.ops_ok(m),
            p <= n,
            ids@.len() == p,
            forall|q: int| 0 <= q < p ==> #[trigger] ids@[q] < g.len(),
            forall|q: int| 0 <= q < p ==> #[trigger] expr_in(*g, e.nodes@, ids@, q),
        decreases n - p,
    {
        let node = &e.nodes[p];
        proof {
            assert(crate::lang::node_ok(e.nodes@[p as int], p as int, m));
        }
        let mut chs: Vec<usize> = Vec::new();
        let mut k: usize = 0;
        while k < node.children.len()
            invariant
                *node == e.nodes@[p as int],
                forall|q: int| 0 <= q < node.children@.len() ==> 0 <= #[trigger] node.children@[q] < p,
                ids@.len() == p,
                forall|q: int| 0 <= q < p ==> #[trigger] ids@[q] < g.len(),
                k <= node.children@.len(),
                chs@.len() == k,
                forall|q: int| 0 <= q < k ==> #[trigger] chs@[q] == ids@[node.children@[q] as int],
            decreases node.children@.len() - k,
        {
            chs.push(ids[node.children[k]]);
            k = k + 1;
        }
        let ghost ga = *g;
        let ghost ids0 = ids@;
        let id = g.add(node.op, &chs);
        ids.push(id);
        proof {
            assert forall|q: int| 0 <= q < p + 1 implies #[trigger] ids@[q] < g.len() by {}
            assert forall|q: int| 0 <= q < p + 1 implies #[trigger] expr_in(*g, e.nodes@, ids@, q) by {
                if q < p {
                    lemma_expr_in_grow(ga, *g, e.nodes@, ids0, ids@, q, m);
                } else {
                    let j = choose|j: int| 0 <= j < g.len() && g.root(j) == id && #[trigger] g.node_matches(j, node.op, chs@);
                    g.lemma_wf(id as int);
                    assert(chs@ =~= Seq::new(node.children@.len(), |k: int| ids@[node.children@[k] as int]));
                    assert(in_class(*g, ids@[q] as int, j));
                }
            }
            assert(g0.grows_to(*g)) by {
                assert(g.node_seq().subrange(0, g0.len()) =~= g.node_seq().subrange(0, ga.len()).subrange(0, g0.len()));
                assert forall|a: int, b: int| 0 <= a < g0.len() && 0 <= b < g0.len() && #[trigger] g0.equiv(a, b)
                    implies g.equiv(a, b) by {
                    assert(ga.equiv(a, b));
                }
            }
            if g0.ops_ok(m) {
                assert(op_ok(node.op, m));
            }
        }
        p = p + 1;
    }
    ids
}

/// Why a run ended.
#[derive(Clone, Copy, Debug, PartialEq, Eq, Structural)]
pub enum StopReason {
    /// A round left the numbers of nodes and of classes as they were.
    Saturated,
    /// The ceiling on rounds was reached.
    IterationLimit,
    /// The graph grew past the ceiling on nodes.
    NodeLimit,
}

/// One round: all matches of all rules are collected on the graph as it is,
/// then applied as a batch, then the graph is rebuilt. After it, wherever a
/// rule matched at the start, its right side matches the same class under the
/// same bindings. Returns whether the numbers of nodes or classes changed.
pub fn run_once(g: &mut EGraph, rules: &Vec<Rewrite>) -> (r: bool)
    requires
        old(g).wf(),
        rules_ok(rules@),
    ensures
        final(g).wf(),
        final(g).closed(),
        old(g).grows_to(*final(g)),
        forall|m: int| #[trigger] old(g).ops_ok(m) && m >= 0 ==> final(g).ops_ok(m),
        !r ==> *final(g) == *old(g),
        r ==> final(g).len() != old(g).len() || final(g).class_count() != old(g).class_count(),
        old(g).progressed(*final(g)),
        forall|ri: int, c: int, t: Seq<Option<usize>>|
            #[trigger] rule_matches(*old(g), rules@, ri, c, t) ==> pmatch(
                *final(g),
                rules@[ri].rhs.nodes@,
                rules@[ri].rhs.root(),
                c,
                t,
            ),
{
    let ghost g0 = *g;
    let size0 = g.size();
    let classes0 = g.num_classes();
    let ms = search_rules(g, rules);
    apply_matches(g, rules, &ms);
    let ghost g1 = *g;
    g.rebuild();
    proof {
        assert forall|ri: int, c: int, t: Seq<Option<usize>>|
            #[trigger] rule_matches(g0, rules@, ri, c, t) implies pmatch(*g, rules@[ri].rhs.nodes@, rules@[ri].rhs.root(), c, t) by {
            assert(found_match(g0, ms@, ri, c, t));
            let x = choose|x: int|
                0 <= x < ms@.len() && ms@[x].rule == ri && ms@[x].class == c && #[trigger] agrees(g0, ms@[x].subst@, t);
            let m = ms@[x];
            assert(match_ok(g0, rules@, m));
            let a = m.subst@;
            let rule = rules@[ri];
            assert(pmatch(g1, rule.rhs.nodes@, rule.rhs.root(), c, a));
            assert forall|v: int| 0 <= v < a.len() && (#[trigger] a[v]) is Some implies a[v]->0 < g1.len() by {}
            lemma_pmatch_grow(g1, *g, rule.rhs.nodes@, rule.rhs.root(), c, a);
            assert(g0.grows_to(*g)) by {
                assert(g.node_seq().subrange(0, g0.len()) =~= g.node_seq().subrange(0, g1.len()).subrange(0, g0.len()));
                assert forall|p: int, q: int| 0 <= p < g0.len() && 0 <= q < g0.len() && #[trigger] g0.equiv(p, q)
                    implies g.equiv(p, q) by {
                    assert(g1.equiv(p, q));
                }
            }
            lemma_agrees_grow(g0, *g, a, t);
            lemma_pmatch_agree(*g, rule.rhs.nodes@, rule.rhs.root(), c, a, t);
        }
        crate::egraph::lemma_progress_trans(g0, g1, *g);
        assert(g.node_seq().subrange(0, g0.len()) =~= g.node_seq().subrange(0, g1.len()).subrange(0, g0.len()));
        assert forall|a: int, b: int| 0 <= a < g0.len() && 0 <= b < g0.len() && #[trigger] g0.equiv(a, b) implies g.equiv(
            a,
            b,
        ) by {
            assert(g1.equiv(a, b));
        }
        assert forall|m: int| #[trigger] g0.ops_ok(m) && m >= 0 implies g.ops_ok(m) by {
            assert(g1.ops_ok(m));
        }
    }
    g.size() != size0 || g.num_classes() != classes0
}

/// A class of `g` holding a constant still holds one as the graph grows.
proof fn lemma_has_const_grow(g: EGraph, h: EGraph, x: int)
    requires
        g.wf(),
        g.grows_to(h),
        0 <= x < g.len(),
        has_const(g, x),
    ensures
        has_const(h, x),
{
    let j = choose|j: int| #[trigger] in_class(g, x, j) && (g.node_seq()[j].op is Num || g.node_seq()[j].op is Xi);
    g.lemma_wf(j);
    g.lemma_wf(x);
    assert(g.equiv(j, x));
    assert(h.node_seq()[j] == g.node_seq().subrange(0, g.len())[j]);
    assert(h.node_seq()[j] == h.node_seq().subrange(0, g.len())[j]);
    assert(in_class(h, x, j));
}

/// A rule that matches at a class of `g` still matches, at the class's
/// canonical id, once the graph has grown to `h`.
proof fn lemma_rule_matches_grow(g: EGraph, h: EGraph, rules: Seq<Rewrite>, ri: int, c: int, t: Seq<Option<usize>>)
    requires
        g.wf(),
        h.wf(),
        g.grows_to(h),
        rules_ok(rules),
        rule_matches(g, rules, ri, c, t),
    ensures
        rule_matches(h, rules, ri, h.root(c), t),
        h.root(c) < h.len(),
{
    let rule = rules[ri];
    assert(rule.wf());
    g.lemma_wf(c);
    h.lemma_wf(c);
    lemma_pmatch_grow(g, h, rule.lhs.nodes@, rule.lhs.root(), c, t);
    lemma_pmatch_root(h, rule.lhs.nodes@, rule.lhs.root(), c, h.root(c), t);
    assert forall|v: int| 0 <= v < t.len() && (#[trigger] t[v]) is Some implies t[v]->0 < h.len() by {}
    if let Some(gd) = rule.guard {
        let a = gd.a as int;
        let b = gd.b as int;
        if t[a] is Some && has_const(g, t[a]->0 as int) {
            lemma_has_const_grow(g, h, t[a]->0 as int);
        }
        if t[b] is Some && has_const(g, t[b]->0 as int) {
            lemma_has_const_grow(g, h, t[b]->0 as int);
        }
    }
}

/// Runs rounds until one changes nothing, or a ceiling is reached: at most
/// `iter_limit` rounds, and none after a round that leaves the graph with
/// more than `node_limit` nodes. The graph is rebuilt first, so it ends
/// congruence-closed. Where at least one round is allowed, wherever a rule
/// matched at the start its right side matches the same class at the end.
/// When it saturates, wherever a rule matches, its right side matches the
/// same class. The ceiling on rounds is reported only after that many rounds,
/// each of which changed the graph.
pub fn run(g: &mut EGraph, rules: &Vec<Rewrite>, iter_limit: usize, node_limit: usize) -> (r: StopReason)
    requires
        old(g).wf(),
        rules_ok(rules@),
    ensures
        final(g).wf(),
        final(g).closed(),
        old(g).grows_to(*final(g)),
        forall|m: int| #[trigger] old(g).ops_ok(m) && m >= 0 ==> final(g).ops_ok(m),
        r == StopReason::NodeLimit ==> final(g).len() > node_limit,
        r == StopReason::Saturated ==> forall|ri: int, c: int, t: Seq<Option<usize>>|
            #[trigger] rule_matches(*final(g), rules@, ri, c, t) ==> pmatch(
                *final(g),
                rules@[ri].rhs.nodes@,
                rules@[ri].rhs.root(),
                c,
                t,
            ),
        iter_limit > 0 ==> forall|ri: int, c: int, t: Seq<Option<usize>>|
            #[trigger] rule_matches(*old(g), rules@, ri, c, t) ==> pmatch(
                *final(g),
                rules@[ri].rhs.nodes@,
                rules@[ri].rhs.root(),
                c,
                t,
            ),
        r == StopReason::IterationLimit ==> final(g).potential() >= old(g).potential() + iter_limit,
{
    let ghost g0 = *g;
    g.rebuild();
    let ghost gr = *g;
    proof {
        assert(gr.node_seq().subrange(0, gr.len()) =~= gr.node_seq());
    }
    let mut i: usize = 0;
    loop
        invariant
            g.wf(),
            g.closed(),
            g0.wf(),
            gr.wf(),
            rules_ok(rules@),
            g0.grows_to(gr),
            gr.grows_to(*g),
            g0.grows_to(*g),
            forall|m: int| #[trigger] g0.ops_ok(m) && m >= 0 ==> g.ops_ok(m),
            i <= iter_limit,
            g0 == *old(g),
            g.potential() >= g0.potential() + i,
            i == 0 ==> *g == gr,
            i > 0 ==> forall|ri: int, c: int, t: Seq<Option<usize>>|
                #[trigger] rule_matches(g0, rules@, ri, c, t) ==> pmatch(
                    *g,
                    rules@[ri].rhs.nodes@,
                    rules@[ri].rhs.root(),
                    gr.root(c),
                    t,
                ),
        ensures
            g.wf(),
            g.closed(),
            g0.grows_to(*g),
            gr.grows_to(*g),
            forall|m: int| #[trigger] g0.ops_ok(m) && m >= 0 ==> g.ops_ok(m),
        decreases iter_limit - i,
    {
        if i >= iter_limit {
            proof {
                lemma_run_end(g0, gr, *g, rules@, i as int);
            }
            return StopReason::IterationLimit;
        }
        if i > 0 && g.size() > node_limit {
            proof {
                lemma_run_end(g0, gr, *g, rules@, i as int);
            }
            return StopReason::NodeLimit;
        }
        let ghost ga = *g;
        let changed = run_once(g, rules);
        proof {
            lemma_grows_trans(g0, ga, *g);
            lemma_grows_trans(gr, ga, *g);
            assert forall|m: int| #[trigger] g0.ops_ok(m) && m >= 0 implies g.ops_ok(m) by {
                assert(ga.ops_ok(m));
            }
            assert forall|ri: int, c: int, t: Seq<Option<usize>>|
                #[trigger] rule_matches(g0, rules@, ri, c, t) implies pmatch(
                    *g,
                    rules@[ri].rhs.nodes@,
                    rules@[ri].rhs.root(),
                    gr.root(c),
                    t,
                ) by {
                let rule = rules@[ri];
                assert(rule.wf());
                lemma_rule_matches_grow(g0, gr, rules@, ri, c, t);
                if i == 0 {
                    assert(ga == gr);
                    assert(rule_matches(ga, rules@, ri, gr.root(c), t));
                } else {
                    assert(pmatch(ga, rule.rhs.nodes@, rule.rhs.root(), gr.root(c), t));
                    assert forall|v: int| 0 <= v < t.len() && (#[trigger] t[v]) is Some implies t[v]->0 < ga.len() by {}
                    lemma_pmatch_grow(ga, *g, rule.rhs.nodes@, rule.rhs.root(), gr.root(c), t);
                }
            }
            if changed {
                assert(*g != ga);
            }
        }
        if !changed {
            proof {
                assert forall|ri: int, c: int, t: Seq<Option<usize>>|
                    #[trigger] rule_matches(*g, rules@, ri, c, t) implies pmatch(
                        *g,
                        rules@[ri].rhs.nodes@,
                        rules@[ri].rhs.root(),
                        c,
                        t,
                    ) by {
                    assert(rule_matches(ga, rules@, ri, c, t));
                }
                lemma_run_end(g0, gr, *g, rules@, 1);
            }
            return StopReason::Saturated;
        }
        i = i + 1;
    }
}

proof fn lemma_grows_trans(a: EGraph, b: EGraph, c: EGraph)
    requires
        a.wf(),
        a.grows_to(b),
        b.grows_to(c),
    ensures
        a.grows_to(c),
{
    assert(c.node_seq().subrange(0, a.len()) =~= c.node_seq().subrange(0, b.len()).subrange(0, a.len()));
    assert forall|x: int, y: int| 0 <= x < a.len() && 0 <= y < a.len() && #[trigger] a.equiv(x, y) implies c.equiv(x, y) by {
        assert(b.equiv(x, y));
    }
}

/// At the end of a run after at least one round: what matched at the start
/// has its right side in the same class.
proof fn lemma_run_end(g0: EGraph, gr: EGraph, g: EGraph, rules: Seq<Rewrite>, i: int)
    requires
        g0.wf(),
        gr.wf(),
        g.wf(),
        rules_ok(rules),
        g0.grows_to(gr),
        gr.grows_to(g),
        i > 0 ==> forall|ri: int, c: int, t: Seq<Option<usize>>|
            #[trigger] rule_matches(g0, rules, ri, c, t) ==> pmatch(g, rules[ri].rhs.nodes@, rules[ri].rhs.root(), gr.root(c), t),
    ensures
        i > 0 ==> forall|ri: int, c: int, t: Seq<Option<usize>>|
            #[trigger] rule_matches(g0, rules, ri, c, t) ==> pmatch(g, rules[ri].rhs.nodes@, rules[ri].rhs.root(), c, t),
{
    if i > 0 {
        assert forall|ri: int, c: int, t: Seq<Option<usize>>|
            #[trigger] rule_matches(g0, rules, ri, c, t) implies pmatch(g, rules[ri].rhs.nodes@, rules[ri].rhs.root(), c, t) by {
            g0.lemma_wf(c);
            gr.lemma_wf(c);
            assert(gr.equiv(c, gr.root(c)));
            g.lemma_wf(c);
            lemma_pmatch_root(g, rules[ri].rhs.nodes@, rules[ri].rhs.root(), gr.root(c), c, t);
        }
    }
}

/// Every position of an expression that the graph holds costs, as extracted,
/// no more than its own tree does.
pub proof fn lemma_no_worse(ex: Extractor, g: EGraph, cf: FpCost, e: Expr, ids: Seq<usize>, p: int)
    requires
        g.wf(),
        ex.inv(g, cf),
        ex.fixpoint(g, cf),
        e.wf(),
        expr_embedded(g, e.nodes@, ids),
        0 <= p < e.nodes@.len(),
    ensures
        ex.best_of(g, ids[p] as int) is Some,
        ex.best_of(g, ids[p] as int)->0 <= tree_costs(cf, e.nodes@)[p],
    decreases p,
{
    let nodes = e.nodes@;
    let m = e.names@.len() as int;
    assert(crate::lang::node_ok(nodes[p], p, m));
    assert(expr_in(g, nodes, ids, p));
    let ch = Seq::new(nodes[p].children@.len(), |k: int| ids[nodes[p].children@[k] as int]);
    let j = choose|j: int| #[trigger] in_class(g, ids[p] as int, j) && g.node_matches(j, nodes[p].op, ch);
    g.lemma_wf(j);
    g.lemma_wf(ids[p] as int);
    // the tree cost of `p` from those of its operands
    let pre = nodes.subrange(0, p + 1);
    lemma_tree_costs_prefix(cf, pre, nodes);
    lemma_tree_costs_len(cf, pre.drop_last());
    assert(pre.drop_last() =~= nodes.subrange(0, p));
    lemma_tree_costs_prefix(cf, nodes.subrange(0, p), nodes);
    let prev = tree_costs(cf, nodes.subrange(0, p));
    let tcs = Seq::new(nodes[p].children@.len(), |k: int| prev[nodes[p].children@[k] as int]);
    assert(tree_costs(cf, nodes)[p] == tree_costs(cf, pre)[p]) by {
        assert(tree_costs(cf, nodes)[p] == tree_costs(cf, nodes).subrange(0, p + 1)[p]);
    }
    assert(pre.len() == p + 1);
    crate::cost::lemma_seq_sum_nonneg(tcs);
    lemma_tree_costs_len(cf, nodes.subrange(0, p));
    assert(pre.last() == nodes[p]);
    assert(tree_costs(cf, pre) == prev.push(sat(cf.weight_of(nodes[p].op) + seq_sum(tcs)) as u64));
    assert(tree_costs(cf, nodes)[p] == sat(cf.weight_of(nodes[p].op) + seq_sum(tcs)));
    // the cost of the member node from the recorded costs of its operands
    let oc = operand_costs(g, ex.best_seq(), j);
    assert forall|k: int| 0 <= k < oc.len() implies (#[trigger] oc[k]) is Some && oc[k]->0 <= tcs[k] by {
        let q = nodes[p].children@[k] as int;
        lemma_no_worse(ex, g, cf, e, ids, q);
        let x = g.node_seq()[j].children@[k] as int;
        g.lemma_wf(x);
        assert(g.root(x) == g.root(ids[q] as int));
        assert(prev[q] == tree_costs(cf, nodes)[q]);
    }
    lemma_sum_mono(unwrap_all(oc), tcs);
    lemma_sum_nonneg(unwrap_all(oc));
    assert(node_cost(cf, g, ex.best_seq(), j) is Some);
    assert(opt_le(ex.best_seq()[g.root(j)], node_cost(cf, g, ex.best_seq(), j)));
}

/// Outcome of optimizing one expression.
pub struct Optimized {
    /// Cost of the input's tree.
    pub original_cost: u64,
    /// The cheapest expression found, and its tree cost.
    pub best: Expr,
    pub best_cost: u64,
    /// The cheapest expression with its shared trees bound, and its cost with
    /// each bound tree charged once.
    pub shared_cost: u64,
    pub text: Vec<u8>,
    pub stop: StopReason,
}

/// Optimizes `e`: seeds a graph with it, saturates it with `rules` within the
/// ceilings, extracts a cheapest expression of its root class under `cf`, and
/// binds that expression's shared trees. The result never costs more than
/// the input, lies in the input's class of the saturated graph, and is
/// cheapest there at every position.
pub fn optimize(e: &Expr, rules: &Vec<Rewrite>, cf: &FpCost, iter_limit: usize, node_limit: usize) -> (r: Optimized)
    requires
        e.wf(),
        cf.wf(),
        rules_ok(rules@),
    ensures
        r.original_cost == tree_costs(*cf, e.nodes@)[e.root()],
        r.best.wf(),
        r.best.names@.len() == e.names@.len(),
        r.best_cost == tree_costs(*cf, r.best.nodes@)[r.best.root()],
        r.best_cost <= r.original_cost,
        r.shared_cost == shared_cost(*cf, r.best),
        r.text@ == shared_text(r.best),
        exists|g1: EGraph, g: EGraph, ex: Extractor, a: Seq<usize>, b: Seq<usize>|
            #[trigger] optimum_of(g1, g, ex, *cf, rules@, iter_limit as int, e.nodes@, r.best.nodes@, a, b),
{
    let original_cost = cf.tree_cost(e);
    let mut g = EGraph::new();
    let ids = add_expr(&mut g, e);
    let ghost g1 = g;
    let stop = run(&mut g, rules, iter_limit, node_limit);
    let root = ids[e.nodes.len() - 1];
    proof {
        lemma_expr_embedded_grow(g1, g, e.nodes@, ids@, e.names@.len() as int);
    }
    let ex = Extractor::new(&g, cf);
    let names = e.names.clone();
    let (best_cost, best) = ex.find_best(&g, cf, root, names);
    proof {
        lemma_no_worse(ex, g, *cf, *e, ids@, e.nodes@.len() - 1);
    }
    let ghost bb = choose|b: Seq<usize>|
        expr_embedded(g, best.nodes@, b) && g.root(#[trigger] b[best.root()] as int) == g.root(root as int)
            && ex.cheapest_everywhere(g, *cf, best.nodes@, b);
    proof {
        assert(optimum_of(g1, g, ex, *cf, rules@, iter_limit as int, e.nodes@, best.nodes@, ids@, bb));
    }
    let (shared_cost, text) = extract_common_subexpressions(&best, cf);
    let r = Optimized { original_cost, best, best_cost, shared_cost, text, stop };
    assert(optimum_of(g1, g, ex, *cf, rules@, iter_limit as int, e.nodes@, r.best.nodes@, ids@, bb));
    r
}

/// `g1` is a graph seeded with `input`, and `g` the congruence-closed graph
/// it grew into: where a round was allowed, every match of a rule on `g1`
/// has the rule's right side in the same class of `g`. `g` holds `input` and
/// `best` in one class; `ex` has relaxed its costs to the fixpoint, and every
/// position of `best` is a cheapest member of its class.
pub open spec fn optimum_of(
    g1: EGraph,
    g: EGraph,
    ex: Extractor,
    cf: FpCost,
    rules: Seq<Rewrite>,
    iter_limit: int,
    input: Seq<Node>,
    best: Seq<Node>,
    a: Seq<usize>,
    b: Seq<usize>,
) -> bool {
    &&& g1.wf()
    &&& expr_embedded(g1, input, a)
    &&& g1.grows_to(g)
    &&& iter_limit > 0 ==> forall|ri: int, c: int, t: Seq<Option<usize>>|
        #[trigger] rule_matches(g1, rules, ri, c, t) ==> pmatch(g, rules[ri].rhs.nodes@, rules[ri].rhs.root(), c, t)
    &&& g.wf()
    &&& g.closed()
    &&& ex.inv(g, cf)
    &&& ex.fixpoint(g, cf)
    &&& expr_embedded(g, input, a)
    &&& expr_embedded(g, best, b)
    &&& g.root(a[input.len() - 1] as int) == g.root(b[best.len() - 1] as int)
    &&& ex.cheapest_everywhere(g, cf, best, b)
}

proof fn lemma_expr_embedded_grow(g: EGraph, h: EGraph, nodes: Seq<Node>, ids: Seq<usize>, m: int)
    requires
        g.wf(),
        g.grows_to(h),
        crate::lang::nodes_ok(nodes, m),
        expr_embedded(g, nodes, ids),
    ensures
        expr_embedded(h, nodes, ids),
{
    assert forall|p: int| 0 <= p < nodes.len() implies #[trigger] ids[p] < h.len() by {
        assert(ids[p] < g.len());
    }
    assert forall|p: int| 0 <= p < nodes.len() implies #[trigger] expr_in(h, nodes, ids, p) by {
        lemma_expr_in_grow(g, h, nodes, ids, ids, p, m);
    }
}

} // verus!
