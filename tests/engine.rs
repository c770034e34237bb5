use fpopt::analysis::ConstantFolding;
use fpopt::cost::{CostKey, FpCost};
use fpopt::cse::extract_common_subexpressions;
use fpopt::egraph::EGraph;
use fpopt::extract::Extractor;
use fpopt::lang::{Arith, Expr, Level, Node, Op};
use fpopt::parse::{is_const, parse_expr, ParseError};
use fpopt::rewrite::Rewrite;
use fpopt::runner::{optimize, run, StopReason};

fn b(s: &str) -> Vec<u8> {
    s.as_bytes().to_vec()
}

fn text(v: &[u8]) -> String {
    String::from_utf8(v.to_vec()).unwrap()
}

fn expr(s: &str) -> Expr {
    parse_expr(&b(s)).unwrap()
}

fn rule(name: &str, lhs: &str, rhs: &str) -> Rewrite {
    Rewrite::new(b(name), &b(lhs), &b(rhs), None).unwrap()
}

fn costs(add: u64, mult: u64, square: u64) -> FpCost {
    FpCost::new(&vec![
        (Level::Fp, CostKey::Add, add),
        (Level::Fp, CostKey::Mult, mult),
        (Level::Fp, CostKey::Square, square),
    ])
}

fn add_op(l: Level) -> Op {
    Op::Arith(Arith::Add, l)
}

#[test]
fn scale_by_two_becomes_doubling() {
    let e = expr("(* 2 a)");
    let rules = vec![rule("mul_const", "(* 2 ?a)", "(+ ?a ?a)")];
    let cf = costs(1000, 1000, 800);
    let r = optimize(&e, &rules, &cf, 10, 1000);
    assert_eq!(text(&r.best.to_text()), "(+ a a)");
    assert_eq!(r.original_cost, 1000);
    assert_eq!(r.best_cost, 1000);
    assert_eq!(r.stop, StopReason::Saturated);
}

#[test]
fn doubling_not_chosen_when_add_costs_more() {
    let e = expr("(* 2 a)");
    let rules = vec![rule("mul_const", "(* 2 ?a)", "(+ ?a ?a)")];
    let cf = costs(5000, 1000, 800);
    let r = optimize(&e, &rules, &cf, 10, 1000);
    assert_eq!(text(&r.best.to_text()), "(* 2 a)");
    assert_eq!(r.best_cost, 1000);
}

#[test]
fn square_detection_preferred_when_cheaper() {
    let e = expr("(* a a)");
    let rules = vec![rule("mulsquare", "(* ?x ?x)", "(square ?x)")];
    let cf = costs(100, 1000, 800);
    let r = optimize(&e, &rules, &cf, 10, 1000);
    assert_eq!(text(&r.best.to_text()), "(square a)");
    assert_eq!(r.best_cost, 800);
    assert_eq!(r.original_cost, 1000);
}

#[test]
fn square_not_preferred_when_dearer() {
    let e = expr("(* a a)");
    let rules = vec![rule("mulsquare", "(* ?x ?x)", "(square ?x)")];
    let cf = costs(100, 1000, 1200);
    let r = optimize(&e, &rules, &cf, 10, 1000);
    assert_eq!(text(&r.best.to_text()), "(* a a)");
}

#[test]
fn shared_subtree_bound_once() {
    let e = expr("(* (+ x y) (+ x y))");
    let cf = costs(1, 10, 8);
    let (cost, out) = extract_common_subexpressions(&e, &cf);
    assert_eq!(text(&out), "let t0 = (+ x y)\n(* t0 t0)");
    assert_eq!(cost, 11);
    assert_eq!(cf.tree_cost(&e), 12);
}

#[test]
fn shared_cost_drops_repeats() {
    // a subtree of cost 10 that occurs three times
    let e = expr("(+ (+ (* x y) (* x y)) (* x y))");
    let cf = costs(1, 10, 8);
    let (cost, out) = extract_common_subexpressions(&e, &cf);
    assert_eq!(cf.tree_cost(&e), 32);
    assert_eq!(cost, 32 - 2 * 10);
    assert_eq!(text(&out), "let t0 = (* x y)\n(+ (+ t0 t0) t0)");
}

#[test]
fn nested_shared_subtrees_in_order() {
    let e = expr("(+ (* (+ a b) (+ a b)) (* (+ a b) (+ a b)))");
    let cf = costs(1, 10, 8);
    let (cost, out) = extract_common_subexpressions(&e, &cf);
    assert_eq!(text(&out), "let t0 = (+ a b)\nlet t1 = (* t0 t0)\n(+ t1 t1)");
    assert_eq!(cost, 12);
}

#[test]
fn leaves_never_bound() {
    let e = expr("(+ (* x x) y)");
    let cf = costs(1, 10, 8);
    let (cost, out) = extract_common_subexpressions(&e, &cf);
    assert_eq!(text(&out), "(+ (* x x) y)");
    assert_eq!(cost, 11);
}

#[test]
fn missing_weight_is_zero() {
    let cf = FpCost::new(&vec![(Level::Fp, CostKey::Mult, 7)]);
    assert_eq!(cf.weight(Op::Arith(Arith::Mul, Level::Fp)), 7);
    assert_eq!(cf.weight(Op::Arith(Arith::Mul, Level::Fp12)), 0);
    assert_eq!(cf.weight(Op::Arith(Arith::Add, Level::Fp)), 0);
    assert_eq!(cf.weight(Op::Num(3)), 0);
    assert_eq!(cf.weight(Op::Fp2), 0);
}

#[test]
fn subtraction_weighed_as_addition() {
    let cf = FpCost::new(&vec![(Level::Fp2, CostKey::Add, 3)]);
    assert_eq!(cf.weight(Op::Arith(Arith::Sub, Level::Fp2)), 3);
    assert_eq!(cf.weight(add_op(Level::Fp2)), 3);
    assert_eq!(cf.cost(Op::Arith(Arith::Sub, Level::Fp2), &vec![4, 5]), 12);
}

#[test]
fn later_entry_wins() {
    let cf = FpCost::new(&vec![(Level::Fp, CostKey::Add, 3), (Level::Fp, CostKey::Add, 9)]);
    assert_eq!(cf.weight(add_op(Level::Fp)), 9);
}

#[test]
fn node_cost_saturates() {
    let cf = costs(5, 1, 1);
    assert_eq!(cf.cost(add_op(Level::Fp), &vec![u64::MAX - 1, 3]), u64::MAX);
}

#[test]
fn single_constant_one_class() {
    let mut g = EGraph::new();
    let c = g.add(Op::Num(7), &vec![]);
    g.rebuild();
    assert_eq!(g.size(), 1);
    assert_eq!(g.num_classes(), 1);
    assert_eq!(g.datum(c), Some(7));
}

#[test]
fn folded_constant_gets_literal() {
    let mut g = EGraph::new();
    let two = g.add(Op::Num(2), &vec![]);
    let three = g.add(Op::Num(3), &vec![]);
    let sum = g.add(add_op(Level::Fp), &vec![two, three]);
    assert_eq!(g.datum(sum), Some(5));
    g.rebuild();
    let five = g.add(Op::Num(5), &vec![]);
    assert_eq!(g.find(five), g.find(sum));
    assert_eq!(g.num_classes(), 3);
}

#[test]
fn unknown_operand_stays_unknown() {
    assert_eq!(ConstantFolding::make(add_op(Level::Fp), &vec![Some(2), None]), None);
    assert_eq!(ConstantFolding::make(Op::Arith(Arith::Sub, Level::Fp), &vec![Some(2), Some(5)]), None);
    assert_eq!(ConstantFolding::make(Op::Arith(Arith::Sub, Level::Fp), &vec![Some(5), Some(2)]), Some(3));
    assert_eq!(ConstantFolding::make(Op::Arith(Arith::Square, Level::Fp), &vec![Some(4)]), Some(16));
    assert_eq!(ConstantFolding::make(Op::Arith(Arith::ConstMul, Level::Fp), &vec![Some(4), Some(6)]), Some(24));
    assert_eq!(ConstantFolding::make(Op::Arith(Arith::Mul, Level::Fp), &vec![Some(4), Some(6)]), Some(24));
    assert_eq!(ConstantFolding::make(Op::Arith(Arith::Mul, Level::Fp), &vec![Some(u64::MAX), Some(2)]), None);
    assert_eq!(ConstantFolding::make(add_op(Level::Fp2), &vec![Some(4), Some(6)]), None);
    assert_eq!(ConstantFolding::make(add_op(Level::Fp), &vec![Some(u64::MAX), Some(1)]), None);
    assert_eq!(ConstantFolding::make(Op::Num(9), &vec![]), Some(9));
}

#[test]
fn merge_keeps_known_constant() {
    let mut d: Option<u64> = Some(3);
    let r = ConstantFolding::merge(&mut d, None);
    assert_eq!(d, Some(3));
    assert!(!r.to_changed);
    assert!(r.from_changed);
    let r = ConstantFolding::merge(&mut d, Some(5));
    assert_eq!(d, Some(5));
    assert!(r.to_changed);
    let r = ConstantFolding::merge(&mut d, Some(5));
    assert_eq!(d, Some(5));
    assert!(!r.to_changed);
    assert!(!r.from_changed);
    let mut u: Option<u64> = None;
    ConstantFolding::merge(&mut u, Some(1));
    assert_eq!(u, Some(1));
}

#[test]
fn witness_is_literal() {
    assert_eq!(ConstantFolding::witness(Some(4)), Some(Op::Num(4)));
    assert_eq!(ConstantFolding::witness(None), None);
}

#[test]
fn congruence_after_rebuild() {
    let mut g = EGraph::new();
    let a = g.add(Op::Sym(0), &vec![]);
    let bb = g.add(Op::Sym(1), &vec![]);
    let fa = g.add(Op::Arith(Arith::Inv, Level::Fp), &vec![a]);
    let fb = g.add(Op::Arith(Arith::Inv, Level::Fp), &vec![bb]);
    assert_ne!(g.find(fa), g.find(fb));
    assert!(g.union(a, bb));
    g.rebuild();
    assert_eq!(g.find(fa), g.find(fb));
    assert_eq!(g.num_classes(), 2);
}

#[test]
fn union_keeps_lower_id() {
    let mut g = EGraph::new();
    let a = g.add(Op::Sym(0), &vec![]);
    let bb = g.add(Op::Sym(1), &vec![]);
    assert!(g.union(bb, a));
    assert_eq!(g.find(bb), a);
    assert_eq!(g.find(a), a);
}

#[test]
fn find_is_idempotent_and_self_union_no_op() {
    let mut g = EGraph::new();
    let a = g.add(Op::Sym(0), &vec![]);
    let bb = g.add(Op::Sym(1), &vec![]);
    let c = g.add(Op::Sym(2), &vec![]);
    g.union(c, bb);
    g.union(bb, a);
    let r = g.find(c);
    assert_eq!(g.find(r), r);
    let before = g.num_classes();
    assert!(!g.union(c, c));
    assert!(!g.union(c, a));
    assert_eq!(g.num_classes(), before);
}

#[test]
fn add_is_hash_consed() {
    let mut g = EGraph::new();
    let a = g.add(Op::Sym(0), &vec![]);
    let x = g.add(add_op(Level::Fp), &vec![a, a]);
    let y = g.add(add_op(Level::Fp), &vec![a, a]);
    assert_eq!(x, y);
    assert_eq!(g.size(), 2);
}

#[test]
fn extraction_picks_cheapest_member() {
    let mut g = EGraph::new();
    let a = g.add(Op::Sym(0), &vec![]);
    let m = g.add(Op::Arith(Arith::Mul, Level::Fp), &vec![a, a]);
    let s = g.add(Op::Arith(Arith::Square, Level::Fp), &vec![a]);
    g.union(m, s);
    g.rebuild();
    let cf = costs(1, 10, 6);
    let ex = Extractor::new(&g, &cf);
    let (cost, e) = ex.find_best(&g, &cf, m, vec![b("a")]);
    assert_eq!(cost, 6);
    assert_eq!(text(&e.to_text()), "(square a)");
}

#[test]
fn extraction_survives_cycles() {
    // a class that holds (+ c 0) next to c itself
    let mut g = EGraph::new();
    let c = g.add(Op::Sym(0), &vec![]);
    let z = g.add(Op::Num(0), &vec![]);
    let p = g.add(add_op(Level::Fp), &vec![c, z]);
    g.union(c, p);
    g.rebuild();
    let cf = FpCost::new(&vec![]);
    let ex = Extractor::new(&g, &cf);
    let (cost, e) = ex.find_best(&g, &cf, p, vec![b("c")]);
    assert_eq!(cost, 0);
    assert_eq!(text(&e.to_text()), "c");
}

#[test]
fn guard_fires_only_on_constants() {
    let rules = vec![Rewrite::new(
        b("mul_to_constmul"),
        &b("(* ?a ?b)"),
        &b("(constmul ?a ?b)"),
        Some(is_const(&b("?a"), &b("?b"))),
    )
    .unwrap()];
    let cf = FpCost::new(&vec![(Level::Fp, CostKey::Mult, 10), (Level::Fp, CostKey::ConstMult, 2)]);
    let r = optimize(&expr("(* 3 x)"), &rules, &cf, 10, 1000);
    assert_eq!(text(&r.best.to_text()), "(constmul 3 x)");
    let r = optimize(&expr("(* y x)"), &rules, &cf, 10, 1000);
    assert_eq!(text(&r.best.to_text()), "(* y x)");
    let r = optimize(&expr("(* y ξ)"), &rules, &cf, 10, 1000);
    assert_eq!(text(&r.best.to_text()), "(constmul y ξ)");
}

#[test]
fn runner_stops_on_ceilings() {
    let rules = vec![rule("commute-add", "(+ ?a ?b)", "(+ ?b ?a)")];
    let e = expr("(+ x y)");
    let mut g = EGraph::new();
    fpopt::runner::add_expr(&mut g, &e);
    assert_eq!(run(&mut g, &rules, 0, 1000), StopReason::IterationLimit);
    assert_eq!(run(&mut g, &rules, 10, 0), StopReason::NodeLimit);
    assert_eq!(run(&mut g, &rules, 10, 1000), StopReason::Saturated);
    assert_eq!(g.num_classes(), 3);
}

#[test]
fn saturation_finds_constant_through_folding() {
    let rules = vec![rule("add_const0", "(+ 0 ?a)", "?a")];
    let cf = costs(1, 10, 8);
    let r = optimize(&expr("(+ (- 2 2) x)"), &rules, &cf, 10, 1000);
    assert_eq!(text(&r.best.to_text()), "x");
    assert_eq!(r.best_cost, 0);
    assert_eq!(r.original_cost, 2);
}

#[test]
fn optimize_reports_shared_form() {
    let rules = vec![rule("mulsquare", "(* ?x ?x)", "(square ?x)")];
    let cf = costs(1, 10, 4);
    let r = optimize(&expr("(+ (* (+ a b) (+ a b)) (* c d))"), &rules, &cf, 10, 1000);
    assert_eq!(text(&r.best.to_text()), "(+ (square (+ a b)) (* c d))");
    assert_eq!(r.best_cost, 16);
    assert_eq!(r.shared_cost, 16);
    assert_eq!(text(&r.text), "(+ (square (+ a b)) (* c d))");
    assert_eq!(r.original_cost, 13 + 10);
}

#[test]
fn print_parse_round_trip() {
    let src = "(Fp2 (+2 x0 (*2 ξ 12)) (square6 (inv2 y)))";
    let e = expr(src);
    let out = e.to_text();
    assert_eq!(text(&out), src);
    let again = parse_expr(&out).unwrap();
    assert_eq!(again.to_text(), out);
    assert_eq!(again.nodes.len(), e.nodes.len());
}

#[test]
fn parse_spacing_is_free() {
    let e = expr("  ( +\n\ta   (constmul12 1 b) )  ");
    assert_eq!(text(&e.to_text()), "(+ a (constmul12 1 b))");
}

#[test]
fn parse_constants_and_symbols() {
    let e = expr("(+ 0042 x)");
    assert_eq!(e.nodes[0].op, Op::Sym(0));
    assert_eq!(text(&e.to_text()), "(+ 0042 x)");
    assert_eq!(expr("(+ 42 x)").nodes[0].op, Op::Num(42));
    assert_eq!(text(&expr("  (+ 42\n x)\n").to_text()), "(+ 42 x)");
    let big = expr("18446744073709551616");
    assert_eq!(big.nodes[0].op, Op::Sym(0));
    let same = expr("(+ x x)");
    assert_eq!(same.names.len(), 1);
    assert_eq!(expr("ξ").nodes[0].op, Op::Xi);
}

#[test]
fn parse_errors() {
    assert!(matches!(parse_expr(&b("(+ a")), Err(ParseError::UnexpectedEnd)));
    assert!(matches!(parse_expr(&b("")), Err(ParseError::UnexpectedEnd)));
    assert!(matches!(parse_expr(&b(")")), Err(ParseError::UnexpectedClose(0))));
    assert!(matches!(parse_expr(&b("a b")), Err(ParseError::TrailingInput(2))));
    assert!(matches!(parse_expr(&b("(+)")), Err(ParseError::EmptyList(0))));
    assert!(matches!(parse_expr(&b("((+ a b) c)")), Err(ParseError::BadHead(1))));
    assert!(matches!(parse_expr(&b("(foo a)")), Err(ParseError::UnknownOp(_))));
    assert!(matches!(parse_expr(&b("(inv4 a)")), Err(ParseError::UnknownOp(_))));
    assert!(matches!(parse_expr(&b("(+ a)")), Err(ParseError::ArityMismatch(_, 1))));
    assert!(matches!(parse_expr(&b("(Fp6 a b)")), Err(ParseError::ArityMismatch(_, 2))));
}

#[test]
fn rule_errors() {
    assert!(matches!(
        Rewrite::new(b("r"), &b("(+ a ?b)"), &b("?b"), None),
        Err(ParseError::BadLeaf(_))
    ));
    assert!(matches!(
        Rewrite::new(b("r"), &b("(+ ?a ?b)"), &b("?c"), None),
        Err(ParseError::UnboundVariable(_))
    ));
    assert!(matches!(
        Rewrite::new(b("r"), &b("(+ ?a ?b)"), &b("?a"), Some(is_const(&b("?a"), &b("?z")))),
        Err(ParseError::UnboundVariable(_))
    ));
    assert!(Rewrite::new(b("r"), &b("(+ ?a ?b)"), &b("(+ ?b ?a)"), None).is_ok());
}

#[test]
fn tree_cost_counts_repeats() {
    let cf = costs(1, 10, 8);
    assert_eq!(cf.tree_cost(&expr("(+ (* a b) (* a b))")), 21);
    assert_eq!(cf.tree_cost(&expr("x")), 0);
}

#[test]
fn find_mut_compresses_without_changing_classes() {
    let mut g = EGraph::new();
    let a = g.add(Op::Sym(0), &vec![]);
    let bb = g.add(Op::Sym(1), &vec![]);
    let c = g.add(Op::Sym(2), &vec![]);
    let d = g.add(Op::Sym(3), &vec![]);
    g.union(c, d);
    g.union(bb, c);
    g.union(a, bb);
    let before = g.num_classes();
    assert_eq!(g.find_mut(d), a);
    assert_eq!(g.find(d), a);
    assert_eq!(g.find(c), a);
    assert_eq!(g.num_classes(), before);
}

#[test]
fn guard_reads_whole_class() {
    // the operand class holds a constant only after a merge
    let mut g = EGraph::new();
    let x = g.add(Op::Sym(0), &vec![]);
    let three = g.add(Op::Num(3), &vec![]);
    let y = g.add(Op::Sym(1), &vec![]);
    let m = g.add(Op::Arith(Arith::Mul, Level::Fp), &vec![x, y]);
    let rules = vec![Rewrite::new(
        b("mul_to_constmul"),
        &b("(* ?a ?b)"),
        &b("(constmul ?a ?b)"),
        Some(is_const(&b("?a"), &b("?b"))),
    )
    .unwrap()];
    assert_eq!(run(&mut g, &rules, 5, 1000), StopReason::Saturated);
    let size = g.size();
    g.union(x, three);
    assert_eq!(run(&mut g, &rules, 5, 1000), StopReason::Saturated);
    assert!(g.size() > size);
    let cm = g.add(Op::Arith(Arith::ConstMul, Level::Fp), &vec![x, y]);
    assert_eq!(g.find(cm), g.find(m));
}

#[test]
fn every_match_is_applied() {
    // both operands orders end in one class after one round
    let rules = vec![rule("commute-mul", "(* ?a ?b)", "(* ?b ?a)")];
    let mut g = EGraph::new();
    let e = expr("(+ (* a b) (* c d))");
    let ids = fpopt::runner::add_expr(&mut g, &e);
    fpopt::runner::run_once(&mut g, &rules);
    let a = ids[0];
    let bb = ids[1];
    let c = ids[3];
    let d = ids[4];
    let ba = g.add(Op::Arith(Arith::Mul, Level::Fp), &vec![bb, a]);
    let dc = g.add(Op::Arith(Arith::Mul, Level::Fp), &vec![d, c]);
    assert_eq!(g.find(ba), g.find(ids[2]));
    assert_eq!(g.find(dc), g.find(ids[5]));
}

#[test]
fn printed_optimum_reads_back() {
    let rules = vec![rule("mulsquare", "(* ?x ?x)", "(square ?x)")];
    let cf = costs(1, 10, 4);
    let r = optimize(&expr("(+ (* (+ a b) (+ a b)) (* (+ a b) (+ a b)))"), &rules, &cf, 10, 1000);
    let printed = r.best.to_text();
    assert_eq!(text(&printed), "(+ (square (+ a b)) (square (+ a b)))");
    let back = parse_expr(&printed).unwrap();
    assert_eq!(back.to_text(), printed);
    assert_eq!(text(&r.text), "let t0 = (+ a b)\nlet t1 = (square t0)\n(+ t1 t1)");
    assert_eq!(r.shared_cost, 1 + 4 + 1);
}

#[test]
fn merged_constant_gets_literal() {
    let mut g = EGraph::new();
    let x = g.add(Op::Sym(0), &vec![]);
    let two = g.add(Op::Num(2), &vec![]);
    let three = g.add(Op::Num(3), &vec![]);
    let sum = g.add(add_op(Level::Fp), &vec![two, three]);
    g.union(x, sum);
    assert_eq!(g.datum(x), Some(5));
    g.rebuild();
    let before = g.size();
    let five = g.add(Op::Num(5), &vec![]);
    assert_eq!(g.size(), before);
    assert_eq!(g.find(five), g.find(x));
}

#[test]
fn binding_names_follow_the_walk_not_the_layout() {
    let sq = Op::Arith(Arith::Square, Level::Fp);
    let mul = Op::Arith(Arith::Mul, Level::Fp);
    // (square b) stored before (square a), and the product shared in the layout
    let e = Expr {
        nodes: vec![
            Node { op: Op::Sym(1), children: vec![] },
            Node { op: sq, children: vec![0] },
            Node { op: Op::Sym(0), children: vec![] },
            Node { op: sq, children: vec![2] },
            Node { op: mul, children: vec![3, 1] },
            Node { op: mul, children: vec![4, 4] },
        ],
        names: vec![b("a"), b("b")],
    };
    let cf = costs(1, 10, 8);
    let (cost, out) = extract_common_subexpressions(&e, &cf);
    let expected = "let t0 = (square a)\nlet t1 = (square b)\nlet t2 = (* t0 t1)\n(* t2 t2)";
    assert_eq!(text(&out), expected);
    assert_eq!(cost, 8 + 8 + 10 + 10);
    let parsed = expr("(* (* (square a) (square b)) (* (square a) (square b)))");
    let (cost2, out2) = extract_common_subexpressions(&parsed, &cf);
    assert_eq!(text(&out2), expected);
    assert_eq!(cost2, cost);
}

#[test]
fn product_of_constants_folds_to_literal() {
    let rules: Vec<Rewrite> = vec![];
    let cf = costs(1, 10, 8);
    let r = optimize(&expr("(+ (* 2 3) x)"), &rules, &cf, 5, 1000);
    assert_eq!(text(&r.best.to_text()), "(+ 6 x)");
    assert_eq!(r.best_cost, 1);
    assert_eq!(r.original_cost, 11);
}

#[test]
fn first_round_always_runs() {
    let rules = vec![rule("mul_const", "(* 2 ?a)", "(+ ?a ?a)")];
    let mut g = EGraph::new();
    let ids = fpopt::runner::add_expr(&mut g, &expr("(* 2 a)"));
    assert_eq!(run(&mut g, &rules, 1, 0), StopReason::IterationLimit);
    let a = ids[1];
    let sum = g.add(add_op(Level::Fp), &vec![a, a]);
    assert_eq!(g.find(sum), g.find(ids[2]));
}
