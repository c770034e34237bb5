use vstd::prelude::*;
use crate::lang::{Arith, Expr, Level, Node, Op, arity, arity_of, arith_text, is_leaf_op, level_text, nodes_ok, op_ok, op_text, op_valid, xi_text};
use crate::rewrite::{Guard, PatNode, PatOp, Pattern, Rewrite, pat_nodes_ok};
use crate::cse::{expr_text, full_texts, inline_text, spaced};
use crate::lang::{dec, push_dec};

verus! {

/// Why a text was not read.
#[derive(Clone, Debug)]
pub enum ParseError {
    /// The text ended inside an expression, or held none.
    UnexpectedEnd,
    /// A closing parenthesis where an expression should start, at this offset.
    UnexpectedClose(usize),
    /// Text after the expression, at this offset.
    TrailingInput(usize),
    /// A list with no operands, at this offset.
    EmptyList(usize),
    /// A list whose head is a list, at this offset.
    BadHead(usize),
    /// A list headed by a name that is no operation.
    UnknownOp(Vec<u8>),
    /// An operation with the wrong number of operands: its name and the number given.
    ArityMismatch(Vec<u8>, usize),
    /// A variable in an expression, or a symbol in a pattern.
    BadLeaf(Vec<u8>),
    /// A variable of a rule's right side, or a guard name, that its left side
    /// does not bind.
    UnboundVariable(Vec<u8>),
    /// A variable of a rule's left side that a match of it may leave unbound.
    UnreachedVariable(Vec<u8>),
    /// More distinct variables than a pattern can number.
    TooManyVariables,
}

pub open spec fn is_space(b: u8) -> bool {
    b == 32 || b == 9 || b == 10 || b == 13
}

/// A byte that belongs to a name: neither a parenthesis nor white space.
pub open spec fn is_atom_byte(b: u8) -> bool {
    b != 40 && b != 41 && !is_space(b)
}

fn space_at(s: &Vec<u8>, i: usize) -> (r: bool)
    requires
        i < s@.len(),
    ensures
        r == is_space(s@[i as int]),
{
    let b = s[i];
    b == 32 || b == 9 || b == 10 || b == 13
}

fn skip_space(s: &Vec<u8>, pos: usize) -> (r: usize)
    requires
        pos <= s@.len(),
    ensures
        pos <= r <= s@.len(),
        forall|i: int| pos <= i < r ==> is_space(#[trigger] s@[i]),
        r < s@.len() ==> !is_space(s@[r as int]),
{
    let mut p = pos;
    while p < s.len() && space_at(s, p)
        invariant
            pos <= p <= s@.len(),
            forall|i: int| pos <= i < p ==> is_space(#[trigger] s@[i]),
        decreases s@.len() - p,
    {
        p = p + 1;
    }
    p
}

/// Reads the name that starts at `pos`.
fn read_atom(s: &Vec<u8>, pos: usize) -> (r: (Vec<u8>, usize))
    requires
        pos <= s@.len(),
    ensures
        pos <= r.1 <= s@.len(),
        r.0@ == s@.subrange(pos as int, r.1 as int),
        forall|i: int| pos <= i < r.1 ==> is_atom_byte(#[trigger] s@[i]),
        r.1 < s@.len() ==> !is_atom_byte(s@[r.1 as int]),
{
    let mut p = pos;
    let mut t: Vec<u8> = Vec::new();
    while p < s.len() && s[p] != 40u8 && s[p] != 41u8 && !space_at(s, p)
        invariant
            pos <= p <= s@.len(),
            t@ == s@.subrange(pos as int, p as int),
            forall|i: int| pos <= i < p ==> is_atom_byte(#[trigger] s@[i]),
        decreases s@.len() - p,
    {
        t.push(s[p]);
        p = p + 1;
        assert(t@ =~= s@.subrange(pos as int, p as int));
    }
    (t, p)
}

/// `s` with its white space taken out.
pub open spec fn squeeze(s: Seq<u8>) -> Seq<u8>
    decreases s.len(),
{
    if s.len() == 0 {
        seq![]
    } else if is_space(s.last()) {
        squeeze(s.drop_last())
    } else {
        squeeze(s.drop_last()).push(s.last())
    }
}

proof fn lemma_squeeze_concat(a: Seq<u8>, b: Seq<u8>)
    ensures
        squeeze(a + b) == squeeze(a) + squeeze(b),
    decreases b.len(),
{
    if b.len() == 0 {
        assert(a + b =~= a);
        assert(squeeze(a) + squeeze(b) =~= squeeze(a));
    } else {
        assert((a + b).drop_last() =~= a + b.drop_last());
        assert((a + b).last() == b.last());
        lemma_squeeze_concat(a, b.drop_last());
        if !is_space(b.last()) {
            assert(squeeze(a) + squeeze(b) =~= (squeeze(a) + squeeze(b.drop_last())).push(b.last()));
        }
    }
}

proof fn lemma_squeeze_spaces(s: Seq<u8>)
    requires
        forall|i: int| 0 <= i < s.len() ==> is_space(#[trigger] s[i]),
    ensures
        squeeze(s) == Seq::<u8>::empty(),
    decreases s.len(),
{
    if s.len() > 0 {
        lemma_squeeze_spaces(s.drop_last());
    }
}

proof fn lemma_squeeze_solid(s: Seq<u8>)
    requires
        forall|i: int| 0 <= i < s.len() ==> !is_space(#[trigger] s[i]),
    ensures
        squeeze(s) == s,
    decreases s.len(),
{
    if s.len() > 0 {
        lemma_squeeze_solid(s.drop_last());
        assert(s.drop_last().push(s.last()) =~= s);
    }
}

/// The texts of `kids` in `rt`, each with its white space taken out, one
/// after another.
pub open spec fn squeezed_kids(rt: Seq<Seq<u8>>, kids: Seq<usize>) -> Seq<u8>
    decreases kids.len(),
{
    if kids.len() == 0 {
        seq![]
    } else {
        squeezed_kids(rt, kids.drop_last()) + squeeze(rt[kids.last() as int])
    }
}

proof fn lemma_squeeze_spaced(rt: Seq<Seq<u8>>, kids: Seq<usize>)
    ensures
        squeeze(spaced(rt, kids)) == squeezed_kids(rt, kids),
    decreases kids.len(),
{
    if kids.len() > 0 {
        lemma_squeeze_spaced(rt, kids.drop_last());
        let a = spaced(rt, kids.drop_last());
        lemma_squeeze_concat(a + seq![32u8], rt[kids.last() as int]);
        lemma_squeeze_concat(a, seq![32u8]);
        lemma_squeeze_spaces(seq![32u8]);
        assert(squeeze(a) + Seq::<u8>::empty() =~= squeeze(a));
    } else {
        assert(spaced(rt, kids) =~= Seq::<u8>::empty());
    }
}

proof fn lemma_squeezed_kids_eq(rt1: Seq<Seq<u8>>, rt2: Seq<Seq<u8>>, kids: Seq<usize>)
    requires
        forall|j: int| 0 <= j < kids.len() ==> rt1[#[trigger] kids[j] as int] == rt2[kids[j] as int],
    ensures
        squeezed_kids(rt1, kids) == squeezed_kids(rt2, kids),
    decreases kids.len(),
{
    if kids.len() > 0 {
        lemma_squeezed_kids_eq(rt1, rt2, kids.drop_last());
        assert(rt1[kids[kids.len() - 1] as int] == rt2[kids[kids.len() - 1] as int]);
    }
}

/// A parenthesised tree of names, before its names are read as kinds.
pub struct RawNode {
    pub atom: Vec<u8>,
    pub children: Vec<usize>,
}

pub open spec fn raw_ok(raw: Seq<RawNode>) -> bool {
    forall|i: int, k: int|
        0 <= i < raw.len() && 0 <= k < raw[i].children@.len() ==> 0 <= #[trigger] raw[i].children@[k] < i
}

/// Reads one tree starting at `pos`, appending its nodes bottom-up to `out`.
/// Returns the position of its root in `out` and the offset after it. Where
/// the text at `pos` is the printed tree of position `p` of `e` (the ghost
/// `tgt`), it is read back whole, to a node that prints the same.
fn parse_tree(s: &Vec<u8>, pos: usize, out: &mut Vec<RawNode>, tgt: Ghost<Option<(Expr, int)>>) -> (r: Result<
    (usize, usize),
    ParseError,
>)
    requires
        pos <= s@.len(),
        raw_ok(old(out)@),
    ensures
        raw_ok(final(out)@),
        final(out)@.len() >= old(out)@.len(),
        final(out)@.subrange(0, old(out)@.len() as int) == old(out)@,
        r matches Ok((i, p)) ==> i + 1 == final(out)@.len() && pos < p <= s@.len(),
        r matches Err(err) ==> !(err is UnboundVariable),
        r matches Ok((i, q)) ==> squeeze(s@.subrange(pos as int, q as int)) == squeeze(
            raw_texts(final(out)@, final(out)@.len() as int)[i as int],
        ),
        target_printed(s@, pos as int, tgt@) ==> (r matches Ok((i, q)) && q == pos + text_of((tgt@->0).0, (tgt@->0).1).len()
            && raw_texts(final(out)@, final(out)@.len() as int)[i as int] == text_of((tgt@->0).0, (tgt@->0).1)),
        target_printed(s@, pos as int, tgt@) ==> forall|x: int|
            old(out)@.len() <= x < final(out)@.len() ==> atom_canonical(#[trigger] final(out)@[x].atom@),
        target_printed(s@, pos as int, tgt@) ==> forall|x: int|
            old(out)@.len() <= x < final(out)@.len() ==> node_like(#[trigger] final(out)@[x], (tgt@->0).0),
    decreases s@.len() - pos,
{
    let ghost printed = target_printed(s@, pos as int, tgt@);
    assert(printed == target_printed(s@, pos as int, tgt@));
    let ghost pair = tgt@->0;
    let ghost e = pair.0;
    let ghost tp = pair.1;
    let ghost t = text_of(e, tp);
    proof {
        if printed {
            lemma_text_facts(e, tp);
            lemma_printed_bytes(s@, pos as int, e, tp);
            assert(s@[pos + 0] == t[0]);
        }
    }
    let p0 = skip_space(s, pos);
    proof {
        if printed {
            assert(p0 == pos);
        }
    }
    if p0 >= s.len() {
        return Err(ParseError::UnexpectedEnd);
    }
    if s[p0] == 41u8 {
        return Err(ParseError::UnexpectedClose(p0));
    }
    if s[p0] != 40u8 {
        let (at, p1) = read_atom(s, p0);
        let ghost before = out@;
        out.push(RawNode { atom: at, children: Vec::new() });
        proof {
            assert forall|i: int, k: int|
                0 <= i < out@.len() && 0 <= k < out@[i].children@.len() implies 0 <= #[trigger] out@[i].children@[k]
                    < i by {
                if i < before.len() {
                    assert(out@[i] == before[i]);
                }
            }
            assert(out@.subrange(0, before.len() as int) =~= before);
            if printed {
                lemma_text_facts(e, tp);
                if e.nodes@[tp].children@.len() > 0 {
                    lemma_head_at(s@, pos as int, e, tp);
                }
                assert(e.nodes@[tp].children@.len() == 0);
                lemma_printed_bytes(s@, pos as int, e, tp);
                lemma_atom_end(s@, pos as int, t, p1 as int);
                assert(at@ =~= t);
                lemma_raw_texts_len(out@, out@.len() as int);
                lemma_op_canonical(e, tp);
                assert(out@[before.len() as int].atom@ == at@);
                assert(node_like(out@[before.len() as int], e)) by {
                    assert(e.nodes@[tp].children@.len() == 0);
                }
            }
        }
        proof {
            lemma_raw_texts_push(before, out@);
            assert(out@[before.len() as int].children@.len() == 0);
            assert(out@[before.len() as int].atom@ == at@);
            assert(s@.subrange(pos as int, p1 as int) =~= s@.subrange(pos as int, p0 as int) + s@.subrange(
                p0 as int,
                p1 as int,
            ));
            lemma_squeeze_concat(s@.subrange(pos as int, p0 as int), s@.subrange(p0 as int, p1 as int));
            lemma_squeeze_spaces(s@.subrange(pos as int, p0 as int));
            lemma_squeeze_solid(at@);
            assert(Seq::<u8>::empty() + at@ =~= at@);
        }
        return Ok((out.len() - 1, p1));
    }
    let ghost nodes = e.nodes@;
    let ghost ch = nodes[tp].children@;
    let ghost ft = full_texts(e.nodes@, e.names@, e.nodes@.len() as int);
    let ghost opt = op_text(e.names@, nodes[tp].op);
    proof {
        if printed {
            lemma_text_facts(e, tp);
            if e.nodes@[tp].children@.len() == 0 {
                assert(t[0] == s@[pos as int]);
                assert(is_atom_byte(t[0]));
            }
            lemma_head_at(s@, pos as int, e, tp);
            assert(s@[pos + 1 + 0] == opt[0]);
        }
    }
    let p1 = skip_space(s, p0 + 1);
    proof {
        if printed {
            assert(p1 == pos + 1);
        }
    }
    if p1 >= s.len() {
        return Err(ParseError::UnexpectedEnd);
    }
    if s[p1] == 40u8 || s[p1] == 41u8 {
        return Err(ParseError::BadHead(p1));
    }
    let (head, p2) = read_atom(s, p1);
    proof {
        if printed {
            lemma_head_at(s@, pos as int, e, tp);
            lemma_opens(e, tp, 0);
            lemma_atom_end(s@, pos + 1, opt, p2 as int);
            assert(head@ =~= opt);
            lemma_op_canonical(e, tp);
            lemma_text_facts(e, tp);
            lemma_printed_bytes(s@, pos as int, e, tp);
            assert(e.nodes@[tp].children@.subrange(0, 0) =~= Seq::<usize>::empty());
        }
    }
    proof {
        let sq = s@.subrange(pos as int, p2 as int);
        let a1 = s@.subrange(pos as int, p0 as int);
        let a2 = s@.subrange(p0 as int, p0 as int + 1);
        let a3 = s@.subrange(p0 as int + 1, p1 as int);
        let a4 = s@.subrange(p1 as int, p2 as int);
        assert(sq =~= a1 + a2 + a3 + a4);
        lemma_squeeze_concat(a1 + a2 + a3, a4);
        lemma_squeeze_concat(a1 + a2, a3);
        lemma_squeeze_concat(a1, a2);
        lemma_squeeze_spaces(a1);
        lemma_squeeze_spaces(a3);
        assert(a2 =~= seq![40u8]);
        lemma_squeeze_solid(a2);
        lemma_squeeze_solid(head@);
        assert(squeeze(sq) =~= seq![40u8] + head@ + squeezed_kids(raw_texts(out@, out@.len() as int), Seq::<usize>::empty()));
    }
    let ghost out0 = out@;
    let mut children: Vec<usize> = Vec::new();
    let mut p = p2;
    loop
        invariant
            pos <= p0 < p <= s@.len(),
            raw_ok(out@),
            out@.len() >= out0.len(),
            out@.subrange(0, out0.len() as int) == out0,
            out0.len() >= old(out)@.len(),
            out0.subrange(0, old(out)@.len() as int) == old(out)@,
            forall|k: int| 0 <= k < children@.len() ==> #[trigger] children@[k] < out@.len(),
            squeeze(s@.subrange(pos as int, p as int)) == seq![40u8] + head@ + squeezed_kids(
                raw_texts(out@, out@.len() as int),
                children@,
            ),
            forall|x: int| 0 <= x < head@.len() ==> !is_space(#[trigger] head@[x]),
            printed == target_printed(s@, pos as int, tgt@),
            printed ==> forall|x: int| old(out)@.len() <= x < out@.len() ==> atom_canonical(#[trigger] out@[x].atom@),
            printed ==> forall|x: int| old(out)@.len() <= x < out@.len() ==> node_like(#[trigger] out@[x], e),
            printed ==> atom_canonical(head@),
            e == (tgt@->0).0,
            tp == (tgt@->0).1,
            t == text_of(e, tp),
            nodes == e.nodes@,
            ch == nodes[tp].children@,
            ft == full_texts(e.nodes@, e.names@, e.nodes@.len() as int),
            opt == op_text(e.names@, nodes[tp].op),
            printed ==> {
                &&& p0 == pos
                &&& printed_at(s@, pos as int, e, tp)
                &&& e.wf()
                &&& printable(e)
                &&& 0 <= tp < nodes.len()
                &&& nodes == e.nodes@
                &&& ch == nodes[tp].children@
                &&& ch.len() > 0
                &&& head@ == opt
                &&& children@.len() <= ch.len()
                &&& p == pos + opening(e, tp, children@.len() as int).len()
                &&& t == opening(e, tp, ch.len() as int) + seq![41u8]
                &&& forall|x: int| 0 <= x < t.len() ==> s@[pos + x] == #[trigger] t[x]
                &&& forall|j: int|
                    0 <= j < children@.len() ==> raw_texts(out@, out@.len() as int)[#[trigger] children@[j] as int]
                        == ft[ch[j] as int]
            },
        decreases s@.len() - p,
    {
        proof {
            if printed && children@.len() < ch.len() {
                lemma_child_at(s@, pos as int, e, tp, children@.len() as int);
                let c = ch[children@.len() as int] as int;
                lemma_text_facts(e, c);
                lemma_printed_bytes(s@, pos + opening(e, tp, children@.len() as int).len() + 1, e, c);
                assert(s@[p + 1 + 0] == text_of(e, c)[0]);
            }
            if printed && children@.len() == ch.len() {
                lemma_close_at(s@, pos as int, e, tp);
            }
        }
        let q = skip_space(s, p);
        proof {
            if printed {
                if children@.len() < ch.len() {
                    assert(q == p + 1);
                } else {
                    assert(q == p);
                }
            }
        }
        if q >= s.len() {
            assert(!printed);
            assert(!target_printed(s@, pos as int, tgt@));
            return Err(ParseError::UnexpectedEnd);
        }
        if s[q] == 41u8 {
            proof {
                if printed && children@.len() < ch.len() {
                    let c = ch[children@.len() as int] as int;
                    lemma_child_at(s@, pos as int, e, tp, children@.len() as int);
                    assert(s@[q as int] == text_of(e, c)[0]);
                }
            }
            if children.len() == 0 {
                assert(!printed);
                assert(!target_printed(s@, pos as int, tgt@));
                return Err(ParseError::EmptyList(p0));
            }
            let ghost before = out@;
            let ghost kids = children@;
            let ghost hd = head@;
            out.push(RawNode { atom: head, children });
            proof {
                assert(out@.subrange(0, before.len() as int) =~= before);
                lemma_raw_texts_push(before, out@);
                let rt = raw_texts(before, before.len() as int);
                assert(raw_texts(out@, out@.len() as int)[before.len() as int] == seq![40u8] + hd + spaced(rt, kids)
                    + seq![41u8]);
                lemma_squeeze_spaced(rt, kids);
                lemma_squeeze_concat(seq![40u8] + hd + spaced(rt, kids), seq![41u8]);
                lemma_squeeze_concat(seq![40u8] + hd, spaced(rt, kids));
                lemma_squeeze_concat(seq![40u8], hd);
                lemma_squeeze_solid(seq![40u8]);
                lemma_squeeze_solid(seq![41u8]);
                lemma_squeeze_solid(hd);
                let sk = squeezed_kids(rt, kids);
                assert(squeeze(seq![40u8] + hd) == seq![40u8] + hd);
                assert(squeeze(raw_texts(out@, out@.len() as int)[before.len() as int]) == seq![40u8] + hd + sk + seq![41u8]);
                let t1 = s@.subrange(pos as int, p as int);
                let t2 = s@.subrange(p as int, q as int);
                let t3 = s@.subrange(q as int, q as int + 1);
                assert(s@.subrange(pos as int, q as int + 1) =~= t1 + t2 + t3);
                lemma_squeeze_concat(t1 + t2, t3);
                lemma_squeeze_concat(t1, t2);
                lemma_squeeze_spaces(t2);
                assert(t3 =~= seq![41u8]);
                assert(squeeze(t1) == seq![40u8] + hd + sk);
                assert(squeeze(t1) + squeeze(t2) =~= squeeze(t1));
                assert(squeeze(s@.subrange(pos as int, q as int + 1)) =~= squeeze(
                    raw_texts(out@, out@.len() as int)[before.len() as int],
                ));
            }
            proof {
                assert forall|i: int, k: int|
                    0 <= i < out@.len() && 0 <= k < out@[i].children@.len() implies 0 <= #[trigger] out@[i].children@[k]
                        < i by {
                    if i < before.len() {
                        assert(out@[i] == before[i]);
                    }
                }
                assert(out@.subrange(0, before.len() as int) =~= before);
                assert(out@.subrange(0, old(out)@.len() as int) =~= before.subrange(0, out0.len() as int).subrange(
                    0,
                    old(out)@.len() as int,
                ));
                if printed {
                    lemma_close_at(s@, pos as int, e, tp);
                    let i = before.len() as int;
                    lemma_raw_texts_len(out@, out@.len() as int);
                    lemma_raw_texts_len(before, i);
                    lemma_raw_texts_push(before, out@);
                    let rt = raw_texts(before, i);
                    assert forall|j: int| 0 <= j < kids.len() implies rt[kids[j] as int] == ft[ch[j] as int] by {
                        assert(raw_texts(before, before.len() as int)[kids[j] as int] == ft[ch[j] as int]);
                    }
                    assert(kids.len() == ch.len());
                    lemma_spaced_eq(rt, kids, ft, ch);
                    lemma_opens(e, tp, ch.len() as int);
                    lemma_text_facts(e, tp);
                    assert(ch.subrange(0, ch.len() as int) =~= ch);
                    assert(out@[i].atom@ == opt);
                    assert(out@[i].children@ == kids);
                    assert(raw_inline(out@, rt, i) =~= t);
                    assert(raw_texts(out@, out@.len() as int)[i] =~= t);
                    assert forall|x: int| old(out)@.len() <= x < out@.len() implies atom_canonical(#[trigger] out@[x].atom@) by {
                        if x < i {
                            assert(out@[x] == before[x]);
                        }
                    }
                    assert(node_like(out@[i], e)) by {
                        assert(out@[i].atom@ == op_text(e.names@, e.nodes@[tp].op));
                    }
                    assert forall|x: int| old(out)@.len() <= x < out@.len() implies node_like(#[trigger] out@[x], e) by {
                        if x < i {
                            assert(out@[x] == before[x]);
                        }
                    }
                }
            }
            return Ok((out.len() - 1, q + 1));
        }
        let ghost before = out@;
        let ghost k = children@.len() as int;
        let ghost sub: Option<(Expr, int)> = if printed { Some((e, ch[k] as int)) } else { None };
        proof {
            if printed {
                lemma_child_at(s@, pos as int, e, tp, k);
                assert(sub == Some((e, ch[k] as int)));
                assert(q == pos + opening(e, tp, k).len() + 1);
                assert(printed_at(s@, q as int, e, ch[k] as int));
            }
        }
        match parse_tree(s, q, out, Ghost(sub)) {
            Ok((i, p3)) => {
                proof {
                    assert forall|j: int| 0 <= j < children@.len() implies raw_texts(out@, out@.len() as int)[#[trigger] children@[j] as int]
                        == raw_texts(before, before.len() as int)[children@[j] as int] by {
                        lemma_raw_texts_grow(before, out@, children@[j] as int);
                    }
                    assert(out@.subrange(0, out0.len() as int) =~= out@.subrange(0, before.len() as int).subrange(0, out0.len() as int));
                }
                proof {
                    if printed {
                        lemma_child_at(s@, pos as int, e, tp, k);
                        lemma_opens(e, tp, k);
                        assert(raw_texts(out@, out@.len() as int)[i as int] == ft[ch[k] as int]);
                        assert forall|x: int| old(out)@.len() <= x < out@.len() implies atom_canonical(#[trigger] out@[x].atom@) by {
                            if x < before.len() {
                                assert(out@[x] == out@.subrange(0, before.len() as int)[x]);
                            }
                        }
                        assert forall|x: int| old(out)@.len() <= x < out@.len() implies node_like(#[trigger] out@[x], e) by {
                            if x < before.len() {
                                assert(out@[x] == out@.subrange(0, before.len() as int)[x]);
                            }
                        }
                    }
                }
                proof {
                    assert forall|j: int| 0 <= j < children@.len() implies raw_texts(out@, out@.len() as int)[
                        #[trigger] children@[j] as int] == raw_texts(before, before.len() as int)[children@[j] as int] by {
                        lemma_raw_texts_grow(before, out@, children@[j] as int);
                    }
                    lemma_squeezed_kids_eq(raw_texts(out@, out@.len() as int), raw_texts(before, before.len() as int), children@);
                    let t1 = s@.subrange(pos as int, p as int);
                    let t2 = s@.subrange(p as int, q as int);
                    let t3 = s@.subrange(q as int, p3 as int);
                    assert(s@.subrange(pos as int, p3 as int) =~= t1 + t2 + t3);
                    lemma_squeeze_concat(t1 + t2, t3);
                    lemma_squeeze_concat(t1, t2);
                    lemma_squeeze_spaces(t2);
                    assert(t1 + t2 =~= t1 + t2);
                }
                let ghost kids0 = children@;
                children.push(i);
                proof {
                    assert(children@.drop_last() =~= kids0);
                    assert(squeeze(s@.subrange(pos as int, p3 as int)) =~= seq![40u8] + head@ + squeezed_kids(
                        raw_texts(out@, out@.len() as int),
                        children@,
                    ));
                }
                p = p3;
            },
            Err(err) => {
                assert(!printed);
                assert(!target_printed(s@, pos as int, tgt@));
                return Err(err);
            },
        }
    }
}

/// Reads a whole text as one tree; where the text is the printed tree of
/// the ghost `tgt`, it is read back whole, to a tree that prints the same.
fn parse_raw(s: &Vec<u8>, tgt: Ghost<Option<Expr>>) -> (r: Result<Vec<RawNode>, ParseError>)
    ensures
        r matches Ok(raw) ==> raw@.len() > 0 && raw_ok(raw@),
        r matches Ok(raw) ==> squeeze(s@) == squeeze(raw_texts(raw@, raw@.len() as int)[raw@.len() - 1]),
        r matches Err(err) ==> !(err is UnboundVariable),
        whole_printed(s@, tgt@) ==> (r matches Ok(raw) && raw_texts(raw@, raw@.len() as int)[raw@.len() - 1] == s@
            && forall|x: int| 0 <= x < raw@.len() ==> atom_canonical(#[trigger] raw@[x].atom@)
            && forall|x: int| 0 <= x < raw@.len() ==> node_like(#[trigger] raw@[x], tgt@->0)),
{
    let mut out: Vec<RawNode> = Vec::new();
    let ghost sub: Option<(Expr, int)> = if whole_printed(s@, tgt@) {
        Some((tgt@->0, tgt@->0.nodes@.len() - 1))
    } else {
        None
    };
    proof {
        if whole_printed(s@, tgt@) {
            let e = tgt@->0;
            assert(s@.subrange(0, s@.len() as int) =~= s@);
            assert(target_printed(s@, 0, sub));
        }
    }
    match parse_tree(s, 0, &mut out, Ghost(sub)) {
        Ok((i, p)) => {
            let q = skip_space(s, p);
            if q < s.len() {
                return Err(ParseError::TrailingInput(q));
            }
            proof {
                assert(s@ =~= s@.subrange(0, p as int) + s@.subrange(p as int, s@.len() as int));
                lemma_squeeze_concat(s@.subrange(0, p as int), s@.subrange(p as int, s@.len() as int));
                lemma_squeeze_spaces(s@.subrange(p as int, s@.len() as int));
                assert(squeeze(s@.subrange(0, p as int)) + Seq::<u8>::empty() =~= squeeze(s@.subrange(0, p as int)));
            }
            Ok(out)
        },
        Err(err) => Err(err),
    }
}

/// `s` is the printed text of the ghost `tgt`, a tree whose symbols have
/// plain names.
pub open spec fn whole_printed(s: Seq<u8>, tgt: Option<Expr>) -> bool {
    tgt is Some && tgt->0.wf() && printable(tgt->0) && s == expr_text(tgt->0)
}


/// Whether two byte strings are equal.
pub fn bytes_eq(a: &Vec<u8>, b: &Vec<u8>) -> (r: bool)
    ensures
        r == (a@ == b@),
{
    if a.len() != b.len() {
        return false;
    }
    let mut i: usize = 0;
    while i < a.len()
        invariant
            a@.len() == b@.len(),
            i <= a@.len(),
            forall|k: int| 0 <= k < i ==> a@[k] == b@[k],
        decreases a@.len() - i,
    {
        if a[i] != b[i] {
            return false;
        }
        i = i + 1;
    }
    assert(a@ =~= b@);
    true
}

/// Value of a string of decimal digits.
pub open spec fn digits_value(t: Seq<u8>) -> int
    decreases t.len(),
{
    if t.len() == 0 {
        0
    } else {
        digits_value(t.drop_last()) * 10 + (t.last() - 48)
    }
}

pub open spec fn all_digits(t: Seq<u8>) -> bool {
    forall|i: int| 0 <= i < t.len() ==> 48 <= #[trigger] t[i] <= 57
}

proof fn lemma_digits_value_nonneg(t: Seq<u8>)
    requires
        all_digits(t),
    ensures
        digits_value(t) >= 0,
    decreases t.len(),
{
    if t.len() > 0 {
        lemma_digits_value_nonneg(t.drop_last());
    }
}

proof fn lemma_digits_value_mono(t: Seq<u8>, k: int)
    requires
        all_digits(t),
        0 <= k <= t.len(),
    ensures
        digits_value(t.subrange(0, k)) <= digits_value(t),
    decreases t.len(),
{
    if k < t.len() {
        assert(t.drop_last().subrange(0, k) =~= t.subrange(0, k));
        lemma_digits_value_mono(t.drop_last(), k);
        lemma_digits_value_nonneg(t.drop_last());
    } else {
        assert(t.subrange(0, k) =~= t);
    }
}

/// The number that a non-empty string of decimal digits denotes, where it
/// fits in `u64`.
pub fn parse_u64(t: &Vec<u8>) -> (r: Option<u64>)
    ensures
        r is Some <==> (t@.len() > 0 && all_digits(t@) && digits_value(t@) <= u64::MAX),
        r matches Some(n) ==> n == digits_value(t@),
{
    if t.len() == 0 {
        return None;
    }
    let mut v: u64 = 0;
    let mut i: usize = 0;
    while i < t.len()
        invariant
            i <= t@.len(),
            all_digits(t@.subrange(0, i as int)),
            v == digits_value(t@.subrange(0, i as int)),
        decreases t@.len() - i,
    {
        let b = t[i];
        proof {
            assert(t@.subrange(0, i as int + 1).drop_last() =~= t@.subrange(0, i as int));
        }
        if b < 48u8 || b > 57u8 {
            proof {
                assert(!all_digits(t@)) by {
                    assert(!(48 <= t@[i as int] <= 57));
                }
            }
            return None;
        }
        let d = (b - 48u8) as u64;
        match v.checked_mul(10) {
            Some(v10) => match v10.checked_add(d) {
                Some(nv) => {
                    v = nv;
                },
                None => {
                    proof {
                        if all_digits(t@) {
                            lemma_digits_value_mono(t@, i as int + 1);
                        }
                    }
                    return None;
                },
            },
            None => {
                proof {
                    if all_digits(t@) {
                        lemma_digits_value_mono(t@, i as int + 1);
                        lemma_digits_value_nonneg(t@.subrange(0, i as int));
                    }
                }
                return None;
            },
        }
        i = i + 1;
        assert(all_digits(t@.subrange(0, i as int))) by {
            assert forall|k: int| 0 <= k < i implies 48 <= #[trigger] t@.subrange(0, i as int)[k] <= 57 by {
                if k < i - 1 {
                    assert(t@.subrange(0, i as int)[k] == t@.subrange(0, i as int - 1)[k]);
                }
            }
        }
    }
    assert(t@.subrange(0, t@.len() as int) =~= t@);
    Some(v)
}

/// The operations that take operands.
fn operations() -> (r: Vec<Op>)
    ensures
        forall|k: int| 0 <= k < r@.len() ==> !is_leaf_op(#[trigger] r@[k]) && op_valid(r@[k]),
        forall|op: Op| !is_leaf_op(op) && op_valid(op) ==> r@.contains(op),
{
    let r: Vec<Op> = vec![
        Op::Fp2,
        Op::Fp4,
        Op::Fp6,
        Op::Arith(Arith::Add, Level::Fp),
        Op::Arith(Arith::Mul, Level::Fp),
        Op::Arith(Arith::Sub, Level::Fp),
        Op::Arith(Arith::ConstMul, Level::Fp),
        Op::Arith(Arith::Square, Level::Fp),
        Op::Arith(Arith::Inv, Level::Fp),
        Op::Arith(Arith::Add, Level::Fp2),
        Op::Arith(Arith::Mul, Level::Fp2),
        Op::Arith(Arith::Sub, Level::Fp2),
        Op::Arith(Arith::ConstMul, Level::Fp2),
        Op::Arith(Arith::Square, Level::Fp2),
        Op::Arith(Arith::Inv, Level::Fp2),
        Op::Arith(Arith::Add, Level::Fp4),
        Op::Arith(Arith::Mul, Level::Fp4),
        Op::Arith(Arith::Sub, Level::Fp4),
        Op::Arith(Arith::ConstMul, Level::Fp4),
        Op::Arith(Arith::Square, Level::Fp4),
        Op::Arith(Arith::Add, Level::Fp6),
        Op::Arith(Arith::Mul, Level::Fp6),
        Op::Arith(Arith::Sub, Level::Fp6),
        Op::Arith(Arith::ConstMul, Level::Fp6),
        Op::Arith(Arith::Square, Level::Fp6),
        Op::Arith(Arith::Add, Level::Fp12),
        Op::Arith(Arith::Mul, Level::Fp12),
        Op::Arith(Arith::Sub, Level::Fp12),
        Op::Arith(Arith::ConstMul, Level::Fp12),
        Op::Arith(Arith::Square, Level::Fp12),
    ];
    proof {
        let ghost l = seq![
            Op::Fp2,
        Op::Fp4,
        Op::Fp6,
        Op::Arith(Arith::Add, Level::Fp),
        Op::Arith(Arith::Mul, Level::Fp),
        Op::Arith(Arith::Sub, Level::Fp),
        Op::Arith(Arith::ConstMul, Level::Fp),
        Op::Arith(Arith::Square, Level::Fp),
        Op::Arith(Arith::Inv, Level::Fp),
        Op::Arith(Arith::Add, Level::Fp2),
        Op::Arith(Arith::Mul, Level::Fp2),
        Op::Arith(Arith::Sub, Level::Fp2),
        Op::Arith(Arith::ConstMul, Level::Fp2),
        Op::Arith(Arith::Square, Level::Fp2),
        Op::Arith(Arith::Inv, Level::Fp2),
        Op::Arith(Arith::Add, Level::Fp4),
        Op::Arith(Arith::Mul, Level::Fp4),
        Op::Arith(Arith::Sub, Level::Fp4),
        Op::Arith(Arith::ConstMul, Level::Fp4),
        Op::Arith(Arith::Square, Level::Fp4),
        Op::Arith(Arith::Add, Level::Fp6),
        Op::Arith(Arith::Mul, Level::Fp6),
        Op::Arith(Arith::Sub, Level::Fp6),
        Op::Arith(Arith::ConstMul, Level::Fp6),
        Op::Arith(Arith::Square, Level::Fp6),
        Op::Arith(Arith::Add, Level::Fp12),
        Op::Arith(Arith::Mul, Level::Fp12),
        Op::Arith(Arith::Sub, Level::Fp12),
        Op::Arith(Arith::ConstMul, Level::Fp12),
        Op::Arith(Arith::Square, Level::Fp12),
        ];
        assert(r@ == l);
        assert forall|op: Op| !is_leaf_op(op) && op_valid(op) implies r@.contains(op) by {
            let k: int = match op {
                Op::Fp2 => 0,
                Op::Fp4 => 1,
                Op::Fp6 => 2,
                Op::Arith(a, lv) => {
                    let ai: int = match a {
                        Arith::Add => 0,
                        Arith::Mul => 1,
                        Arith::Sub => 2,
                        Arith::ConstMul => 3,
                        Arith::Square => 4,
                        Arith::Inv => 5,
                    };
                    match lv {
                        Level::Fp => 3 + ai,
                        Level::Fp2 => 9 + ai,
                        Level::Fp4 => 15 + ai,
                        Level::Fp6 => 20 + ai,
                        Level::Fp12 => 25 + ai,
                    }
                },
                _ => 0,
            };
            assert(r@[k] == op);
        }
    }
    r
}

/// The operation that takes operands and is written `t`, if there is one.
pub fn op_named(t: &Vec<u8>) -> (r: Option<Op>)
    ensures
        r matches Some(op) ==> !is_leaf_op(op) && op_valid(op) && op_text(Seq::empty(), op) == t@,
        r is None ==> forall|op: Op| !is_leaf_op(op) && op_valid(op) ==> op_text(Seq::empty(), op) != t@,
{
    let ops = operations();
    let empty: Vec<Vec<u8>> = Vec::new();
    let mut k: usize = 0;
    while k < ops.len()
        invariant
            forall|x: int| 0 <= x < ops@.len() ==> !is_leaf_op(#[trigger] ops@[x]) && op_valid(ops@[x]),
            forall|op: Op| !is_leaf_op(op) && op_valid(op) ==> ops@.contains(op),
            empty@ == Seq::<Vec<u8>>::empty(),
            k <= ops@.len(),
            forall|x: int| 0 <= x < k ==> op_text(Seq::empty(), #[trigger] ops@[x]) != t@,
        decreases ops@.len() - k,
    {
        let op = ops[k];
        let mut text: Vec<u8> = Vec::new();
        proof {
            assert(op_ok(op, 0));
        }
        crate::lang::push_op(&mut text, &empty, op);
        assert(text@ =~= op_text(Seq::empty(), op));
        if bytes_eq(&text, t) {
            return Some(op);
        }
        k = k + 1;
    }
    None
}

/// Index of `t` in `names`, appending it where it is not there yet.
fn intern(names: &mut Vec<Vec<u8>>, t: Vec<u8>) -> (r: usize)
    ensures
        r < final(names)@.len(),
        final(names)@[r as int]@ == t@,
        final(names)@.len() >= old(names)@.len(),
        forall|i: int| 0 <= i < old(names)@.len() ==> #[trigger] final(names)@[i] == old(names)@[i],
{
    let mut i: usize = 0;
    while i < names.len()
        invariant
            i <= names@.len(),
        decreases names@.len() - i,
    {
        if bytes_eq(&names[i], &t) {
            return i;
        }
        i = i + 1;
    }
    names.push(t);
    names.len() - 1
}

/// Where the ghost target chosen for `s` is no printed tree of it, none is.
proof fn lemma_not_printed(s: Seq<u8>, tgt: Option<Expr>, wp: bool)
    requires
        wp == whole_printed(s, tgt),
        !wp,
        tgt == (if exists|e0: Expr| #[trigger] expr_text(e0) == s && e0.wf() && printable(e0) {
            Some(choose|e0: Expr| #[trigger] expr_text(e0) == s && e0.wf() && printable(e0))
        } else {
            None
        }),
    ensures
        forall|e0: Expr| #[trigger] expr_text(e0) == s && e0.wf() && printable(e0) ==> false,
{
}

/// Printed texts read from raw trees whose names print as read.
proof fn lemma_texts_match(nodes: Seq<Node>, names: Seq<Vec<u8>>, raw: Seq<RawNode>, m: int)
    requires
        0 <= m <= nodes.len(),
        m <= raw.len(),
        forall|x: int| 0 <= x < m ==> (#[trigger] nodes[x]).children@ == raw[x].children@,
        forall|x: int| 0 <= x < m ==> op_text(names, (#[trigger] nodes[x]).op) == raw[x].atom@,
    ensures
        full_texts(nodes, names, m) == raw_texts(raw, m),
    decreases m,
{
    if m > 0 {
        lemma_texts_match(nodes, names, raw, m - 1);
        assert(nodes[m - 1].children@ == raw[m - 1].children@);
        assert(op_text(names, nodes[m - 1].op) == raw[m - 1].atom@);
    }
}

/// Reads an expression: a name, a decimal constant, `ξ`, or a parenthesised
/// operation name followed by as many operands as it takes. A constant is
/// written as it prints, without leading zeros; any other name stands for a
/// free symbol. What is read prints as the input does, white space aside, so
/// text that is no printed expression is refused. The printed text of an
/// expression whose symbols have plain names reads back to one that prints
/// the same.
pub fn parse_expr(s: &Vec<u8>) -> (r: Result<Expr, ParseError>)
    ensures
        r matches Ok(e) ==> e.wf(),
        r matches Ok(e) ==> squeeze(s@) == squeeze(expr_text(e)),
        forall|e0: Expr|
            #[trigger] expr_text(e0) == s@ && e0.wf() && printable(e0) ==> (r matches Ok(e) && expr_text(e) == s@),
{
    let ghost tgt: Option<Expr> = if exists|e0: Expr| #[trigger] expr_text(e0) == s@ && e0.wf() && printable(e0) {
        Some(choose|e0: Expr| #[trigger] expr_text(e0) == s@ && e0.wf() && printable(e0))
    } else {
        None
    };
    let raw = match parse_raw(s, Ghost(tgt)) {
        Ok(raw) => raw,
        Err(err) => {
            return Err(err);
        },
    };
    let ghost wp = whole_printed(s@, tgt);
    assert(wp ==> forall|x: int| 0 <= x < raw@.len() ==> node_like(#[trigger] raw@[x], tgt->0));
    let mut nodes: Vec<Node> = Vec::new();
    let mut names: Vec<Vec<u8>> = Vec::new();
    let mut i: usize = 0;
    while i < raw.len()
        invariant
            raw_ok(raw@),
            i <= raw@.len(),
            nodes@.len() == i,
            nodes_ok(nodes@, names@.len() as int),
            forall|x: int| 0 <= x < i ==> (#[trigger] nodes@[x]).children@ == raw@[x].children@,
            forall|x: int| 0 <= x < i ==> op_text(names@, (#[trigger] nodes@[x]).op) == raw@[x].atom@,
            wp == whole_printed(s@, tgt),
            tgt == (if exists|e0: Expr| #[trigger] expr_text(e0) == s@ && e0.wf() && printable(e0) {
                Some(choose|e0: Expr| #[trigger] expr_text(e0) == s@ && e0.wf() && printable(e0))
            } else {
                None
            }),
            wp ==> forall|x: int| 0 <= x < raw@.len() ==> node_like(#[trigger] raw@[x], tgt->0),
            wp ==> forall|x: int| 0 <= x < raw@.len() ==> atom_canonical(#[trigger] raw@[x].atom@),
        decreases raw@.len() - i,
    {
        let rn = &raw[i];
        let ghost names0 = names@;
        let op = if rn.children.len() == 0 {
            let xi: Vec<u8> = vec![206u8, 190];
            if bytes_eq(&rn.atom, &xi) {
                assert(op_text(names@, Op::Xi) == rn.atom@);
                Op::Xi
            } else {
                let num: Option<u64> = match parse_u64(&rn.atom) {
                    Some(n) => {
                        let mut d: Vec<u8> = Vec::new();
                        push_dec(&mut d, n);
                        if bytes_eq(&d, &rn.atom) {
                            assert(op_text(names@, Op::Num(n)) == rn.atom@);
                            Some(n)
                        } else {
                            None
                        }
                    },
                    None => None,
                };
                match num {
                    Some(n) => Op::Num(n),
                    None => {
                        let k = intern(&mut names, rn.atom.clone());
                        proof {
                            assert forall|x: int| 0 <= x < nodes@.len() implies crate::lang::node_ok(
                                #[trigger] nodes@[x],
                                x,
                                names@.len() as int,
                            ) by {
                                assert(crate::lang::node_ok(nodes@[x], x, names0.len() as int));
                            }
                            assert forall|x: int| 0 <= x < i implies op_text(names@, (#[trigger] nodes@[x]).op)
                                == raw@[x].atom@ by {
                                assert(op_text(names0, nodes@[x].op) == raw@[x].atom@);
                                assert(crate::lang::node_ok(nodes@[x], x, names0.len() as int));
                                if let Op::Sym(j) = nodes@[x].op {
                                    assert(names@[j as int] == names0[j as int]);
                                }
                            }
                        }
                        Op::Sym(k)
                    },
                }
            }
        } else {
            let named = op_named(&rn.atom);
            proof {
                if wp {
                    let e0 = tgt->0;
                    assert(node_like(raw@[i as int], e0));
                    let p = choose|p: int|
                        0 <= p < e0.nodes@.len() && raw@[i as int].atom@ == op_text(e0.names@, (#[trigger] e0.nodes@[p]).op)
                            && raw@[i as int].children@.len() == e0.nodes@[p].children@.len();
                    assert(crate::lang::node_ok(e0.nodes@[p], p, e0.names@.len() as int));
                    let op0 = e0.nodes@[p].op;
                    assert(!is_leaf_op(op0));
                    assert(op_text(e0.names@, op0) == op_text(Seq::empty(), op0));
                    if let Some(op) = named {
                        lemma_op_text_injective(op, op0);
                    }
                }
            }
            match named {
                Some(op) => {
                    if arity(op) != rn.children.len() {
                        proof {
                            lemma_not_printed(s@, tgt, wp);
                        }
                        return Err(ParseError::ArityMismatch(rn.atom.clone(), rn.children.len()));
                    }
                    op
                },
                None => {
                    proof {
                        lemma_not_printed(s@, tgt, wp);
                    }
                    return Err(ParseError::UnknownOp(rn.atom.clone()));
                },
            }
        };
        proof {
            match op {
                Op::Num(n) => {},
                Op::Sym(k) => {},
                Op::Xi => {},
                _ => {
                    assert(op_text(names@, op) == op_text(Seq::empty(), op));
                },
            }
        }
        let mut ch: Vec<usize> = Vec::new();
        let mut k: usize = 0;
        while k < rn.children.len()
            invariant
                k <= rn.children@.len(),
                ch@ == rn.children@.subrange(0, k as int),
            decreases rn.children@.len() - k,
        {
            ch.push(rn.children[k]);
            k = k + 1;
            assert(ch@ =~= rn.children@.subrange(0, k as int));
        }
        assert(ch@ =~= rn.children@);
        let ghost before = nodes@;
        nodes.push(Node { op, children: ch });
        proof {
            assert(crate::lang::node_ok(nodes@[i as int], i as int, names@.len() as int)) by {
                assert forall|k2: int| 0 <= k2 < nodes@[i as int].children@.len() implies 0 <= #[trigger] nodes@[i as int].children@[k2] < i by {
                    assert(raw@[i as int].children@[k2] < i);
                }
            }
            assert forall|x: int| 0 <= x < nodes@.len() implies crate::lang::node_ok(#[trigger] nodes@[x], x, names@.len() as int) by {
                if x < i {
                    assert(nodes@[x] == before[x]);
                }
            }
            assert forall|x: int|
                0 <= x < i + 1 implies op_text(names@, (#[trigger] nodes@[x]).op)
                == raw@[x].atom@ by {
                if x < i {
                    assert(nodes@[x] == before[x]);
                }
            }
        }
        i = i + 1;
    }
    let e = Expr { nodes, names };
    proof {
        lemma_texts_match(e.nodes@, e.names@, raw@, raw@.len() as int);
        if wp {
            assert(expr_text(e) == s@);
        }
        assert forall|e0: Expr| #[trigger] expr_text(e0) == s@ && e0.wf() && printable(e0) implies expr_text(e) == s@ by {
            assert(wp);
        }
    }
    Ok(e)
}

fn copy_bytes(t: &Vec<u8>) -> (r: Vec<u8>)
    ensures
        r@ == t@,
{
    let mut r: Vec<u8> = Vec::new();
    let mut i: usize = 0;
    while i < t.len()
        invariant
            i <= t@.len(),
            r@ == t@.subrange(0, i as int),
        decreases t@.len() - i,
    {
        r.push(t[i]);
        i = i + 1;
        assert(r@ =~= t@.subrange(0, i as int));
    }
    assert(t@.subrange(0, t@.len() as int) =~= t@);
    r
}

fn copy_names(t: &Vec<Vec<u8>>) -> (r: Vec<Vec<u8>>)
    ensures
        r@.len() == t@.len(),
        forall|i: int| 0 <= i < t@.len() ==> (#[trigger] r@[i])@ == t@[i]@,
{
    let mut r: Vec<Vec<u8>> = Vec::new();
    let mut i: usize = 0;
    while i < t.len()
        invariant
            i <= t@.len(),
            r@.len() == i,
            forall|k: int| 0 <= k < i ==> (#[trigger] r@[k])@ == t@[k]@,
        decreases t@.len() - i,
    {
        r.push(copy_bytes(&t[i]));
        i = i + 1;
    }
    r
}

/// Index of `t` in `names`, if it is there.
fn find_name(names: &Vec<Vec<u8>>, t: &Vec<u8>) -> (r: Option<usize>)
    ensures
        r matches Some(k) ==> k < names@.len() && names@[k as int]@ == t@,
        r is None ==> forall|k: int| 0 <= k < names@.len() ==> (#[trigger] names@[k])@ != t@,
{
    let mut i: usize = 0;
    while i < names.len()
        invariant
            i <= names@.len(),
            forall|k: int| 0 <= k < i ==> (#[trigger] names@[k])@ != t@,
        decreases names@.len() - i,
    {
        if bytes_eq(&names[i], t) {
            return Some(i);
        }
        i = i + 1;
    }
    None
}

/// Reads a pattern: like an expression, but names that begin with `?` are
/// variables, and free symbols are refused. New variables are added to
/// `vars` unless `closed`, where an unknown one is refused.
fn parse_pattern(s: &Vec<u8>, vars: &mut Vec<Vec<u8>>, closed: bool) -> (r: Result<Vec<PatNode>, ParseError>)
    requires
        old(vars)@.len() <= u32::MAX,
    ensures
        final(vars)@.len() <= u32::MAX,
        final(vars)@.len() >= old(vars)@.len(),
        closed ==> final(vars)@.len() == old(vars)@.len(),
        forall|i: int| 0 <= i < old(vars)@.len() ==> #[trigger] final(vars)@[i] == old(vars)@[i],
        r matches Ok(pat) ==> pat@.len() > 0 && pat_nodes_ok(pat@, final(vars)@.len() as int),
        r matches Err(ParseError::UnboundVariable(v)) ==> closed && v@.len() > 0 && v@[0] == 63 && forall|k: int|
            0 <= k < final(vars)@.len() ==> (#[trigger] final(vars)@[k])@ != v@,
{
    let raw = match parse_raw(s, Ghost(None)) {
        Ok(raw) => raw,
        Err(err) => {
            return Err(err);
        },
    };
    let ghost vars0 = vars@;
    let mut nodes: Vec<PatNode> = Vec::new();
    let mut i: usize = 0;
    while i < raw.len()
        invariant
            raw_ok(raw@),
            i <= raw@.len(),
            nodes@.len() == i,
            vars@.len() <= u32::MAX,
            vars@.len() >= vars0.len(),
            vars0 == old(vars)@,
            closed ==> vars@.len() == vars0.len(),
            forall|x: int| 0 <= x < vars0.len() ==> #[trigger] vars@[x] == vars0[x],
            pat_nodes_ok(nodes@, vars@.len() as int),
            forall|x: int| 0 <= x < i ==> (#[trigger] nodes@[x]).children@ == raw@[x].children@,
        decreases raw@.len() - i,
    {
        let rn = &raw[i];
        let op = if rn.children.len() == 0 {
            let xi: Vec<u8> = vec![206u8, 190];
            if bytes_eq(&rn.atom, &xi) {
                PatOp::Node(Op::Xi)
            } else if rn.atom.len() > 0 && rn.atom[0] == 63u8 {
                let k = match find_name(vars, &rn.atom) {
                    Some(k) => k,
                    None => {
                        if closed {
                            return Err(ParseError::UnboundVariable(copy_bytes(&rn.atom)));
                        }
                        if vars.len() >= 4294967295usize {
                            return Err(ParseError::TooManyVariables);
                        }
                        let ghost before = vars@;
                        vars.push(copy_bytes(&rn.atom));
                        proof {
                            assert forall|x: int| 0 <= x < vars0.len() implies #[trigger] vars@[x] == vars0[x] by {
                                assert(vars@[x] == before[x]);
                            }
                        }
                        vars.len() - 1
                    },
                };
                PatOp::Var(k as u32)
            } else {
                match parse_u64(&rn.atom) {
                    Some(n) => PatOp::Node(Op::Num(n)),
                    None => {
                        return Err(ParseError::BadLeaf(copy_bytes(&rn.atom)));
                    },
                }
            }
        } else {
            match op_named(&rn.atom) {
                Some(op) => {
                    if arity(op) != rn.children.len() {
                        return Err(ParseError::ArityMismatch(copy_bytes(&rn.atom), rn.children.len()));
                    }
                    PatOp::Node(op)
                },
                None => {
                    return Err(ParseError::UnknownOp(copy_bytes(&rn.atom)));
                },
            }
        };
        let mut ch: Vec<usize> = Vec::new();
        let mut k: usize = 0;
        while k < rn.children.len()
            invariant
                k <= rn.children@.len(),
                ch@ == rn.children@.subrange(0, k as int),
            decreases rn.children@.len() - k,
        {
            ch.push(rn.children[k]);
            k = k + 1;
            assert(ch@ =~= rn.children@.subrange(0, k as int));
        }
        assert(ch@ =~= rn.children@);
        let ghost before = nodes@;
        nodes.push(PatNode { op, children: ch });
        proof {
            assert forall|x: int| 0 <= x < nodes@.len() implies {
                let p = #[trigger] nodes@[x];
                &&& forall|k2: int| 0 <= k2 < p.children@.len() ==> 0 <= #[trigger] p.children@[k2] < x
                &&& match p.op {
                    PatOp::Var(v) => v < vars@.len() && p.children@.len() == 0,
                    PatOp::Node(op) => op_ok(op, 0) && p.children@.len() == arity_of(op),
                }
            } by {
                if x < i {
                    assert(nodes@[x] == before[x]);
                } else {
                    assert forall|k2: int| 0 <= k2 < nodes@[x].children@.len() implies 0 <= #[trigger] nodes@[x].children@[k2] < x by {
                        assert(raw@[x].children@[k2] < x);
                    }
                }
            }
        }
        i = i + 1;
    }
    Ok(nodes)
}

/// A guard by the names of two pattern variables: the rule fires where the
/// class bound to either holds a constant or the extension unit.
pub struct ConstGuard {
    pub a: Vec<u8>,
    pub b: Vec<u8>,
}

/// The guard that asks whether the class bound to `a`, or the one bound to
/// `b`, holds a constant or the extension unit.
pub fn is_const(a: &Vec<u8>, b: &Vec<u8>) -> (r: ConstGuard)
    ensures
        r.a@ == a@,
        r.b@ == b@,
{
    ConstGuard { a: copy_bytes(a), b: copy_bytes(b) }
}

impl Rewrite {
    /// Reads a rule from the texts of its two sides. The right side may only
    /// use variables that the left side binds, and so may the guard.
    pub fn new(name: Vec<u8>, lhs: &Vec<u8>, rhs: &Vec<u8>, guard: Option<ConstGuard>) -> (r: Result<
        Rewrite,
        ParseError,
    >)
        ensures
            r matches Ok(rule) ==> rule.wf() && rule.name@ == name@,
            r matches Ok(rule) ==> match guard {
                None => rule.guard is None,
                Some(cg) => rule.guard matches Some(gd) && rule.lhs.vars@[gd.a as int]@ == cg.a@
                    && rule.lhs.vars@[gd.b as int]@ == cg.b@,
            },
            r matches Err(ParseError::UnboundVariable(v)) ==> (v@.len() > 0 && v@[0] == 63) || (guard matches Some(
                cg,
            ) && (v@ == cg.a@ || v@ == cg.b@)),
    {
        let mut vars: Vec<Vec<u8>> = Vec::new();
        let lp = match parse_pattern(lhs, &mut vars, false) {
            Ok(p) => p,
            Err(err) => {
                return Err(err);
            },
        };
        let rp = match parse_pattern(rhs, &mut vars, true) {
            Ok(p) => p,
            Err(err) => {
                return Err(err);
            },
        };
        let g = match guard {
            None => None,
            Some(cg) => {
                let a = match find_name(&vars, &cg.a) {
                    Some(k) => k,
                    None => {
                        return Err(ParseError::UnboundVariable(cg.a));
                    },
                };
                let b = match find_name(&vars, &cg.b) {
                    Some(k) => k,
                    None => {
                        return Err(ParseError::UnboundVariable(cg.b));
                    },
                };
                Some(Guard { a: a as u32, b: b as u32 })
            },
        };
        let rvars = copy_names(&vars);
        let lhs_pat = Pattern { nodes: lp, vars };
        if let Some(v) = crate::rewrite::binds_every_var(&lhs_pat) {
            return Err(ParseError::UnreachedVariable(copy_bytes(&lhs_pat.vars[v])));
        }
        Ok(Rewrite { name, lhs: lhs_pat, rhs: Pattern { nodes: rp, vars: rvars }, guard: g })
    }
}


/// A symbol name that reads back as the same symbol: non-empty, only name
/// bytes, neither a decimal number nor `ξ`.
pub open spec fn plain_name(t: Seq<u8>) -> bool {
    &&& t.len() > 0
    &&& forall|i: int| 0 <= i < t.len() ==> is_atom_byte(#[trigger] t[i])
    &&& !all_digits(t)
    &&& t != xi_text()
}

/// Every symbol of `e` has a plain name.
pub open spec fn printable(e: Expr) -> bool {
    forall|k: int| 0 <= k < e.names@.len() ==> plain_name(#[trigger] e.names@[k]@)
}

/// Text of every raw node below `m`, written out in full.
pub open spec fn raw_texts(raw: Seq<RawNode>, m: int) -> Seq<Seq<u8>>
    decreases m,
{
    if m <= 0 {
        seq![]
    } else {
        let prev = raw_texts(raw, m - 1);
        prev.push(raw_inline(raw, prev, m - 1))
    }
}

pub open spec fn raw_inline(raw: Seq<RawNode>, texts: Seq<Seq<u8>>, p: int) -> Seq<u8> {
    if raw[p].children@.len() == 0 {
        raw[p].atom@
    } else {
        seq![40u8] + raw[p].atom@ + spaced(texts, raw[p].children@) + seq![41u8]
    }
}

proof fn lemma_dec(n: nat)
    ensures
        dec(n).len() > 0,
        all_digits(dec(n)),
        digits_value(dec(n)) == n,
    decreases n,
{
    if n >= 10 {
        lemma_dec(n / 10);
        let d = dec(n);
        assert(d.drop_last() == dec(n / 10));
        vstd::arithmetic::div_mod::lemma_fundamental_div_mod(n as int, 10);
        assert(d.last() == 48 + n % 10);
        assert((n / 10) as int * 10 + n % 10 == n) by (nonlinear_arith)
            requires
                n == 10 * (n / 10) + n % 10,
        ;
        assert(digits_value(d) == digits_value(d.drop_last()) * 10 + (d.last() - 48));
        assert forall|i: int| 0 <= i < d.len() implies 48 <= #[trigger] d[i] <= 57 by {
            if i < d.len() - 1 {
                assert(d[i] == dec(n / 10)[i]);
            }
        }
    } else {
        let d = dec(n);
        assert(d.drop_last() =~= Seq::<u8>::empty());
        assert(digits_value(d) == digits_value(d.drop_last()) * 10 + (d.last() - 48));
    }
}

/// The printed text of position `p` of `e`.
pub open spec fn text_of(e: Expr, p: int) -> Seq<u8> {
    full_texts(e.nodes@, e.names@, e.nodes@.len() as int)[p]
}

/// A name that is a number is written as the number prints.
pub open spec fn atom_canonical(t: Seq<u8>) -> bool {
    t.len() > 0 && all_digits(t) ==> digits_value(t) <= u64::MAX && dec(digits_value(t) as nat) == t
}

/// Names in printed texts are canonical.
proof fn lemma_op_canonical(e: Expr, p: int)
    requires
        e.wf(),
        printable(e),
        0 <= p < e.nodes@.len(),
    ensures
        atom_canonical(op_text(e.names@, e.nodes@[p].op)),
{
    let op = e.nodes@[p].op;
    let t = op_text(e.names@, op);
    assert(crate::lang::node_ok(e.nodes@[p], p, e.names@.len() as int));
    match op {
        Op::Num(n) => {
            lemma_dec(n as nat);
        },
        Op::Sym(k) => {
            assert(plain_name(e.names@[k as int]@));
        },
        Op::Xi => {
            assert(!(48 <= t[0] <= 57));
        },
        Op::Arith(a, l) => {
            assert(t[0] == arith_text(a)[0]);
            assert(!(48 <= t[0] <= 57));
        },
        _ => {
            assert(!(48 <= t[0] <= 57));
        },
    }
}

/// The raw node has the name and the operand count of some node of `e`.
pub open spec fn node_like(rn: RawNode, e: Expr) -> bool {
    exists|p: int|
        0 <= p < e.nodes@.len() && rn.atom@ == op_text(e.names@, (#[trigger] e.nodes@[p]).op) && rn.children@.len()
            == e.nodes@[p].children@.len()
}

/// The ghost target of a read is there, and printed at `pos`.
pub open spec fn target_printed(s: Seq<u8>, pos: int, tgt: Option<(Expr, int)>) -> bool {
    tgt is Some && printed_at(s, pos, (tgt->0).0, (tgt->0).1)
}

/// At offset `pos`, `s` holds the printed text of position `p` of `e`,
/// followed by the end, a space or a closing parenthesis.
pub open spec fn printed_at(s: Seq<u8>, pos: int, e: Expr, p: int) -> bool {
    let t = text_of(e, p);
    &&& e.wf()
    &&& printable(e)
    &&& 0 <= p < e.nodes@.len()
    &&& 0 <= pos
    &&& pos + t.len() <= s.len()
    &&& s.subrange(pos, pos + t.len()) == t
    &&& (pos + t.len() == s.len() || s[pos + t.len()] == 32 || s[pos + t.len()] == 41)
}

/// The printed text of operation position `p` up to and including its
/// first `k` operands.
pub open spec fn opening(e: Expr, p: int, k: int) -> Seq<u8> {
    seq![40u8] + op_text(e.names@, e.nodes@[p].op) + spaced(
        full_texts(e.nodes@, e.names@, e.nodes@.len() as int),
        e.nodes@[p].children@.subrange(0, k),
    )
}

proof fn lemma_full_texts_prefix(nodes: Seq<Node>, names: Seq<Vec<u8>>, m: int, m2: int)
    requires
        0 <= m <= m2,
    ensures
        full_texts(nodes, names, m2).len() == m2,
        full_texts(nodes, names, m2).subrange(0, m) == full_texts(nodes, names, m),
    decreases m2,
{
    if m2 > 0 {
        if m < m2 {
            lemma_full_texts_prefix(nodes, names, m, m2 - 1);
            assert(full_texts(nodes, names, m2).subrange(0, m) =~= full_texts(nodes, names, m2 - 1).subrange(0, m));
        } else {
            lemma_full_texts_prefix(nodes, names, m - 1, m2 - 1);
            assert(full_texts(nodes, names, m2).subrange(0, m) =~= full_texts(nodes, names, m));
        }
    } else {
        assert(full_texts(nodes, names, m2).subrange(0, m) =~= full_texts(nodes, names, m));
    }
}

proof fn lemma_spaced_eq(t1: Seq<Seq<u8>>, c1: Seq<usize>, t2: Seq<Seq<u8>>, c2: Seq<usize>)
    requires
        c1.len() == c2.len(),
        forall|j: int| 0 <= j < c1.len() ==> t1[c1[j] as int] == t2[c2[j] as int],
    ensures
        spaced(t1, c1) == spaced(t2, c2),
    decreases c1.len(),
{
    if c1.len() > 0 {
        lemma_spaced_eq(t1, c1.drop_last(), t2, c2.drop_last());
    }
}

/// Every name in a printed text is made of name bytes.
proof fn lemma_op_atom(e: Expr, p: int)
    requires
        e.wf(),
        printable(e),
        0 <= p < e.nodes@.len(),
    ensures
        op_text(e.names@, e.nodes@[p].op).len() > 0,
        forall|i: int|
            0 <= i < op_text(e.names@, e.nodes@[p].op).len() ==> is_atom_byte(
                #[trigger] op_text(e.names@, e.nodes@[p].op)[i],
            ),
{
    let op = e.nodes@[p].op;
    let t = op_text(e.names@, op);
    assert(crate::lang::node_ok(e.nodes@[p], p, e.names@.len() as int));
    match op {
        Op::Num(n) => {
            lemma_dec(n as nat);
        },
        Op::Sym(k) => {
            assert(plain_name(e.names@[k as int]@));
        },
        Op::Arith(a, l) => {
            assert forall|i: int| 0 <= i < t.len() implies is_atom_byte(#[trigger] t[i]) by {
                if i < arith_text(a).len() {
                    assert(t[i] == arith_text(a)[i]);
                } else {
                    assert(t[i] == level_text(l)[i - arith_text(a).len()]);
                }
            }
        },
        _ => {},
    }
}

/// The shape of a printed text: a leaf prints as its name; an operation as
/// `(`, its name, its operands each after a space, and `)`.
proof fn lemma_text_facts(e: Expr, p: int)
    requires
        e.wf(),
        printable(e),
        0 <= p < e.nodes@.len(),
    ensures
        text_of(e, p).len() > 0,
        !is_space(text_of(e, p)[0]),
        text_of(e, p)[0] != 41,
        e.nodes@[p].children@.len() == 0 ==> {
            &&& text_of(e, p) == op_text(e.names@, e.nodes@[p].op)
            &&& forall|i: int| 0 <= i < text_of(e, p).len() ==> is_atom_byte(#[trigger] text_of(e, p)[i])
        },
        e.nodes@[p].children@.len() > 0 ==> text_of(e, p) == opening(e, p, e.nodes@[p].children@.len() as int) + seq![41u8],
{
    let nodes = e.nodes@;
    let names = e.names@;
    let n = nodes.len() as int;
    lemma_full_texts_prefix(nodes, names, p + 1, n);
    lemma_full_texts_prefix(nodes, names, p, p + 1);
    let full = full_texts(nodes, names, n);
    let prev = full_texts(nodes, names, p);
    assert(full[p] == full_texts(nodes, names, p + 1)[p]) by {
        assert(full[p] == full.subrange(0, p + 1)[p]);
    }
    assert(full[p] == inline_text(nodes, names, prev, p));
    assert(crate::lang::node_ok(nodes[p], p, names.len() as int));
    let ch = nodes[p].children@;
    assert(spaced(prev, ch) == spaced(full, ch)) by {
        assert forall|j: int| 0 <= j < ch.len() implies prev[ch[j] as int] == full[ch[j] as int] by {
            let x = ch[j] as int;
            assert(full[x] == full.subrange(0, p)[x]);
            assert(full_texts(nodes, names, p + 1)[x] == full_texts(nodes, names, p + 1).subrange(0, p)[x]);
        }
        lemma_spaced_eq(prev, ch, full, ch);
    }
    assert(ch.subrange(0, ch.len() as int) =~= ch);
    lemma_op_atom(e, p);
    let opt = op_text(names, nodes[p].op);
    assert(is_atom_byte(opt[0]));
}

/// The opening of an operation grows by a space and one operand's text at a
/// time, and each opening begins the operation's text.
proof fn lemma_opens(e: Expr, p: int, k: int)
    requires
        e.wf(),
        printable(e),
        0 <= p < e.nodes@.len(),
        e.nodes@[p].children@.len() > 0,
        0 <= k <= e.nodes@[p].children@.len(),
    ensures
        opening(e, p, 0) == seq![40u8] + op_text(e.names@, e.nodes@[p].op),
        k < e.nodes@[p].children@.len() ==> opening(e, p, k + 1) == opening(e, p, k) + seq![32u8] + full_texts(
            e.nodes@,
            e.names@,
            e.nodes@.len() as int,
        )[e.nodes@[p].children@[k] as int],
{
    let ch = e.nodes@[p].children@;
    let ft = full_texts(e.nodes@, e.names@, e.nodes@.len() as int);
    assert(ch.subrange(0, 0) =~= Seq::<usize>::empty());
    assert(spaced(ft, ch.subrange(0, 0)) =~= Seq::<u8>::empty());
    assert(opening(e, p, 0) =~= seq![40u8] + op_text(e.names@, e.nodes@[p].op));
    if k < ch.len() {
        assert(ch.subrange(0, k + 1).drop_last() =~= ch.subrange(0, k));
        assert(opening(e, p, k + 1) =~= opening(e, p, k) + seq![32u8] + ft[ch[k] as int]);
    }
}

/// Each opening begins the operation's printed text.
proof fn lemma_opening_prefix(e: Expr, p: int, k: int)
    requires
        e.wf(),
        printable(e),
        0 <= p < e.nodes@.len(),
        e.nodes@[p].children@.len() > 0,
        0 <= k <= e.nodes@[p].children@.len(),
    ensures
        opening(e, p, k).len() < text_of(e, p).len(),
        forall|x: int| 0 <= x < opening(e, p, k).len() ==> #[trigger] text_of(e, p)[x] == opening(e, p, k)[x],
    decreases e.nodes@[p].children@.len() - k,
{
    lemma_text_facts(e, p);
    let len = e.nodes@[p].children@.len() as int;
    if k < len {
        lemma_opening_prefix(e, p, k + 1);
        lemma_opens(e, p, k);
        assert forall|x: int| 0 <= x < opening(e, p, k).len() implies #[trigger] text_of(e, p)[x] == opening(e, p, k)[x] by {
            assert(opening(e, p, k + 1)[x] == opening(e, p, k)[x]);
        }
    }
}

/// A name read from where `t` stands, `t` made of name bytes and followed by
/// no name byte, is `t`.
proof fn lemma_atom_end(s: Seq<u8>, start: int, t: Seq<u8>, end: int)
    requires
        0 <= start,
        start + t.len() <= s.len(),
        forall|x: int| 0 <= x < t.len() ==> s[start + x] == #[trigger] t[x],
        forall|x: int| 0 <= x < t.len() ==> is_atom_byte(#[trigger] t[x]),
        start + t.len() == s.len() || !is_atom_byte(s[start + t.len()]),
        start <= end <= s.len(),
        forall|i: int| start <= i < end ==> is_atom_byte(#[trigger] s[i]),
        end < s.len() ==> !is_atom_byte(s[end]),
    ensures
        end == start + t.len(),
        s.subrange(start, end) == t,
{
    if end < start + t.len() {
        assert(s[end] == t[end - start]);
    } else if end > start + t.len() {
        assert(is_atom_byte(s[start + t.len()]));
    }
    assert(s.subrange(start, end) =~= t);
}

proof fn lemma_raw_texts_len(raw: Seq<RawNode>, m: int)
    requires
        m >= 0,
    ensures
        raw_texts(raw, m).len() == m,
    decreases m,
{
    if m > 0 {
        lemma_raw_texts_len(raw, m - 1);
    }
}

/// The texts of the first `m` nodes depend on those nodes alone.
proof fn lemma_raw_texts_agree(a: Seq<RawNode>, b: Seq<RawNode>, m: int)
    requires
        0 <= m <= a.len(),
        m <= b.len(),
        a.subrange(0, m) == b.subrange(0, m),
    ensures
        raw_texts(a, m) == raw_texts(b, m),
    decreases m,
{
    if m > 0 {
        assert(a.subrange(0, m - 1) =~= a.subrange(0, m).subrange(0, m - 1));
        assert(b.subrange(0, m - 1) =~= b.subrange(0, m).subrange(0, m - 1));
        lemma_raw_texts_agree(a, b, m - 1);
        assert(a[m - 1] == a.subrange(0, m)[m - 1]);
        assert(b[m - 1] == b.subrange(0, m)[m - 1]);
    }
}

proof fn lemma_raw_texts_prefix(raw: Seq<RawNode>, m: int, m2: int)
    requires
        0 <= m <= m2,
    ensures
        raw_texts(raw, m2).subrange(0, m) == raw_texts(raw, m),
    decreases m2,
{
    lemma_raw_texts_len(raw, m2);
    lemma_raw_texts_len(raw, m);
    if m < m2 {
        lemma_raw_texts_prefix(raw, m, m2 - 1);
        lemma_raw_texts_len(raw, m2 - 1);
        assert(raw_texts(raw, m2).subrange(0, m) =~= raw_texts(raw, m2 - 1).subrange(0, m));
    } else {
        assert(raw_texts(raw, m2).subrange(0, m) =~= raw_texts(raw, m));
    }
}

/// Appending nodes keeps the texts of the earlier ones.
proof fn lemma_raw_texts_grow(before: Seq<RawNode>, after: Seq<RawNode>, x: int)
    requires
        before.len() <= after.len(),
        after.subrange(0, before.len() as int) == before,
        0 <= x < before.len(),
    ensures
        raw_texts(after, after.len() as int)[x] == raw_texts(before, before.len() as int)[x],
{
    let m = before.len() as int;
    lemma_raw_texts_len(after, after.len() as int);
    lemma_raw_texts_prefix(after, m, after.len() as int);
    assert(before.subrange(0, m) =~= before);
    lemma_raw_texts_agree(after, before, m);
    lemma_raw_texts_len(after, m);
    assert(raw_texts(after, after.len() as int)[x] == raw_texts(after, after.len() as int).subrange(0, m)[x]);
}

/// The text of a node appended last is read over the texts before it.
proof fn lemma_raw_texts_push(before: Seq<RawNode>, after: Seq<RawNode>)
    requires
        after.len() == before.len() + 1,
        after.subrange(0, before.len() as int) == before,
    ensures
        raw_texts(after, after.len() as int)[before.len() as int] == raw_inline(
            after,
            raw_texts(before, before.len() as int),
            before.len() as int,
        ),
{
    let m = before.len() as int;
    assert(before.subrange(0, m) =~= before);
    lemma_raw_texts_agree(after, before, m);
    lemma_raw_texts_len(after, m);
}

proof fn lemma_printed_bytes(s: Seq<u8>, pos: int, e: Expr, p: int)
    requires
        printed_at(s, pos, e, p),
    ensures
        forall|x: int| 0 <= x < text_of(e, p).len() ==> s[pos + x] == #[trigger] text_of(e, p)[x],
{
    let t = text_of(e, p);
    assert forall|x: int| 0 <= x < t.len() implies s[pos + x] == #[trigger] t[x] by {
        assert(s.subrange(pos, pos + t.len())[x] == t[x]);
    }
}

/// Where an operation is printed at `pos`: `(` and its name, then a space.
proof fn lemma_head_at(s: Seq<u8>, pos: int, e: Expr, p: int)
    requires
        printed_at(s, pos, e, p),
        e.nodes@[p].children@.len() > 0,
    ensures
        s[pos] == 40,
        opening(e, p, 0).len() == 1 + op_text(e.names@, e.nodes@[p].op).len(),
        op_text(e.names@, e.nodes@[p].op).len() > 0,
        forall|x: int|
            0 <= x < op_text(e.names@, e.nodes@[p].op).len() ==> s[pos + 1 + x] == #[trigger] op_text(
                e.names@,
                e.nodes@[p].op,
            )[x],
        forall|x: int|
            0 <= x < op_text(e.names@, e.nodes@[p].op).len() ==> is_atom_byte(
                #[trigger] op_text(e.names@, e.nodes@[p].op)[x],
            ),
        pos + 1 + op_text(e.names@, e.nodes@[p].op).len() < s.len(),
        s[pos + 1 + op_text(e.names@, e.nodes@[p].op).len()] == 32,
{
    let t = text_of(e, p);
    let opt = op_text(e.names@, e.nodes@[p].op);
    lemma_printed_bytes(s, pos, e, p);
    lemma_text_facts(e, p);
    lemma_op_atom(e, p);
    lemma_opens(e, p, 0);
    lemma_opening_prefix(e, p, 0);
    lemma_opening_prefix(e, p, 1);
    assert(s[pos] == t[0]);
    assert forall|x: int| 0 <= x < opt.len() implies s[pos + 1 + x] == #[trigger] opt[x] by {
        assert(t[1 + x] == opening(e, p, 0)[1 + x]);
        assert(s[pos + (1 + x)] == t[1 + x]);
    }
    let l = 1 + opt.len() as int;
    assert(opening(e, p, 1)[l] == 32);
    assert(t[l] == opening(e, p, 1)[l]);
    assert(s[pos + l] == t[l]);
}

/// Where an operation is printed at `pos`, its operand `k` is printed after
/// the opening of `k` operands and a space.
proof fn lemma_child_at(s: Seq<u8>, pos: int, e: Expr, p: int, k: int)
    requires
        printed_at(s, pos, e, p),
        0 <= k < e.nodes@[p].children@.len(),
    ensures
        s[pos + opening(e, p, k).len()] == 32,
        printed_at(s, pos + opening(e, p, k).len() + 1, e, e.nodes@[p].children@[k] as int),
        opening(e, p, k + 1).len() == opening(e, p, k).len() + 1 + text_of(e, e.nodes@[p].children@[k] as int).len(),
        text_of(e, e.nodes@[p].children@[k] as int)[0] != 41,
        !is_space(text_of(e, e.nodes@[p].children@[k] as int)[0]),
{
    let t = text_of(e, p);
    let c = e.nodes@[p].children@[k] as int;
    let tc = text_of(e, c);
    let len = e.nodes@[p].children@.len() as int;
    assert(crate::lang::node_ok(e.nodes@[p], p, e.names@.len() as int));
    lemma_printed_bytes(s, pos, e, p);
    lemma_text_facts(e, p);
    lemma_text_facts(e, c);
    lemma_opens(e, p, k);
    lemma_opening_prefix(e, p, k + 1);
    let l = opening(e, p, k).len() as int;
    assert(t[l] == opening(e, p, k + 1)[l]);
    assert(s[pos + l] == t[l]);
    assert(s.subrange(pos + l + 1, pos + l + 1 + tc.len()) =~= tc) by {
        assert forall|x: int| 0 <= x < tc.len() implies s.subrange(pos + l + 1, pos + l + 1 + tc.len())[x] == tc[x] by {
            assert(t[l + 1 + x] == opening(e, p, k + 1)[l + 1 + x]);
            assert(s[pos + (l + 1 + x)] == t[l + 1 + x]);
        }
    }
    let endp = l + 1 + tc.len();
    if k + 1 < len {
        lemma_opens(e, p, k + 1);
        lemma_opening_prefix(e, p, k + 2);
        assert(t[endp] == opening(e, p, k + 2)[endp]);
        assert(s[pos + endp] == t[endp]);
    } else {
        assert(t[endp] == 41);
        assert(s[pos + endp] == t[endp]);
    }
}

/// Where an operation is printed at `pos`, its closing parenthesis follows
/// the opening of all its operands and ends the text.
proof fn lemma_close_at(s: Seq<u8>, pos: int, e: Expr, p: int)
    requires
        printed_at(s, pos, e, p),
        e.nodes@[p].children@.len() > 0,
    ensures
        s[pos + opening(e, p, e.nodes@[p].children@.len() as int).len()] == 41,
        text_of(e, p).len() == opening(e, p, e.nodes@[p].children@.len() as int).len() + 1,
{
    let t = text_of(e, p);
    lemma_printed_bytes(s, pos, e, p);
    lemma_text_facts(e, p);
    let l = opening(e, p, e.nodes@[p].children@.len() as int).len() as int;
    assert(t[l] == 41);
    assert(s[pos + l] == t[l]);
}

proof fn lemma_level_text_injective(l: Level, m: Level)
    requires
        level_text(l) == level_text(m),
    ensures
        l == m,
{
    let t = level_text(l);
    if t.len() == 1 {
        assert(level_text(l)[0] == level_text(m)[0]);
    }
}

proof fn lemma_arith_injective(x: Arith, l: Level, y: Arith, m: Level)
    requires
        arith_text(x) + level_text(l) == arith_text(y) + level_text(m),
    ensures
        x == y,
        l == m,
{
    let ta = arith_text(x) + level_text(l);
    let tb = arith_text(y) + level_text(m);
    assert(ta[0] == arith_text(x)[0]);
    assert(tb[0] == arith_text(y)[0]);
    assert(arith_text(x)[0] == arith_text(y)[0]);
    assert(x == y);
    let n = arith_text(x).len() as int;
    assert(level_text(l) =~= ta.subrange(n, ta.len() as int));
    assert(level_text(m) =~= tb.subrange(n, tb.len() as int));
    lemma_level_text_injective(l, m);
}

/// Distinct operations that take operands have distinct names.
proof fn lemma_op_text_injective(a: Op, b: Op)
    requires
        !is_leaf_op(a),
        !is_leaf_op(b),
        op_text(Seq::empty(), a) == op_text(Seq::empty(), b),
    ensures
        a == b,
{
    let ta = op_text(Seq::empty(), a);
    let tb = op_text(Seq::empty(), b);
    match (a, b) {
        (Op::Arith(x, l), Op::Arith(y, m)) => {
            lemma_arith_injective(x, l, y, m);
        },
        (Op::Arith(x, l), _) => {
            assert(ta[0] == arith_text(x)[0]);
            assert(tb[0] == 70);
        },
        (_, Op::Arith(y, m)) => {
            assert(tb[0] == arith_text(y)[0]);
            assert(ta[0] == 70);
        },
        _ => {
            assert(ta[2] == tb[2]);
        },
    }
}

} // verus!
