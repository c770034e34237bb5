use vstd::prelude::*;
use crate::lang::{Arith, Level, Op};

verus! {

/// Constant propagation over the graph: each class may know the unsigned
/// constant that it denotes.
pub struct ConstantFolding;

/// What a merge changed: the datum merged into, and whether the result
/// differs from the datum merged from.
#[derive(Clone, Copy, Debug, PartialEq, Eq, Structural)]
pub struct DidMerge {
    pub to_changed: bool,
    pub from_changed: bool,
}

/// Order of the lattice: unknown below every known constant, known constants
/// ordered as integers.
pub open spec fn data_le(a: Option<u64>, b: Option<u64>) -> bool {
    match (a, b) {
        (None, _) => true,
        (Some(_), None) => false,
        (Some(x), Some(y)) => x <= y,
    }
}

/// Join of two data: the larger in the lattice order.
pub open spec fn join(a: Option<u64>, b: Option<u64>) -> Option<u64> {
    if data_le(a, b) {
        b
    } else {
        a
    }
}

pub open spec fn known(d: Seq<Option<u64>>, k: int) -> bool {
    0 <= k < d.len() && d[k] is Some
}

/// Datum of a freshly added node from its operands' data. Constants give
/// themselves; base-field addition, subtraction, multiplication, scaling and
/// squaring combine known operands; everything else, and a result outside `u64`, is unknown.
pub open spec fn make_spec(op: Op, d: Seq<Option<u64>>) -> Option<u64> {
    match op {
        Op::Num(n) => Some(n),
        Op::Arith(a, Level::Fp) => {
            match a {
                Arith::Add => if known(d, 0) && known(d, 1) && d[0]->0 + d[1]->0 <= u64::MAX {
                    Some((d[0]->0 + d[1]->0) as u64)
                } else {
                    None
                },
                Arith::Sub => if known(d, 0) && known(d, 1) && d[0]->0 >= d[1]->0 {
                    Some((d[0]->0 - d[1]->0) as u64)
                } else {
                    None
                },
                Arith::Mul | Arith::ConstMul => if known(d, 0) && known(d, 1) && d[0]->0 * d[1]->0 <= u64::MAX {
                    Some((d[0]->0 * d[1]->0) as u64)
                } else {
                    None
                },
                Arith::Square => if known(d, 0) && d[0]->0 * d[0]->0 <= u64::MAX {
                    Some((d[0]->0 * d[0]->0) as u64)
                } else {
                    None
                },
                _ => None,
            }
        },
        _ => None,
    }
}

impl ConstantFolding {
    /// Datum of a node of kind `op` whose operands' classes hold `data`.
    pub fn make(op: Op, data: &Vec<Option<u64>>) -> (r: Option<u64>)
        ensures
            r == make_spec(op, data@),
    {
        match op {
            Op::Num(n) => Some(n),
            Op::Arith(a, Level::Fp) => {
                if data.len() < 1 {
                    return None;
                }
                let x = match data[0] {
                    Some(x) => x,
                    None => return None,
                };
                match a {
                    Arith::Square => x.checked_mul(x),
                    Arith::Add | Arith::Sub | Arith::Mul | Arith::ConstMul => {
                        if data.len() < 2 {
                            return None;
                        }
                        let y = match data[1] {
                            Some(y) => y,
                            None => return None,
                        };
                        match a {
                            Arith::Add => x.checked_add(y),
                            Arith::Sub => x.checked_sub(y),
                            _ => x.checked_mul(y),
                        }
                    },
                    _ => None,
                }
            },
            _ => None,
        }
    }

    /// Merges `from` into `to` by the lattice join.
    pub fn merge(to: &mut Option<u64>, from: Option<u64>) -> (r: DidMerge)
        ensures
            *final(to) == join(*old(to), from),
            r.to_changed == (*final(to) != *old(to)),
            r.from_changed == (*final(to) != from),
    {
        let le = match (*to, from) {
            (None, _) => true,
            (Some(_), None) => false,
            (Some(x), Some(y)) => x <= y,
        };
        if le {
            let changed = *to != from;
            *to = from;
            DidMerge { to_changed: changed, from_changed: false }
        } else {
            DidMerge { to_changed: false, from_changed: true }
        }
    }

    /// The literal that a class with datum `data` is given as its witness.
    pub fn witness(data: Option<u64>) -> (r: Option<Op>)
        ensures
            r == (match data {
                Some(k) => Some(Op::Num(k)),
                None => None,
            }),
    {
        match data {
            Some(k) => Some(Op::Num(k)),
            None => None,
        }
    }
}

/// The join is commutative, associative and idempotent.
pub proof fn lemma_join_semilattice(a: Option<u64>, b: Option<u64>, c: Option<u64>)
    ensures
        join(a, b) == join(b, a),
        join(join(a, b), c) == join(a, join(b, c)),
        join(a, a) == a,
{
}

/// A merge never forgets: the result lies above both sides, and a known
/// constant merged with anything stays known.
pub proof fn lemma_merge_monotone(to: Option<u64>, from: Option<u64>)
    ensures
        data_le(to, join(to, from)),
        data_le(from, join(to, from)),
        to is Some ==> join(to, from) is Some,
        from is Some ==> join(to, from) is Some,
{
}

/// Merging the same datum twice changes nothing the second time.
pub proof fn lemma_merge_repeat(to: Option<u64>, from: Option<u64>)
    ensures
        join(join(to, from), from) == join(to, from),
{
}


/// The datum after merging each of `froms` in turn into `to`.
pub open spec fn merge_all(to: Option<u64>, froms: Seq<Option<u64>>) -> Option<u64>
    decreases froms.len(),
{
    if froms.len() == 0 {
        to
    } else {
        join(merge_all(to, froms.drop_last()), froms.last())
    }
}

pub proof fn lemma_data_le_trans(a: Option<u64>, b: Option<u64>, c: Option<u64>)
    requires
        data_le(a, b),
        data_le(b, c),
    ensures
        data_le(a, c),
{
}

/// Merging data in turn never forgets: each step lies above the one before,
/// a known constant stays known, and the end is the largest of the start and
/// of everything merged, which it equals.
pub proof fn lemma_merges_never_forget(to: Option<u64>, froms: Seq<Option<u64>>, i: int)
    requires
        0 <= i <= froms.len(),
    ensures
        data_le(merge_all(to, froms.subrange(0, i)), merge_all(to, froms)),
        merge_all(to, froms.subrange(0, i)) is Some ==> merge_all(to, froms) is Some,
        data_le(to, merge_all(to, froms)),
        forall|k: int| 0 <= k < froms.len() ==> data_le(#[trigger] froms[k], merge_all(to, froms)),
        merge_all(to, froms) == to || exists|k: int| 0 <= k < froms.len() && merge_all(to, froms) == #[trigger] froms[k],
    decreases froms.len(),
{
    if froms.len() == 0 {
        assert(froms.subrange(0, i) =~= froms);
    } else {
        let init = froms.drop_last();
        let last = froms.last();
        let m = merge_all(to, init);
        if i < froms.len() {
            assert(init.subrange(0, i) =~= froms.subrange(0, i));
            lemma_merges_never_forget(to, init, i);
            lemma_merge_monotone(m, last);
            lemma_data_le_trans(merge_all(to, froms.subrange(0, i)), m, join(m, last));
        } else {
            assert(froms.subrange(0, i) =~= froms);
            lemma_merges_never_forget(to, init, 0);
        }
        lemma_merges_never_forget(to, init, 0);
        lemma_merge_monotone(m, last);
        lemma_data_le_trans(to, m, join(m, last));
        assert forall|k: int| 0 <= k < froms.len() implies data_le(#[trigger] froms[k], merge_all(to, froms)) by {
            if k < froms.len() - 1 {
                assert(froms[k] == init[k]);
                lemma_data_le_trans(froms[k], m, join(m, last));
            }
        }
        if join(m, last) != last {
            assert(join(m, last) == m);
            if m != to {
                let k = choose|k: int| 0 <= k < init.len() && m == #[trigger] init[k];
                assert(froms[k] == init[k]);
            }
        } else {
            assert(merge_all(to, froms) == froms[froms.len() - 1]);
        }
    }
}

} // verus!
