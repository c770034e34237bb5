use vstd::prelude::*;

verus! {

/// Tower level that an arithmetic operation works in.
#[derive(Clone, Copy, Debug, PartialEq, Eq, Structural)]
pub enum Level {
    Fp,
    Fp2,
    Fp4,
    Fp6,
    Fp12,
}

/// Arithmetic operation, independent of its tower level.
#[derive(Clone, Copy, Debug, PartialEq, Eq, Structural)]
pub enum Arith {
    Add,
    Mul,
    Sub,
    ConstMul,
    Square,
    Inv,
}

/// Node kind, with its literal payload where it has one.
#[derive(Clone, Copy, Debug, PartialEq, Eq, Structural)]
pub enum Op {
    /// Build an element of the degree-2 extension from two coordinates.
    Fp2,
    /// Build an element of the degree-4 extension from two coordinates.
    Fp4,
    /// Build an element of the degree-6 extension from three coordinates.
    Fp6,
    /// The extension-unit constant.
    Xi,
    /// An unsigned integer constant.
    Num(u64),
    /// A free symbol, by its index in the expression's name table.
    Sym(usize),
    /// An arithmetic operation at a tower level.
    Arith(Arith, Level),
}

pub open spec fn arith_arity(a: Arith) -> nat {
    match a {
        Arith::Square | Arith::Inv => 1,
        _ => 2,
    }
}

/// Number of operand slots of a node kind.
pub open spec fn arity_of(op: Op) -> nat {
    match op {
        Op::Fp2 | Op::Fp4 => 2,
        Op::Fp6 => 3,
        Op::Xi | Op::Num(_) | Op::Sym(_) => 0,
        Op::Arith(a, _) => arith_arity(a),
    }
}

/// The kind exists in the language: inversion only in the two lowest levels.
pub open spec fn op_valid(op: Op) -> bool {
    match op {
        Op::Arith(Arith::Inv, l) => l == Level::Fp || l == Level::Fp2,
        _ => true,
    }
}

pub fn arity(op: Op) -> (r: usize)
    ensures
        r == arity_of(op),
{
    match op {
        Op::Fp2 | Op::Fp4 => 2,
        Op::Fp6 => 3,
        Op::Xi | Op::Num(_) | Op::Sym(_) => 0,
        Op::Arith(Arith::Square, _) | Op::Arith(Arith::Inv, _) => 1,
        Op::Arith(_, _) => 2,
    }
}


/// One node of an expression: a kind and the positions of its operands.
#[derive(Clone, Debug)]
pub struct Node {
    pub op: Op,
    pub children: Vec<usize>,
}

/// An expression stored bottom-up: every operand stands at a lower position
/// than the node that uses it, and the root is the last node. Shared positions
/// are allowed; the expression denotes the tree obtained by unfolding them.
#[derive(Clone, Debug)]
pub struct Expr {
    pub nodes: Vec<Node>,
    /// Names of the free symbols, indexed by `Op::Sym`.
    pub names: Vec<Vec<u8>>,
}

/// The kind exists, and names a symbol below `m` if it is one.
pub open spec fn op_ok(op: Op, m: int) -> bool {
    &&& op_valid(op)
    &&& (match op {
        Op::Sym(s) => s < m,
        _ => true,
    })
}

/// A node whose operands all stand below `bound` and match its kind's arity.
pub open spec fn node_ok(n: Node, bound: int, n_names: int) -> bool {
    &&& op_valid(n.op)
    &&& n.children@.len() == arity_of(n.op)
    &&& forall|k: int| 0 <= k < n.children@.len() ==> 0 <= #[trigger] n.children@[k] < bound
    &&& (match n.op {
        Op::Sym(s) => s < n_names,
        _ => true,
    })
}

pub open spec fn nodes_ok(nodes: Seq<Node>, n_names: int) -> bool {
    forall|i: int| 0 <= i < nodes.len() ==> node_ok(#[trigger] nodes[i], i, n_names)
}

impl Expr {
    /// Well-formed: non-empty, operands below their users, symbols named.
    pub open spec fn wf(&self) -> bool {
        &&& self.nodes@.len() > 0
        &&& nodes_ok(self.nodes@, self.names@.len() as int)
    }

    pub open spec fn root(&self) -> int {
        self.nodes@.len() - 1
    }
}

/// Leaves: constants, symbols and the extension unit.
pub open spec fn is_leaf_op(op: Op) -> bool {
    match op {
        Op::Xi | Op::Num(_) | Op::Sym(_) => true,
        _ => false,
    }
}

pub fn is_leaf(op: Op) -> (r: bool)
    ensures
        r == is_leaf_op(op),
{
    match op {
        Op::Xi | Op::Num(_) | Op::Sym(_) => true,
        _ => false,
    }
}

/// Structural equality of the trees below positions `i` and `j`.
pub open spec fn same(nodes: Seq<Node>, i: int, j: int) -> bool
    decreases i + j,
{
    &&& 0 <= i < nodes.len()
    &&& 0 <= j < nodes.len()
    &&& nodes[i].op == nodes[j].op
    &&& nodes[i].children@.len() == nodes[j].children@.len()
    &&& forall|k: int|
        0 <= k < nodes[i].children@.len() ==> {
            let a = #[trigger] nodes[i].children@[k] as int;
            let b = nodes[j].children@[k] as int;
            0 <= a < i && 0 <= b < j && same(nodes, a, b)
        }
}


/// Decimal digits of `n`, most significant first.
pub open spec fn dec(n: nat) -> Seq<u8>
    decreases n,
{
    if n < 10 {
        seq![(48 + n) as u8]
    } else {
        dec(n / 10).push((48 + n % 10) as u8)
    }
}

/// Appends the decimal digits of `n` to `out`.
pub fn push_dec(out: &mut Vec<u8>, n: u64)
    ensures
        final(out)@ == old(out)@ + dec(n as nat),
    decreases n,
{
    if n >= 10 {
        push_dec(out, n / 10);
    }
    out.push((48 + n % 10) as u8);
    proof {
        if n >= 10 {
            assert(final(out)@ =~= old(out)@ + dec(n as nat));
        } else {
            assert(final(out)@ =~= old(out)@ + dec(n as nat));
        }
    }
}

/// Text of an arithmetic operation at the base level.
pub open spec fn arith_text(a: Arith) -> Seq<u8> {
    match a {
        Arith::Add => seq![43u8],
        Arith::Mul => seq![42u8],
        Arith::Sub => seq![45u8],
        Arith::ConstMul => seq![99u8, 111, 110, 115, 116, 109, 117, 108],
        Arith::Square => seq![115u8, 113, 117, 97, 114, 101],
        Arith::Inv => seq![105u8, 110, 118],
    }
}

/// Suffix that names the tower level of an operation.
pub open spec fn level_text(l: Level) -> Seq<u8> {
    match l {
        Level::Fp => seq![],
        Level::Fp2 => seq![50u8],
        Level::Fp4 => seq![52u8],
        Level::Fp6 => seq![54u8],
        Level::Fp12 => seq![49u8, 50],
    }
}

/// The UTF-8 encoding of the extension unit's name, `ξ`.
pub open spec fn xi_text() -> Seq<u8> {
    seq![206u8, 190]
}

/// Text of a node kind, given the expression's symbol names.
pub open spec fn op_text(names: Seq<Vec<u8>>, op: Op) -> Seq<u8> {
    match op {
        Op::Fp2 => seq![70u8, 112, 50],
        Op::Fp4 => seq![70u8, 112, 52],
        Op::Fp6 => seq![70u8, 112, 54],
        Op::Xi => xi_text(),
        Op::Num(n) => dec(n as nat),
        Op::Sym(s) => names[s as int]@,
        Op::Arith(a, l) => arith_text(a) + level_text(l),
    }
}

pub fn push_all(out: &mut Vec<u8>, s: &Vec<u8>)
    ensures
        final(out)@ == old(out)@ + s@,
{
    let mut i: usize = 0;
    while i < s.len()
        invariant
            i <= s@.len(),
            out@ == old(out)@ + s@.subrange(0, i as int),
        decreases s@.len() - i,
    {
        out.push(s[i]);
        i = i + 1;
        assert(out@ =~= old(out)@ + s@.subrange(0, i as int));
    }
    assert(s@.subrange(0, s@.len() as int) =~= s@);
}

/// Appends the text of `op` to `out`.
pub fn push_op(out: &mut Vec<u8>, names: &Vec<Vec<u8>>, op: Op)
    requires
        op_ok(op, names@.len() as int),
    ensures
        final(out)@ == old(out)@ + op_text(names@, op),
{
    let t: Vec<u8> = match op {
        Op::Fp2 => vec![70u8, 112, 50],
        Op::Fp4 => vec![70u8, 112, 52],
        Op::Fp6 => vec![70u8, 112, 54],
        Op::Xi => vec![206u8, 190],
        Op::Num(n) => {
            let mut v: Vec<u8> = Vec::new();
            push_dec(&mut v, n);
            assert(v@ =~= dec(n as nat));
            v
        },
        Op::Sym(s) => {
            push_all(out, &names[s as usize]);
            return;
        },
        Op::Arith(a, l) => {
            let mut v: Vec<u8> = match a {
                Arith::Add => vec![43u8],
                Arith::Mul => vec![42u8],
                Arith::Sub => vec![45u8],
                Arith::ConstMul => vec![99u8, 111, 110, 115, 116, 109, 117, 108],
                Arith::Square => vec![115u8, 113, 117, 97, 114, 101],
                Arith::Inv => vec![105u8, 110, 118],
            };
            let suffix: Vec<u8> = match l {
                Level::Fp => vec![],
                Level::Fp2 => vec![50u8],
                Level::Fp4 => vec![52u8],
                Level::Fp6 => vec![54u8],
                Level::Fp12 => vec![49u8, 50],
            };
            assert(v@ =~= arith_text(a));
            assert(suffix@ =~= level_text(l));
            push_all(&mut v, &suffix);
            v
        },
    };
    assert(t@ =~= op_text(names@, op));
    push_all(out, &t);
}

} // verus!
