use vstd::prelude::*;

verus! {

/// The largest representable literal. It stands for "infinity" in the
/// min/max rewrites: a neutral element under `Min` and absorbing under `Max`.
pub const INFINITY: i32 = i32::MAX;

/// One element of a postfix expression: a signed literal, a variable named by
/// a single character, or a binary operator opcode. The variable `'-'` is
/// reserved to mark an unknown, unresolved quantity.
#[derive(Clone, Copy, Debug, PartialEq, Eq, Hash, Structural)]
pub enum Term {
    Num(i32),
    Var(char),
    Add,
    Sub,
    Mul,
    Div,
    Mod,
    Min,
    Max,
    And,
    Or,
    Gte,
    Lt,
}

impl Default for Term {
    fn default() -> (r: Self)
        ensures
            r == Term::Num(0),
    {
        Term::Num(0)
    }
}

/// A literal or a variable: a term that pushes one value.
pub open spec fn is_leaf(t: Term) -> bool {
    t is Num || t is Var
}

/// An operator opcode: a term that pops two values and pushes one.
pub open spec fn is_opcode(t: Term) -> bool {
    !is_leaf(t)
}

pub open spec fn bool_int(b: bool) -> int {
    if b {
        1
    } else {
        0
    }
}

/// Division truncating toward zero, as the machine division does.
pub open spec fn trunc_div(x: int, d: int) -> int {
    if x == 0 {
        0
    } else if x > 0 && d > 0 {
        x / d
    } else if x < 0 && d < 0 {
        (x * -1) / (d * -1)
    } else if x < 0 {
        ((x * -1) / d) * -1
    } else {
        (x / (d * -1)) * -1
    }
}

/// Remainder with the dividend's sign, as the machine remainder does.
pub open spec fn trunc_rem(x: int, d: int) -> int {
    if x == 0 {
        0
    } else if x > 0 && d > 0 {
        x % d
    } else if x < 0 && d < 0 {
        ((x * -1) % (d * -1)) * -1
    } else if x < 0 {
        ((x * -1) % d) * -1
    } else {
        x % (d * -1)
    }
}

/// Whether the opcode's mathematical result exists at all: division and
/// modulus need a nonzero divisor.
pub open spec fn op_defined(t: Term, a: int, b: int) -> bool {
    match t {
        Term::Div | Term::Mod => b != 0,
        _ => true,
    }
}

/// The mathematical value of applying opcode `t` to left operand `a` and
/// right operand `b`, following the machine semantics of each opcode.
pub open spec fn op_val(t: Term, a: int, b: int) -> int {
    match t {
        Term::Add => a + b,
        Term::Sub => a - b,
        Term::Mul => a * b,
        Term::Div => trunc_div(a, b),
        Term::Mod => trunc_rem(a, b),
        Term::Min => if a <= b {
            a
        } else {
            b
        },
        Term::Max => if a >= b {
            a
        } else {
            b
        },
        Term::And => bool_int(a != 0 && b != 0),
        Term::Or => bool_int(a != 0 || b != 0),
        Term::Gte => bool_int(a >= b),
        Term::Lt => bool_int(a < b),
        Term::Num(_) | Term::Var(_) => 0,
    }
}

/// The checked 64-bit application succeeds: the result exists, fits the
/// 64-bit range, and avoids the one remainder case the machine rejects.
pub open spec fn op_ok64(t: Term, a: int, b: int) -> bool {
    &&& op_defined(t, a, b)
    &&& i64::MIN <= op_val(t, a, b) <= i64::MAX
    &&& !(t is Mod && a == i64::MIN && b == -1)
}

impl Term {
    /// Whether this term is an operator opcode.
    pub fn is_op(self) -> (r: bool)
        ensures
            r == is_opcode(self),
    {
        match self {
            Term::Num(_) | Term::Var(_) => false,
            _ => true,
        }
    }

    /// Apply this opcode to the operands `a` (left) and `b` (right) with
    /// checked 64-bit arithmetic. Returns `None` for a non-opcode term, for a
    /// zero divisor, and for a result outside the 64-bit range.
    pub fn as_op(self, a: i64, b: i64) -> (r: Option<i64>)
        ensures
            is_opcode(self) && op_ok64(self, a as int, b as int) ==> r == Some(
                op_val(self, a as int, b as int) as i64,
            ),
            !(is_opcode(self) && op_ok64(self, a as int, b as int)) ==> r is None,
    {
        match self {
            Term::Add => a.checked_add(b),
            Term::Sub => a.checked_sub(b),
            Term::Mul => a.checked_mul(b),
            Term::Div => a.checked_div(b),
            Term::Mod => a.checked_rem(b),
            Term::Max => Some(if a >= b { a } else { b }),
            Term::Min => Some(if a <= b { a } else { b }),
            Term::And => Some(if a != 0 && b != 0 { 1 } else { 0 }),
            Term::Or => Some(if a != 0 || b != 0 { 1 } else { 0 }),
            Term::Gte => Some(if a >= b { 1 } else { 0 }),
            Term::Lt => Some(if a < b { 1 } else { 0 }),
            Term::Num(_) | Term::Var(_) => None,
        }
    }
}

} // verus!
