use vstd::prelude::*;

use crate::term::{is_leaf, is_opcode, op_defined, op_val, Term, INFINITY};

verus! {

/// Outcome of running a postfix term sequence against a value stack:
/// the final stack, or the first failure met while walking the terms.
/// `MissingVar` is an unbound variable; `Stuck` is an operand-stack
/// underflow, an undefined operation, or a value outside the accepted range.
pub enum RunOut {
    Going(Seq<int>),
    MissingVar,
    Stuck,
}

/// Every stack value lies within `[lo, hi]`.
pub open spec fn in_range(st: Seq<int>, lo: int, hi: int) -> bool {
    forall|k: int| 0 <= k < st.len() ==> lo <= #[trigger] st[k] <= hi
}

/// One mathematical stack machine serves two readings of an expression.
///
/// With `lo = i64::MIN, hi = i64::MAX` it mirrors the checked 64-bit
/// evaluator exactly: literals push their value, variables push their
/// binding, operators pop the left then the right operand and push the
/// opcode's value, failing on a zero divisor or a result outside 64 bits.
///
/// With `lo = 0, hi = INFINITY` it is the bounded reading under which the
/// peephole rewrites are exact: every value met must stay a representable
/// nonnegative literal.
pub open spec fn walk(s: Seq<Term>, st: Seq<int>, env: Map<char, int>, lo: int, hi: int) -> RunOut
    decreases s.len(),
{
    if s.len() == 0 {
        RunOut::Going(st)
    } else {
        match s[0] {
            Term::Num(n) => if lo <= n as int && n as int <= hi {
                walk(s.drop_first(), st.push(n as int), env, lo, hi)
            } else {
                RunOut::Stuck
            },
            Term::Var(c) => if env.dom().contains(c) {
                if lo <= env[c] && env[c] <= hi {
                    walk(s.drop_first(), st.push(env[c]), env, lo, hi)
                } else {
                    RunOut::Stuck
                }
            } else {
                RunOut::MissingVar
            },
            _ => if st.len() < 2 {
                RunOut::Stuck
            } else {
                let a = st[st.len() - 1];
                let b = st[st.len() - 2];
                if op_defined(s[0], a, b) && lo <= op_val(s[0], a, b) && op_val(s[0], a, b) <= hi
                    && !(s[0] is Mod && a == i64::MIN as int && b == -1) {
                    walk(s.drop_first(), st.take(st.len() - 2).push(op_val(s[0], a, b)), env, lo, hi)
                } else {
                    RunOut::Stuck
                }
            },
        }
    }
}

/// The checked 64-bit machine: what the executable evaluator computes.
pub open spec fn walk64(s: Seq<Term>, st: Seq<int>, env: Map<char, int>) -> RunOut {
    walk(s, st, env, i64::MIN as int, i64::MAX as int)
}

/// The bounded machine over `[0, INFINITY]`, from the empty stack.
pub open spec fn walk_nn(s: Seq<Term>, env: Map<char, int>) -> RunOut {
    walk(s, Seq::empty(), env, 0, INFINITY as int)
}

/// Net stack effect of a term sequence: leaves push one, opcodes pop two
/// and push one.
pub open spec fn net_of(s: Seq<Term>) -> int
    decreases s.len(),
{
    if s.len() == 0 {
        0
    } else {
        net_of(s.drop_first()) + if is_leaf(s[0]) {
            1int
        } else {
            -1int
        }
    }
}

/// Walking from depth `d`, no opcode meets fewer than two stack values.
pub open spec fn depths_ok(s: Seq<Term>, d: int) -> bool
    decreases s.len(),
{
    if s.len() == 0 {
        true
    } else if is_leaf(s[0]) {
        depths_ok(s.drop_first(), d + 1)
    } else {
        d >= 2 && depths_ok(s.drop_first(), d - 1)
    }
}

/// Well-formed postfix: the walk never underflows and leaves exactly one
/// value on the stack.
pub open spec fn wf(s: Seq<Term>) -> bool {
    depths_ok(s, 0) && net_of(s) == 1
}

/// A walk that never underflows from depth `d` also never underflows from
/// any greater depth.
pub proof fn lemma_depths_mono(s: Seq<Term>, d1: int, d2: int)
    requires
        depths_ok(s, d1),
        d1 <= d2,
    ensures
        depths_ok(s, d2),
    decreases s.len(),
{
    if s.len() > 0 {
        if is_leaf(s[0]) {
            lemma_depths_mono(s.drop_first(), d1 + 1, d2 + 1);
        } else {
            lemma_depths_mono(s.drop_first(), d1 - 1, d2 - 1);
        }
    }
}

pub proof fn lemma_net_append(s1: Seq<Term>, s2: Seq<Term>)
    ensures
        net_of(s1 + s2) == net_of(s1) + net_of(s2),
    decreases s1.len(),
{
    if s1.len() == 0 {
        assert(s1 + s2 =~= s2);
    } else {
        assert((s1 + s2).drop_first() =~= s1.drop_first() + s2);
        lemma_net_append(s1.drop_first(), s2);
    }
}

pub proof fn lemma_depths_append(s1: Seq<Term>, s2: Seq<Term>, d: int)
    ensures
        depths_ok(s1 + s2, d) <==> (depths_ok(s1, d) && depths_ok(s2, d + net_of(s1))),
    decreases s1.len(),
{
    if s1.len() == 0 {
        assert(s1 + s2 =~= s2);
    } else {
        assert((s1 + s2).drop_first() =~= s1.drop_first() + s2);
        let d2 = if is_leaf(s1[0]) {
            d + 1
        } else {
            d - 1
        };
        lemma_depths_append(s1.drop_first(), s2, d2);
    }
}

/// Sequential composition: walking `s1 + s2` is walking `s1`, then `s2`
/// from the stack `s1` left.
pub proof fn lemma_walk_append(
    s1: Seq<Term>,
    s2: Seq<Term>,
    st: Seq<int>,
    env: Map<char, int>,
    lo: int,
    hi: int,
)
    ensures
        walk(s1 + s2, st, env, lo, hi) == match walk(s1, st, env, lo, hi) {
            RunOut::Going(m) => walk(s2, m, env, lo, hi),
            e => e,
        },
    decreases s1.len(),
{
    if s1.len() == 0 {
        assert(s1 + s2 =~= s2);
    } else {
        assert((s1 + s2).drop_first() =~= s1.drop_first() + s2);
        match s1[0] {
            Term::Num(n) => {
                if lo <= n as int && n as int <= hi {
                    lemma_walk_append(s1.drop_first(), s2, st.push(n as int), env, lo, hi);
                }
            },
            Term::Var(c) => {
                if env.dom().contains(c) && lo <= env[c] && env[c] <= hi {
                    lemma_walk_append(s1.drop_first(), s2, st.push(env[c]), env, lo, hi);
                }
            },
            _ => {
                if st.len() >= 2 {
                    let a = st[st.len() - 1];
                    let b = st[st.len() - 2];
                    if op_defined(s1[0], a, b) && lo <= op_val(s1[0], a, b) && op_val(s1[0], a, b)
                        <= hi && !(s1[0] is Mod && a == i64::MIN as int && b == -1) {
                        lemma_walk_append(
                            s1.drop_first(),
                            s2,
                            st.take(st.len() - 2).push(op_val(s1[0], a, b)),
                            env,
                            lo,
                            hi,
                        );
                    }
                }
            },
        }
    }
}

/// A successful walk grows the stack by exactly the net effect.
pub proof fn lemma_walk_stack_len(s: Seq<Term>, st: Seq<int>, env: Map<char, int>, lo: int, hi: int)
    requires
        walk(s, st, env, lo, hi) is Going,
    ensures
        walk(s, st, env, lo, hi)->Going_0.len() == st.len() + net_of(s),
    decreases s.len(),
{
    if s.len() == 0 {
    } else {
        match s[0] {
            Term::Num(n) => {
                lemma_walk_stack_len(s.drop_first(), st.push(n as int), env, lo, hi);
            },
            Term::Var(c) => {
                lemma_walk_stack_len(s.drop_first(), st.push(env[c]), env, lo, hi);
            },
            _ => {
                let a = st[st.len() - 1];
                let b = st[st.len() - 2];
                lemma_walk_stack_len(
                    s.drop_first(),
                    st.take(st.len() - 2).push(op_val(s[0], a, b)),
                    env,
                    lo,
                    hi,
                );
            },
        }
    }
}

/// A successful walk from an in-range stack ends with an in-range stack.
pub proof fn lemma_walk_in_range(s: Seq<Term>, st: Seq<int>, env: Map<char, int>, lo: int, hi: int)
    requires
        in_range(st, lo, hi),
        walk(s, st, env, lo, hi) is Going,
    ensures
        in_range(walk(s, st, env, lo, hi)->Going_0, lo, hi),
    decreases s.len(),
{
    if s.len() == 0 {
    } else {
        match s[0] {
            Term::Num(n) => {
                lemma_walk_in_range(s.drop_first(), st.push(n as int), env, lo, hi);
            },
            Term::Var(c) => {
                lemma_walk_in_range(s.drop_first(), st.push(env[c]), env, lo, hi);
            },
            _ => {
                let a = st[st.len() - 1];
                let b = st[st.len() - 2];
                lemma_walk_in_range(
                    s.drop_first(),
                    st.take(st.len() - 2).push(op_val(s[0], a, b)),
                    env,
                    lo,
                    hi,
                );
            },
        }
    }
}

/// Frame rule: a sequence that never reaches below depth `st.len()` walks
/// the same above any stack placed underneath.
pub proof fn lemma_walk_frame(
    s: Seq<Term>,
    pre: Seq<int>,
    st: Seq<int>,
    env: Map<char, int>,
    lo: int,
    hi: int,
)
    requires
        depths_ok(s, st.len() as int),
    ensures
        walk(s, pre + st, env, lo, hi) == match walk(s, st, env, lo, hi) {
            RunOut::Going(m) => RunOut::Going(pre + m),
            e => e,
        },
    decreases s.len(),
{
    if s.len() == 0 {
    } else {
        match s[0] {
            Term::Num(n) => {
                if lo <= n as int && n as int <= hi {
                    assert((pre + st).push(n as int) =~= pre + st.push(n as int));
                    lemma_walk_frame(s.drop_first(), pre, st.push(n as int), env, lo, hi);
                }
            },
            Term::Var(c) => {
                if env.dom().contains(c) && lo <= env[c] && env[c] <= hi {
                    assert((pre + st).push(env[c]) =~= pre + st.push(env[c]));
                    lemma_walk_frame(s.drop_first(), pre, st.push(env[c]), env, lo, hi);
                }
            },
            _ => {
                let big = pre + st;
                assert(st.len() >= 2);
                assert(big[big.len() - 1] == st[st.len() - 1]);
                assert(big[big.len() - 2] == st[st.len() - 2]);
                let a = st[st.len() - 1];
                let b = st[st.len() - 2];
                if op_defined(s[0], a, b) && lo <= op_val(s[0], a, b) && op_val(s[0], a, b) <= hi
                    && !(s[0] is Mod && a == i64::MIN as int && b == -1) {
                    let v = op_val(s[0], a, b);
                    assert(big.take(big.len() - 2).push(v) =~= pre + st.take(st.len() - 2).push(v));
                    lemma_walk_frame(
                        s.drop_first(),
                        pre,
                        st.take(st.len() - 2).push(v),
                        env,
                        lo,
                        hi,
                    );
                }
            },
        }
    }
}

/// A well-formed sequence behaves as one unit: above any stack it either
/// pushes its single value or fails the same way it fails from the empty
/// stack.
pub proof fn lemma_walk_complete(s: Seq<Term>, st: Seq<int>, env: Map<char, int>, lo: int, hi: int)
    requires
        wf(s),
    ensures
        walk(s, st, env, lo, hi) == match walk(s, Seq::<int>::empty(), env, lo, hi) {
            RunOut::Going(m) => RunOut::Going(st + m),
            e => e,
        },
        walk(s, Seq::<int>::empty(), env, lo, hi) is Going ==> walk(
            s,
            Seq::<int>::empty(),
            env,
            lo,
            hi,
        )->Going_0.len() == 1,
{
    assert(st + Seq::<int>::empty() =~= st);
    lemma_walk_frame(s, st, Seq::<int>::empty(), env, lo, hi);
    if walk(s, Seq::<int>::empty(), env, lo, hi) is Going {
        lemma_walk_stack_len(s, Seq::<int>::empty(), env, lo, hi);
    }
}

/// Joining two well-formed operands under an opcode, right operand first,
/// gives a well-formed sequence.
pub proof fn lemma_wf_join(a: Seq<Term>, b: Seq<Term>, t: Term)
    requires
        wf(a),
        wf(b),
        is_opcode(t),
    ensures
        wf(b + a + seq![t]),
    decreases a.len() + b.len(),
{
    lemma_net_append(b + a, seq![t]);
    lemma_net_append(b, a);
    lemma_depths_append(b + a, seq![t], 0);
    lemma_depths_append(b, a, 0);
    assert(seq![t].drop_first() =~= Seq::<Term>::empty());
    assert(net_of(Seq::<Term>::empty()) == 0);
    assert(net_of(seq![t]) == -1int);
    assert(depths_ok(Seq::<Term>::empty(), 1));
    assert(depths_ok(seq![t], 2));
    lemma_depths_mono(a, 0, 1);
}

} // verus!
