use vstd::prelude::*;

use crate::expr::lit;
use crate::ops::{
    spec_add, spec_and, spec_build, spec_div, spec_gte, spec_lt, spec_max, spec_min, spec_mul,
    spec_or, spec_rem, spec_sub,
};
use crate::semantics::{
    in_range, lemma_walk_append, lemma_walk_complete, lemma_walk_in_range, lemma_walk_stack_len,
    walk, walk64, walk_nn, wf, RunOut,
};
use crate::simplify::lemma_simplify_props;
use crate::subst::{lemma_splice_walk, lemma_splice_wf, splice};
use crate::term::{bool_int, is_opcode, op_defined, op_val, trunc_div, trunc_rem, Term, INFINITY};

verus! {

/// Well-formedness, run: a well-formed expression whose walk succeeds
/// leaves exactly one value on the stack, whatever the environment binds.
pub proof fn lemma_single_result(s: Seq<Term>, env: Map<char, int>)
    requires
        wf(s),
        walk64(s, Seq::<int>::empty(), env) is Going,
    ensures
        walk64(s, Seq::<int>::empty(), env)->Going_0.len() == 1,
{
    lemma_walk_stack_len(s, Seq::<int>::empty(), env, i64::MIN as int, i64::MAX as int);
}

/// The bounded reading agrees with the checked 64-bit machine: where the
/// bounded walk succeeds, the evaluator computes the same stack.
pub proof fn lemma_bounded_to_machine(s: Seq<Term>, st: Seq<int>, env: Map<char, int>)
    requires
        in_range(st, 0, INFINITY as int),
        walk(s, st, env, 0, INFINITY as int) is Going,
    ensures
        walk64(s, st, env) == walk(s, st, env, 0, INFINITY as int),
    decreases s.len(),
{
    let hi = INFINITY as int;
    if s.len() == 0 {
    } else {
        match s[0] {
            Term::Num(n) => {
                assert(in_range(st.push(n as int), 0, hi));
                lemma_bounded_to_machine(s.drop_first(), st.push(n as int), env);
            },
            Term::Var(c) => {
                assert(in_range(st.push(env[c]), 0, hi));
                lemma_bounded_to_machine(s.drop_first(), st.push(env[c]), env);
            },
            _ => {
                let a = st[st.len() - 1];
                let b = st[st.len() - 2];
                let v = op_val(s[0], a, b);
                assert(0 <= a <= hi && 0 <= b <= hi);
                assert(in_range(st.take(st.len() - 2).push(v), 0, hi)) by {
                    assert(forall|k: int|
                        0 <= k < st.len() - 2 ==> st.take(st.len() - 2)[k] == st[k]);
                }
                lemma_bounded_to_machine(s.drop_first(), st.take(st.len() - 2).push(v), env);
            },
        }
    }
}

/// The one-term literal denotes its value.
pub proof fn lemma_lit_value(n: int, env: Map<char, int>)
    requires
        0 <= n <= INFINITY as int,
    ensures
        walk_nn(lit(n), env) == RunOut::Going(seq![n]),
{
    let hi = INFINITY as int;
    assert(lit(n)[0] == Term::Num(n as i32));
    assert(lit(n).drop_first() =~= Seq::<Term>::empty());
    assert(walk(lit(n), Seq::<int>::empty(), env, 0, hi) == walk(
        Seq::<Term>::empty(),
        Seq::<int>::empty().push(n),
        env,
        0,
        hi,
    ));
    assert(Seq::<int>::empty().push(n) =~= seq![n]);
}

/// Evaluation agreement for the raw construction: joining two expressions
/// under an opcode and simplifying denotes the opcode's value on their
/// values, whenever that value exists and stays in the bounded range.
pub proof fn lemma_build_value(
    op: Term,
    a: Seq<Term>,
    b: Seq<Term>,
    va: int,
    vb: int,
    env: Map<char, int>,
)
    requires
        wf(a),
        wf(b),
        is_opcode(op),
        walk_nn(a, env) == RunOut::Going(seq![va]),
        walk_nn(b, env) == RunOut::Going(seq![vb]),
        op_defined(op, va, vb),
        0 <= op_val(op, va, vb) <= INFINITY as int,
    ensures
        walk_nn(spec_build(op, a, b), env) == RunOut::Going(seq![op_val(op, va, vb)]),
{
    let hi = INFINITY as int;
    let e0 = Seq::<int>::empty();
    let raw = b + a + seq![op];
    crate::semantics::lemma_wf_join(a, b, op);
    lemma_walk_in_range(a, e0, env, 0, hi);
    lemma_walk_in_range(b, e0, env, 0, hi);
    assert(seq![va][0] == va && seq![vb][0] == vb);
    assert(raw =~= b + (a + seq![op]));
    lemma_walk_append(b, a + seq![op], e0, env, 0, hi);
    lemma_walk_append(a, seq![op], seq![vb], env, 0, hi);
    lemma_walk_complete(a, seq![vb], env, 0, hi);
    assert(seq![vb] + seq![va] =~= seq![vb, va]);
    let st2 = seq![vb, va];
    assert(walk(a, seq![vb], env, 0, hi) == RunOut::Going(st2));
    assert(seq![op][0] == op);
    assert(seq![op].drop_first() =~= Seq::<Term>::empty());
    assert(st2[st2.len() - 1] == va && st2[st2.len() - 2] == vb);
    let v = op_val(op, va, vb);
    assert(st2.take(st2.len() - 2).push(v) =~= seq![v]);
    assert(walk(seq![op], st2, env, 0, hi) == walk(Seq::<Term>::empty(), seq![v], env, 0, hi));
    assert(walk_nn(raw, env) == RunOut::Going(seq![v]));
    lemma_simplify_props(raw);
}

/// Evaluation agreement for multiplication, short-circuits included.
pub proof fn lemma_mul_value(a: Seq<Term>, b: Seq<Term>, va: int, vb: int, env: Map<char, int>)
    requires
        wf(a),
        wf(b),
        walk_nn(a, env) == RunOut::Going(seq![va]),
        walk_nn(b, env) == RunOut::Going(seq![vb]),
        0 <= va * vb <= INFINITY as int,
    ensures
        walk_nn(spec_mul(a, b), env) == RunOut::Going(seq![va * vb]),
{
    lemma_walk_in_range(a, Seq::<int>::empty(), env, 0, INFINITY as int);
    lemma_walk_in_range(b, Seq::<int>::empty(), env, 0, INFINITY as int);
    assert(seq![va][0] == va && seq![vb][0] == vb);
    if b == lit(1) {
        lemma_lit_value(1, env);
        assert(vb == 1);
        assert(va * 1 == va);
    } else if a == lit(1) {
        lemma_lit_value(1, env);
        assert(va == 1);
        assert(1 * vb == vb);
    } else if b == lit(0) || a == lit(0) {
        lemma_lit_value(0, env);
        assert(va * vb == 0) by (nonlinear_arith)
            requires
                va == 0 || vb == 0,
        ;
    } else {
        lemma_build_value(Term::Mul, a, b, va, vb, env);
    }
}

/// Evaluation agreement for addition, short-circuits included.
pub proof fn lemma_add_value(a: Seq<Term>, b: Seq<Term>, va: int, vb: int, env: Map<char, int>)
    requires
        wf(a),
        wf(b),
        walk_nn(a, env) == RunOut::Going(seq![va]),
        walk_nn(b, env) == RunOut::Going(seq![vb]),
        0 <= va + vb <= INFINITY as int,
    ensures
        walk_nn(spec_add(a, b), env) == RunOut::Going(seq![va + vb]),
{
    lemma_walk_in_range(a, Seq::<int>::empty(), env, 0, INFINITY as int);
    lemma_walk_in_range(b, Seq::<int>::empty(), env, 0, INFINITY as int);
    assert(seq![va][0] == va && seq![vb][0] == vb);
    if b == lit(0) {
        lemma_lit_value(0, env);
        assert(vb == 0);
    } else if a == lit(0) {
        lemma_lit_value(0, env);
        assert(va == 0);
    } else if a == b {
        assert(va == vb);
        crate::ops::lemma_lit_wf(2);
        lemma_lit_value(2, env);
        lemma_mul_value(a, lit(2), va, 2, env);
        assert(va * 2 == va + vb);
    } else {
        lemma_build_value(Term::Add, a, b, va, vb, env);
    }
}

/// Evaluation agreement for subtraction, short-circuits included. The
/// difference must stay nonnegative for the bounded reading.
pub proof fn lemma_sub_value(a: Seq<Term>, b: Seq<Term>, va: int, vb: int, env: Map<char, int>)
    requires
        wf(a),
        wf(b),
        walk_nn(a, env) == RunOut::Going(seq![va]),
        walk_nn(b, env) == RunOut::Going(seq![vb]),
        va >= vb,
    ensures
        walk_nn(spec_sub(a, b), env) == RunOut::Going(seq![va - vb]),
{
    lemma_walk_in_range(a, Seq::<int>::empty(), env, 0, INFINITY as int);
    lemma_walk_in_range(b, Seq::<int>::empty(), env, 0, INFINITY as int);
    assert(seq![va][0] == va && seq![vb][0] == vb);
    if b == lit(0) {
        lemma_lit_value(0, env);
    } else if a == b {
        lemma_lit_value(0, env);
        assert(va == vb);
    } else {
        lemma_build_value(Term::Sub, a, b, va, vb, env);
    }
}

/// Evaluation agreement for division, short-circuits included. The
/// divisor must be nonzero.
pub proof fn lemma_div_value(a: Seq<Term>, b: Seq<Term>, va: int, vb: int, env: Map<char, int>)
    requires
        wf(a),
        wf(b),
        walk_nn(a, env) == RunOut::Going(seq![va]),
        walk_nn(b, env) == RunOut::Going(seq![vb]),
        vb != 0,
    ensures
        walk_nn(spec_div(a, b), env) == RunOut::Going(seq![trunc_div(va, vb)]),
{
    lemma_walk_in_range(a, Seq::<int>::empty(), env, 0, INFINITY as int);
    lemma_walk_in_range(b, Seq::<int>::empty(), env, 0, INFINITY as int);
    assert(seq![va][0] == va && seq![vb][0] == vb);
    assert(0 <= va / vb <= va) by (nonlinear_arith)
        requires
            va >= 0,
            vb >= 1,
    ;
    assert(trunc_div(va, vb) == if va == 0 {
        0
    } else {
        va / vb
    });
    if b == lit(1) {
        lemma_lit_value(1, env);
        assert(vb == 1);
        assert(va / 1 == va);
    } else if a == b {
        lemma_lit_value(1, env);
        assert(va == vb);
        assert(va / va == 1) by (nonlinear_arith)
            requires
                va >= 1,
        ;
    } else if a == lit(0) {
        lemma_lit_value(0, env);
        assert(va == 0);
    } else {
        lemma_build_value(Term::Div, a, b, va, vb, env);
    }
}

/// Evaluation agreement for modulus, short-circuits included. The divisor
/// must be nonzero.
pub proof fn lemma_rem_value(a: Seq<Term>, b: Seq<Term>, va: int, vb: int, env: Map<char, int>)
    requires
        wf(a),
        wf(b),
        walk_nn(a, env) == RunOut::Going(seq![va]),
        walk_nn(b, env) == RunOut::Going(seq![vb]),
        vb != 0,
    ensures
        walk_nn(spec_rem(a, b), env) == RunOut::Going(seq![trunc_rem(va, vb)]),
{
    lemma_walk_in_range(a, Seq::<int>::empty(), env, 0, INFINITY as int);
    lemma_walk_in_range(b, Seq::<int>::empty(), env, 0, INFINITY as int);
    assert(seq![va][0] == va && seq![vb][0] == vb);
    assert(0 <= va % vb < vb) by (nonlinear_arith)
        requires
            va >= 0,
            vb >= 1,
    ;
    assert(trunc_rem(va, vb) == if va == 0 {
        0
    } else {
        va % vb
    });
    if b == lit(1) || b == a {
        lemma_lit_value(0, env);
        if b == lit(1) {
            lemma_lit_value(1, env);
            assert(vb == 1);
            assert(va % 1 == 0) by (nonlinear_arith)
                requires
                    va >= 0,
            ;
        } else {
            assert(va == vb);
            assert(va % va == 0) by (nonlinear_arith)
                requires
                    va >= 1,
            ;
        }
    } else {
        lemma_build_value(Term::Mod, a, b, va, vb, env);
    }
}

/// Evaluation agreement for conjunction, short-circuits included, over
/// boolean operand values.
pub proof fn lemma_and_value(a: Seq<Term>, b: Seq<Term>, va: int, vb: int, env: Map<char, int>)
    requires
        wf(a),
        wf(b),
        walk_nn(a, env) == RunOut::Going(seq![va]),
        walk_nn(b, env) == RunOut::Going(seq![vb]),
        va <= 1,
        vb <= 1,
    ensures
        walk_nn(spec_and(a, b), env) == RunOut::Going(seq![bool_int(va != 0 && vb != 0)]),
{
    lemma_walk_in_range(a, Seq::<int>::empty(), env, 0, INFINITY as int);
    lemma_walk_in_range(b, Seq::<int>::empty(), env, 0, INFINITY as int);
    assert(seq![va][0] == va && seq![vb][0] == vb);
    if b == lit(0) || a == lit(0) {
        lemma_lit_value(0, env);
    } else if b == lit(1) {
        lemma_lit_value(1, env);
    } else if a == lit(1) {
        lemma_lit_value(1, env);
    } else {
        lemma_build_value(Term::And, a, b, va, vb, env);
    }
}

/// Evaluation agreement for disjunction, short-circuits included, over
/// boolean operand values.
pub proof fn lemma_or_value(a: Seq<Term>, b: Seq<Term>, va: int, vb: int, env: Map<char, int>)
    requires
        wf(a),
        wf(b),
        walk_nn(a, env) == RunOut::Going(seq![va]),
        walk_nn(b, env) == RunOut::Going(seq![vb]),
        va <= 1,
        vb <= 1,
    ensures
        walk_nn(spec_or(a, b), env) == RunOut::Going(seq![bool_int(va != 0 || vb != 0)]),
{
    lemma_walk_in_range(a, Seq::<int>::empty(), env, 0, INFINITY as int);
    lemma_walk_in_range(b, Seq::<int>::empty(), env, 0, INFINITY as int);
    assert(seq![va][0] == va && seq![vb][0] == vb);
    if b == lit(1) || a == lit(1) {
        lemma_lit_value(1, env);
    } else {
        lemma_build_value(Term::Or, a, b, va, vb, env);
    }
}

/// Evaluation agreement for minimum, short-circuit included.
pub proof fn lemma_min_value(a: Seq<Term>, b: Seq<Term>, va: int, vb: int, env: Map<char, int>)
    requires
        wf(a),
        wf(b),
        walk_nn(a, env) == RunOut::Going(seq![va]),
        walk_nn(b, env) == RunOut::Going(seq![vb]),
    ensures
        walk_nn(spec_min(a, b), env) == RunOut::Going(
            seq![if va <= vb {
                va
            } else {
                vb
            }],
        ),
{
    lemma_walk_in_range(a, Seq::<int>::empty(), env, 0, INFINITY as int);
    lemma_walk_in_range(b, Seq::<int>::empty(), env, 0, INFINITY as int);
    assert(seq![va][0] == va && seq![vb][0] == vb);
    if b == a {
        assert(va == vb);
    } else {
        lemma_build_value(Term::Min, a, b, va, vb, env);
    }
}

/// Evaluation agreement for maximum, short-circuits included.
pub proof fn lemma_max_value(a: Seq<Term>, b: Seq<Term>, va: int, vb: int, env: Map<char, int>)
    requires
        wf(a),
        wf(b),
        walk_nn(a, env) == RunOut::Going(seq![va]),
        walk_nn(b, env) == RunOut::Going(seq![vb]),
    ensures
        walk_nn(spec_max(a, b), env) == RunOut::Going(
            seq![if va >= vb {
                va
            } else {
                vb
            }],
        ),
{
    lemma_walk_in_range(a, Seq::<int>::empty(), env, 0, INFINITY as int);
    lemma_walk_in_range(b, Seq::<int>::empty(), env, 0, INFINITY as int);
    assert(seq![va][0] == va && seq![vb][0] == vb);
    if b == a || b == lit(0) {
        if b == lit(0) {
            lemma_lit_value(0, env);
            assert(vb == 0);
        }
    } else if a == lit(0) {
        lemma_lit_value(0, env);
        assert(va == 0);
    } else {
        lemma_build_value(Term::Max, a, b, va, vb, env);
    }
}

/// Evaluation agreement for the `>=` comparison, short-circuit included.
pub proof fn lemma_gte_value(a: Seq<Term>, b: Seq<Term>, va: int, vb: int, env: Map<char, int>)
    requires
        wf(a),
        wf(b),
        walk_nn(a, env) == RunOut::Going(seq![va]),
        walk_nn(b, env) == RunOut::Going(seq![vb]),
    ensures
        walk_nn(spec_gte(a, b), env) == RunOut::Going(seq![bool_int(va >= vb)]),
{
    lemma_walk_in_range(a, Seq::<int>::empty(), env, 0, INFINITY as int);
    lemma_walk_in_range(b, Seq::<int>::empty(), env, 0, INFINITY as int);
    assert(seq![va][0] == va && seq![vb][0] == vb);
    if b == a {
        lemma_lit_value(1, env);
        assert(va == vb);
    } else {
        lemma_build_value(Term::Gte, a, b, va, vb, env);
    }
}

/// Evaluation agreement for the `<` comparison, away from the literal
/// modulus shortcut, which `lemma_lt_mod_value` covers on the shape the
/// modulus combinator builds.
pub proof fn lemma_lt_value(a: Seq<Term>, b: Seq<Term>, va: int, vb: int, env: Map<char, int>)
    requires
        wf(a),
        wf(b),
        walk_nn(a, env) == RunOut::Going(seq![va]),
        walk_nn(b, env) == RunOut::Going(seq![vb]),
        !(b.len() == 1 && b[0] is Num && a.len() >= 1 && a.last() == Term::Mod && a[0] == b[0]),
    ensures
        walk_nn(spec_lt(a, b), env) == RunOut::Going(seq![bool_int(va < vb)]),
{
    lemma_walk_in_range(a, Seq::<int>::empty(), env, 0, INFINITY as int);
    lemma_walk_in_range(b, Seq::<int>::empty(), env, 0, INFINITY as int);
    assert(seq![va][0] == va && seq![vb][0] == vb);
    if b == a {
        lemma_lit_value(0, env);
        assert(va == vb);
    } else {
        lemma_build_value(Term::Lt, a, b, va, vb, env);
    }
}

/// Evaluation agreement for the modulus-comparison shortcut, on the shape
/// the modulus combinator builds: a remainder by a positive literal is
/// below that literal, so replacing the comparison by `1` is exact.
pub proof fn lemma_lt_mod_value(inner: Seq<Term>, n: i32, iv: int, env: Map<char, int>)
    requires
        wf(inner),
        walk_nn(inner, env) == RunOut::Going(seq![iv]),
        n > 0,
    ensures
        walk_nn(seq![Term::Num(n)] + inner + seq![Term::Mod], env) == RunOut::Going(
            seq![trunc_rem(iv, n as int)],
        ),
        trunc_rem(iv, n as int) < n as int,
        walk_nn(
            spec_lt(seq![Term::Num(n)] + inner + seq![Term::Mod], lit(n as int)),
            env,
        ) == RunOut::Going(seq![1]),
{
    let hi = INFINITY as int;
    let e0 = Seq::<int>::empty();
    let a = seq![Term::Num(n)] + inner + seq![Term::Mod];
    lemma_walk_in_range(inner, e0, env, 0, hi);
    assert(seq![iv][0] == iv);
    assert(0 <= iv <= hi);
    assert(0 <= iv % (n as int) < n as int) by (nonlinear_arith)
        requires
            iv >= 0,
            n >= 1,
    ;
    assert(trunc_rem(iv, n as int) == if iv == 0 {
        0
    } else {
        iv % (n as int)
    });
    assert(a =~= seq![Term::Num(n)] + (inner + seq![Term::Mod]));
    assert(a[0] == Term::Num(n));
    assert((seq![Term::Num(n)] + (inner + seq![Term::Mod])).drop_first() =~= inner + seq![
        Term::Mod,
    ]);
    let st1 = e0.push(n as int);
    assert(walk(a, e0, env, 0, hi) == walk(inner + seq![Term::Mod], st1, env, 0, hi));
    lemma_walk_append(inner, seq![Term::Mod], st1, env, 0, hi);
    lemma_walk_complete(inner, st1, env, 0, hi);
    let st2 = st1 + seq![iv];
    assert(st2 =~= seq![n as int, iv]);
    assert(walk(inner, st1, env, 0, hi) == RunOut::Going(st2));
    assert(seq![Term::Mod][0] == Term::Mod);
    assert(seq![Term::Mod].drop_first() =~= Seq::<Term>::empty());
    assert(st2[st2.len() - 1] == iv && st2[st2.len() - 2] == n as int);
    let v = trunc_rem(iv, n as int);
    assert(st2.take(st2.len() - 2).push(v) =~= seq![v]);
    assert(walk(seq![Term::Mod], st2, env, 0, hi) == walk(
        Seq::<Term>::empty(),
        seq![v],
        env,
        0,
        hi,
    ));
    lemma_identity_mod_lt(inner, n);
    lemma_lit_value(1, env);
}

/// Substitution law: substituting `t` for `v` and simplifying, then
/// evaluating under `env`, equals evaluating the unsubstituted sequence under `env`
/// extended with `v` bound to `t`'s value — wherever the latter bounded
/// evaluation succeeds.
pub proof fn lemma_substitution_law(
    s: Seq<Term>,
    v: char,
    t: Seq<Term>,
    tv: int,
    env: Map<char, int>,
)
    requires
        wf(s),
        wf(t),
        walk_nn(t, env) == RunOut::Going(seq![tv]),
    ensures
        walk_nn(s, env.insert(v, tv)) is Going ==> walk_nn(
            crate::simplify::simplify_spec(splice(s, v, t)),
            env,
        ) == walk_nn(s, env.insert(v, tv)),
{
    lemma_splice_walk(s, v, t, tv, Seq::<int>::empty(), env);
    lemma_splice_wf(s, v, t);
    lemma_simplify_props(splice(s, v, t));
}

// The identity rules, each a syntactic equality the combinators guarantee
// by construction.

/// `e + 0 ≡ e`.
pub proof fn lemma_identity_add_zero(a: Seq<Term>)
    ensures
        spec_add(a, lit(0)) == a,
{
}

/// `e · 1 ≡ e`.
pub proof fn lemma_identity_mul_one(a: Seq<Term>)
    ensures
        spec_mul(a, lit(1)) == a,
{
}

/// `e · 0 ≡ 0`.
pub proof fn lemma_identity_mul_zero(a: Seq<Term>)
    ensures
        spec_mul(a, lit(0)) == lit(0),
{
    assert(lit(0)[0] == Term::Num(0));
    assert(lit(1)[0] == Term::Num(1));
    assert(lit(0) != lit(1));
}

/// `e / 1 ≡ e`.
pub proof fn lemma_identity_div_one(a: Seq<Term>)
    ensures
        spec_div(a, lit(1)) == a,
{
}

/// `e − e ≡ 0`.
pub proof fn lemma_identity_sub_self(a: Seq<Term>)
    ensures
        spec_sub(a, a) == lit(0),
{
}

/// `e / e ≡ 1`.
pub proof fn lemma_identity_div_self(a: Seq<Term>)
    ensures
        spec_div(a, a) == lit(1),
{
}

/// `e mod 1 ≡ 0` and `e mod e ≡ 0`.
pub proof fn lemma_identity_rem(a: Seq<Term>)
    ensures
        spec_rem(a, lit(1)) == lit(0),
        spec_rem(a, a) == lit(0),
{
}

/// `min(e, e) ≡ e`.
pub proof fn lemma_identity_min_self(a: Seq<Term>)
    ensures
        spec_min(a, a) == a,
{
}

/// `max(e, e) ≡ e` and `max(e, 0) ≡ e` and `max(0, e) ≡ e`.
pub proof fn lemma_identity_max(a: Seq<Term>)
    ensures
        spec_max(a, a) == a,
        spec_max(a, lit(0)) == a,
        a != lit(0) ==> spec_max(lit(0), a) == a,
    {
}

/// `e ≥ e ≡ 1`.
pub proof fn lemma_identity_gte_self(a: Seq<Term>)
    ensures
        spec_gte(a, a) == lit(1),
{
}

/// `e < e ≡ 0`.
pub proof fn lemma_identity_lt_self(a: Seq<Term>)
    ensures
        spec_lt(a, a) == lit(0),
{
}

/// `(e mod n) < n ≡ 1` for the same literal `n`, on the shape the modulus
/// combinator builds.
pub proof fn lemma_identity_mod_lt(inner: Seq<Term>, n: i32)
    requires
        wf(inner),
    ensures
        spec_lt(seq![Term::Num(n)] + inner + seq![Term::Mod], lit(n as int)) == lit(1),
{
    let a = seq![Term::Num(n)] + inner + seq![Term::Mod];
    let b = lit(n as int);
    crate::ops::lemma_wf_nonempty(inner);
    assert(a.len() == inner.len() + 2);
    assert(a[0] == Term::Num(n));
    assert(a.last() == Term::Mod);
    assert(b.len() == 1);
    assert(b[0] == Term::Num(n));
    assert(a != b);
    assert(b.len() == 1 && b[0] is Num && a.len() >= 1 && a.last() == Term::Mod && a[0] == b[0]);
    assert(spec_lt(a, b) == lit(1));
}

} // verus!
