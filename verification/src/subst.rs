use vstd::prelude::*;

use crate::expr::GenericExpression;
use crate::semantics::{
    depths_ok, in_range, lemma_depths_append, lemma_depths_mono, lemma_net_append,
    lemma_walk_append, lemma_walk_complete, lemma_walk_in_range, net_of, walk, wf, RunOut,
};
use crate::simplify::{reduce_triples, simplify_spec};
use crate::storage::ExpressionStorage;
use crate::term::{is_leaf, Term};

verus! {

/// The term sequence with every occurrence of the variable `v` replaced,
/// in place, by the whole sequence `t`.
pub open spec fn splice(s: Seq<Term>, v: char, t: Seq<Term>) -> Seq<Term>
    decreases s.len(),
{
    if s.len() == 0 {
        Seq::<Term>::empty()
    } else {
        (if s[0] == Term::Var(v) {
            t
        } else {
            seq![s[0]]
        }) + splice(s.drop_first(), v, t)
    }
}

/// Splicing a well-formed replacement for a variable keeps the stack
/// discipline: each spliced-in copy pushes one value, as the variable did.
pub proof fn lemma_splice_wf(s: Seq<Term>, v: char, t: Seq<Term>)
    requires
        wf(t),
    ensures
        net_of(splice(s, v, t)) == net_of(s),
        forall|d: int| d >= 0 && #[trigger] depths_ok(s, d) ==> depths_ok(splice(s, v, t), d),
        wf(s) ==> wf(splice(s, v, t)),
    decreases s.len(),
{
    if s.len() == 0 {
    } else {
        lemma_splice_wf(s.drop_first(), v, t);
        let head: Seq<Term> = if s[0] == Term::Var(v) {
            t
        } else {
            seq![s[0]]
        };
        let rest = splice(s.drop_first(), v, t);
        lemma_net_append(head, rest);
        if s[0] == Term::Var(v) {
        } else {
            assert(head.drop_first() =~= Seq::<Term>::empty());
            assert(net_of(Seq::<Term>::empty()) == 0);
            assert(head[0] == s[0]);
        }
        if s[0] == Term::Var(v) {
            assert(net_of(head) == 1);
        } else if is_leaf(s[0]) {
            assert(net_of(head) == 1);
        } else {
            assert(net_of(head) == -1int);
        }
        assert forall|d: int| d >= 0 && #[trigger] depths_ok(s, d) implies depths_ok(
            splice(s, v, t),
            d,
        ) by {
            lemma_depths_append(head, rest, d);
            if s[0] == Term::Var(v) {
                lemma_depths_mono(t, 0, d);
                assert(depths_ok(s.drop_first(), d + 1));
                assert(depths_ok(rest, d + 1));
            } else if is_leaf(s[0]) {
                assert(depths_ok(Seq::<Term>::empty(), d + 1));
                assert(depths_ok(head, d));
                assert(depths_ok(s.drop_first(), d + 1));
                assert(depths_ok(rest, d + 1));
            } else {
                assert(d >= 2);
                assert(depths_ok(Seq::<Term>::empty(), d - 1));
                assert(depths_ok(head, d));
                assert(depths_ok(s.drop_first(), d - 1));
                assert(depths_ok(rest, d - 1));
            }
        }
    }
}

/// Splicing a replacement that denotes the value `tv` walks exactly as the
/// unspliced sequence walks under the environment binding `v` to `tv`.
pub proof fn lemma_splice_walk(
    s: Seq<Term>,
    v: char,
    t: Seq<Term>,
    tv: int,
    st: Seq<int>,
    env: Map<char, int>,
)
    requires
        wf(t),
        walk(t, Seq::<int>::empty(), env, 0, crate::term::INFINITY as int) == RunOut::Going(
            seq![tv],
        ),
    ensures
        walk(splice(s, v, t), st, env, 0, crate::term::INFINITY as int) == walk(
            s,
            st,
            env.insert(v, tv),
            0,
            crate::term::INFINITY as int,
        ),
    decreases s.len(),
{
    let hi = crate::term::INFINITY as int;
    let env2 = env.insert(v, tv);
    assert(in_range(seq![tv], 0, hi)) by {
        lemma_walk_in_range(t, Seq::<int>::empty(), env, 0, hi);
    }
    assert(seq![tv][0] == tv);
    assert(0 <= tv <= hi);
    if s.len() == 0 {
        assert(splice(s, v, t) =~= Seq::<Term>::empty());
        assert(walk(splice(s, v, t), st, env, 0, hi) == RunOut::Going(st));
        assert(walk(s, st, env2, 0, hi) == RunOut::Going(st));
    } else {
        let head: Seq<Term> = if s[0] == Term::Var(v) {
            t
        } else {
            seq![s[0]]
        };
        let rest = splice(s.drop_first(), v, t);
        lemma_walk_append(head, rest, st, env, 0, hi);
        assert(splice(s, v, t) == head + rest);
        if s[0] == Term::Var(v) {
            lemma_walk_complete(t, st, env, 0, hi);
            assert(st + seq![tv] =~= st.push(tv));
            assert(env2.dom().contains(v) && env2[v] == tv);
            lemma_splice_walk(s.drop_first(), v, t, tv, st.push(tv), env);
            assert(walk(t, st, env, 0, hi) == RunOut::Going(st.push(tv)));
            assert(walk(splice(s, v, t), st, env, 0, hi) == walk(rest, st.push(tv), env, 0, hi));
            assert(walk(s, st, env2, 0, hi) == walk(s.drop_first(), st.push(tv), env2, 0, hi));
        } else {
            assert(head.drop_first() =~= Seq::<Term>::empty());
            assert(head[0] == s[0]);
            match s[0] {
                Term::Num(n) => {
                    if 0 <= n as int <= hi {
                        lemma_splice_walk(s.drop_first(), v, t, tv, st.push(n as int), env);
                        assert(walk(head, st, env, 0, hi) == walk(
                            Seq::<Term>::empty(),
                            st.push(n as int),
                            env,
                            0,
                            hi,
                        ));
                        assert(walk(head, st, env, 0, hi) == RunOut::Going(st.push(n as int)));
                        assert(walk(splice(s, v, t), st, env, 0, hi) == walk(
                            rest,
                            st.push(n as int),
                            env,
                            0,
                            hi,
                        ));
                        assert(walk(s, st, env2, 0, hi) == walk(
                            s.drop_first(),
                            st.push(n as int),
                            env2,
                            0,
                            hi,
                        ));
                    } else {
                        assert(walk(head, st, env, 0, hi) is Stuck);
                        assert(walk(s, st, env2, 0, hi) is Stuck);
                    }
                },
                Term::Var(c) => {
                    assert(c != v);
                    assert(env2.dom().contains(c) == env.dom().contains(c));
                    if env.dom().contains(c) {
                        assert(env2[c] == env[c]);
                        if 0 <= env[c] <= hi {
                            lemma_splice_walk(s.drop_first(), v, t, tv, st.push(env[c]), env);
                            assert(walk(head, st, env, 0, hi) == walk(
                                Seq::<Term>::empty(),
                                st.push(env[c]),
                                env,
                                0,
                                hi,
                            ));
                            assert(walk(head, st, env, 0, hi) == RunOut::Going(st.push(env[c])));
                            assert(walk(s, st, env2, 0, hi) == walk(
                                s.drop_first(),
                                st.push(env[c]),
                                env2,
                                0,
                                hi,
                            ));
                        } else {
                            assert(walk(head, st, env, 0, hi) is Stuck);
                            assert(walk(s, st, env2, 0, hi) is Stuck);
                        }
                    } else {
                        assert(walk(head, st, env, 0, hi) is MissingVar);
                        assert(walk(s, st, env2, 0, hi) is MissingVar);
                    }
                },
                _ => {
                    if st.len() >= 2 {
                        let a = st[st.len() - 1];
                        let b = st[st.len() - 2];
                        if crate::term::op_defined(s[0], a, b) && 0 <= crate::term::op_val(
                            s[0],
                            a,
                            b,
                        ) <= hi && !(s[0] is Mod && a == i64::MIN as int && b == -1) {
                            let st2 = st.take(st.len() - 2).push(crate::term::op_val(s[0], a, b));
                            lemma_splice_walk(s.drop_first(), v, t, tv, st2, env);
                            assert(walk(head, st, env, 0, hi) == walk(
                                Seq::<Term>::empty(),
                                st2,
                                env,
                                0,
                                hi,
                            ));
                            assert(walk(head, st, env, 0, hi) == RunOut::Going(st2));
                            assert(walk(s, st, env2, 0, hi) == walk(
                                s.drop_first(),
                                st2,
                                env2,
                                0,
                                hi,
                            ));
                        } else {
                            assert(walk(head, st, env, 0, hi) is Stuck);
                            assert(walk(s, st, env2, 0, hi) is Stuck);
                        }
                    } else {
                        assert(walk(head, st, env, 0, hi) is Stuck);
                        assert(walk(s, st, env2, 0, hi) is Stuck);
                    }
                },
            }
        }
    }
}

impl<S: ExpressionStorage> GenericExpression<S> {
    /// Substitute the expression `expr` for every occurrence of the
    /// variable `var`, then simplify.
    pub fn substitute<N: ExpressionStorage>(self, var: char, expr: GenericExpression<N>) -> (r:
        Self)
        requires
            wf(self@),
            wf(expr@),
            splice(self@, var, expr@).len() <= S::capacity(),
        ensures
            r@ == simplify_spec(splice(self@, var, expr@)),
            wf(r@),
    {
        let ghost s = self@;
        let ghost t = expr@;
        let n = self.len();
        let en = expr.len();
        let mut terms = S::empty();
        let mut i: usize = 0;
        proof {
            assert(s.skip(0) =~= s);
            assert(Seq::<Term>::empty() + splice(s, var, t) =~= splice(s, var, t));
            lemma_splice_len(s, var, t);
        }
        while i < n
            invariant
                n == s.len(),
                en == t.len(),
                i <= n,
                s == self@,
                t == expr@,
                splice(s, var, t) == terms.sview() + splice(s.skip(i as int), var, t),
                splice(s, var, t).len() <= S::capacity(),
            decreases n - i,
        {
            let ghost tail = s.skip(i as int);
            let ghost done = terms.sview();
            proof {
                assert(tail[0] == s[i as int]);
                assert(tail.drop_first() =~= s.skip(i as int + 1));
                lemma_splice_len(tail, var, t);
                lemma_splice_len(s.skip(i as int + 1), var, t);
            }
            let cur = self.terms.read(i);
            let is_hit = cur == Term::Var(var);
            if is_hit {
                let mut k: usize = 0;
                while k < en
                    invariant
                        en == t.len(),
                        k <= en,
                        t == expr@,
                        terms.sview() == done + t.take(k as int),
                        done.len() + t.len() <= S::capacity(),
                    decreases en - k,
                {
                    terms.push(expr.terms.read(k));
                    proof {
                        assert(done + t.take(k + 1 as int) =~= (done + t.take(k as int)).push(
                            t[k as int],
                        ));
                    }
                    k = k + 1;
                }
                proof {
                    assert(t.take(en as int) =~= t);
                    assert(splice(tail, var, t) == t + splice(s.skip(i as int + 1), var, t));
                    assert((done + t) + splice(s.skip(i as int + 1), var, t) =~= done + (t + splice(
                        s.skip(i as int + 1),
                        var,
                        t,
                    )));
                }
            } else {
                terms.push(cur);
                proof {
                    assert(splice(tail, var, t) == seq![s[i as int]] + splice(
                        s.skip(i as int + 1),
                        var,
                        t,
                    ));
                    assert((done.push(s[i as int])) + splice(s.skip(i as int + 1), var, t) =~= done
                        + (seq![s[i as int]] + splice(s.skip(i as int + 1), var, t)));
                }
            }
            i = i + 1;
        }
        proof {
            assert(s.skip(n as int) =~= Seq::<Term>::empty());
            assert(terms.sview() + Seq::<Term>::empty() =~= terms.sview());
            lemma_splice_wf(s, var, t);
        }
        reduce_triples(GenericExpression { terms })
    }
}

/// The spliced sequence is at least as long as what a prefix contributes:
/// each term yields at least one term unless the replacement is empty.
proof fn lemma_splice_len(s: Seq<Term>, v: char, t: Seq<Term>)
    ensures
        splice(s, v, t).len() >= 0,
        s.len() > 0 ==> splice(s, v, t).len() == (if s[0] == Term::Var(v) {
            t.len()
        } else {
            1
        }) + splice(s.drop_first(), v, t).len(),
{
}

} // verus!
