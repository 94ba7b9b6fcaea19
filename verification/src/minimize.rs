use vstd::prelude::*;

use crate::expr::GenericExpression;
use crate::semantics::{depths_ok, lemma_depths_append, lemma_net_append, net_of, wf};
use crate::simplify::{fold_ok, lemma_net_prefix_nonneg, num_val, lemma_op_ok64_small};
use crate::storage::ExpressionStorage;
use crate::term::{is_leaf, is_opcode, op_defined, op_val, Term, INFINITY};

verus! {

/// Drop the second and third term of the window at `i`, keeping the first.
pub open spec fn keep_first(s: Seq<Term>, i: int) -> Seq<Term> {
    s.remove(i + 2).remove(i + 1)
}

/// Drop the first and third term of the window at `i`, keeping the second.
pub open spec fn keep_second(s: Seq<Term>, i: int) -> Seq<Term> {
    s.remove(i + 2).remove(i)
}

/// Replace the whole window at `i` by the literal `k`.
pub open spec fn replace_window(s: Seq<Term>, i: int, k: i32) -> Seq<Term> {
    s.update(i, Term::Num(k)).remove(i + 2).remove(i + 1)
}

/// The rewrite the single-sweep minimizer applies to the window
/// `(s[i], s[i+1], s[i+2])`, if any of its rules matches. The window reads
/// `(right operand, left operand, opcode)` when both operand slots are
/// single terms. A constant fold is applied only when the folded value
/// exists and fits the literal width.
pub open spec fn min_step(s: Seq<Term>, i: int) -> Option<Seq<Term>> {
    let x = s[i];
    let y = s[i + 1];
    let z = s[i + 2];
    if x is Num && y is Num && is_opcode(z) {
        if fold_ok(z, num_val(y), num_val(x)) {
            Some(replace_window(s, i, op_val(z, num_val(y), num_val(x)) as i32))
        } else {
            None
        }
    } else if x == Term::Num(INFINITY) && is_leaf(y) && z is Min {
        Some(keep_second(s, i))
    } else if y == Term::Num(INFINITY) && z is Min {
        Some(keep_first(s, i))
    } else if x == Term::Num(0) && is_leaf(y) && z is Max {
        Some(keep_second(s, i))
    } else if y == Term::Num(0) && z is Max {
        Some(keep_first(s, i))
    } else if y == Term::Num(0) && z is Add {
        Some(keep_first(s, i))
    } else if x == Term::Num(0) && is_leaf(y) && (z is Add || z is Sub) {
        Some(keep_second(s, i))
    } else if x == Term::Num(0) && is_leaf(y) && z is Mul {
        Some(keep_first(s, i))
    } else if is_leaf(x) && y == Term::Num(0) && z is Mul {
        Some(keep_second(s, i))
    } else if is_leaf(x) && y == Term::Num(0) && z is Div {
        Some(keep_second(s, i))
    } else if x == Term::Num(1) && is_leaf(y) && z is Mul {
        Some(keep_second(s, i))
    } else if y == Term::Num(1) && z is Mul {
        Some(keep_first(s, i))
    } else if x == Term::Num(1) && is_leaf(y) && z is Div {
        Some(keep_second(s, i))
    } else if x is Var && y is Var && x == y && z is Sub {
        Some(replace_window(s, i, 0))
    } else if y == Term::Num(1) && z is And {
        Some(keep_first(s, i))
    } else if x == Term::Num(1) && z is And {
        Some(keep_second(s, i))
    } else if y == Term::Num(0) && z is Or {
        Some(keep_first(s, i))
    } else if x == Term::Num(0) && z is Or {
        Some(keep_second(s, i))
    } else if x is Var && y is Var && x == y && z is Gte {
        Some(replace_window(s, i, 1))
    } else if x is Var && y is Var && x == y && z is Lt {
        Some(replace_window(s, i, 0))
    } else if x is Var && y is Var && x == y && z is Min {
        Some(keep_first(s, i))
    } else if x is Var && y is Var && x == y && z is Max {
        Some(keep_first(s, i))
    } else {
        None
    }
}

/// Every rewrite of the minimizer removes exactly two terms.
pub proof fn lemma_min_step_len(s: Seq<Term>, i: int)
    requires
        0 <= i,
        i + 2 < s.len(),
    ensures
        min_step(s, i) matches Some(s2) ==> s2.len() + 2 == s.len(),
{
}

/// The single forward sweep, resumed at window `i`: apply the first
/// matching rule and retry the same window, else move one term right.
pub open spec fn minimize_from(s: Seq<Term>, i: int) -> Seq<Term>
    decreases s.len(), s.len() - i,
        via minimize_from_dec
{
    if 0 <= i && i + 2 < s.len() {
        match min_step(s, i) {
            Some(s2) => minimize_from(s2, i),
            None => minimize_from(s, i + 1),
        }
    } else {
        s
    }
}

#[via_fn]
proof fn minimize_from_dec(s: Seq<Term>, i: int) {
    if 0 <= i && i + 2 < s.len() {
        lemma_min_step_len(s, i);
    }
}

/// The whole sweep from the left end.
pub open spec fn minimize_spec(s: Seq<Term>) -> Seq<Term> {
    minimize_from(s, 0)
}

/// Replacing the window's mid segment by one whose stack discipline the
/// old segment implies keeps the stream well formed.
proof fn lemma_wf_window_replace(s: Seq<Term>, i: int, repl: Seq<Term>)
    requires
        wf(s),
        0 <= i,
        i + 3 <= s.len(),
        net_of(repl) == net_of(s.subrange(i, i + 3)),
        forall|d: int|
            d >= 0 && #[trigger] depths_ok(s.subrange(i, i + 3), d) ==> depths_ok(repl, d),
    ensures
        wf(s.subrange(0, i) + repl + s.subrange(i + 3, s.len() as int)),
{
    let pre = s.subrange(0, i);
    let mid = s.subrange(i, i + 3);
    let suf = s.subrange(i + 3, s.len() as int);
    assert(s =~= pre + mid + suf);
    assert(pre =~= s.take(i));
    lemma_net_append(pre + mid, suf);
    lemma_net_append(pre, mid);
    lemma_depths_append(pre + mid, suf, 0);
    lemma_depths_append(pre, mid, 0);
    lemma_net_prefix_nonneg(s, 0, i);
    lemma_net_append(pre + repl, suf);
    lemma_net_append(pre, repl);
    lemma_depths_append(pre + repl, suf, 0);
    lemma_depths_append(pre, repl, 0);
    assert(depths_ok(repl, net_of(pre)));
}

/// A three-term window collapsed to its first term: sound for the stack
/// discipline when the dropped middle is a leaf and the dropped end an
/// opcode.
pub proof fn lemma_wf_keep_first(s: Seq<Term>, i: int)
    requires
        wf(s),
        0 <= i,
        i + 2 < s.len(),
        is_leaf(s[i + 1]),
        is_opcode(s[i + 2]),
    ensures
        wf(keep_first(s, i)),
{
    let mid = s.subrange(i, i + 3);
    let repl = seq![s[i]];
    assert(mid =~= seq![s[i], s[i + 1], s[i + 2]]);
    assert(mid.drop_first() =~= seq![s[i + 1], s[i + 2]]);
    assert(seq![s[i + 1], s[i + 2]].drop_first() =~= seq![s[i + 2]]);
    assert(seq![s[i + 2]].drop_first() =~= Seq::<Term>::empty());
    assert(repl.drop_first() =~= Seq::<Term>::empty());
    assert(net_of(Seq::<Term>::empty()) == 0);
    assert(mid[0] == s[i]);
    assert(seq![s[i + 1], s[i + 2]][0] == s[i + 1]);
    assert(seq![s[i + 2]][0] == s[i + 2]);
    assert(net_of(seq![s[i + 2]]) == -1int);
    assert(net_of(seq![s[i + 1], s[i + 2]]) == net_of(seq![s[i + 2]]) + (if is_leaf(s[i + 1]) {
        1int
    } else {
        -1int
    }));
    assert(net_of(repl) == net_of(mid));
    assert forall|d: int| d >= 0 && #[trigger] depths_ok(mid, d) implies depths_ok(repl, d) by {
        assert(depths_ok(Seq::<Term>::empty(), d + net_of(repl)));
    }
    lemma_wf_window_replace(s, i, repl);
    assert(keep_first(s, i) =~= s.subrange(0, i) + repl + s.subrange(i + 3, s.len() as int));
}

/// A three-term window collapsed to its second term: sound for the stack
/// discipline when the dropped first is a leaf and the dropped end an
/// opcode.
pub proof fn lemma_wf_keep_second(s: Seq<Term>, i: int)
    requires
        wf(s),
        0 <= i,
        i + 2 < s.len(),
        is_leaf(s[i]),
        is_opcode(s[i + 2]),
    ensures
        wf(keep_second(s, i)),
{
    let mid = s.subrange(i, i + 3);
    let repl = seq![s[i + 1]];
    assert(mid =~= seq![s[i], s[i + 1], s[i + 2]]);
    assert(mid.drop_first() =~= seq![s[i + 1], s[i + 2]]);
    assert(seq![s[i + 1], s[i + 2]].drop_first() =~= seq![s[i + 2]]);
    assert(seq![s[i + 2]].drop_first() =~= Seq::<Term>::empty());
    assert(repl.drop_first() =~= Seq::<Term>::empty());
    assert(net_of(Seq::<Term>::empty()) == 0);
    assert(mid[0] == s[i]);
    assert(seq![s[i + 1], s[i + 2]][0] == s[i + 1]);
    assert(seq![s[i + 2]][0] == s[i + 2]);
    assert(net_of(seq![s[i + 2]]) == -1int);
    assert(net_of(seq![s[i + 1], s[i + 2]]) == net_of(seq![s[i + 2]]) + (if is_leaf(s[i + 1]) {
        1int
    } else {
        -1int
    }));
    assert(net_of(repl) == net_of(mid));
    assert forall|d: int| d >= 0 && #[trigger] depths_ok(mid, d) implies depths_ok(repl, d) by {
        assert(repl[0] == s[i + 1]);
        assert(depths_ok(seq![s[i + 1], s[i + 2]], d + 1));
        if is_opcode(s[i + 1]) {
            assert(d + 1 >= 2);
            assert(depths_ok(seq![s[i + 2]], d));
            assert(d >= 2);
            assert(depths_ok(Seq::<Term>::empty(), d - 1));
        } else {
            assert(depths_ok(Seq::<Term>::empty(), d + 1));
        }
    }
    lemma_wf_window_replace(s, i, repl);
    assert(keep_second(s, i) =~= s.subrange(0, i) + repl + s.subrange(i + 3, s.len() as int));
}

/// A three-term window replaced by a literal: sound for the stack
/// discipline when the two dropped slots are leaves and the end an opcode.
pub proof fn lemma_wf_replace_window(s: Seq<Term>, i: int, k: i32)
    requires
        wf(s),
        0 <= i,
        i + 2 < s.len(),
        is_leaf(s[i]),
        is_leaf(s[i + 1]),
        is_opcode(s[i + 2]),
    ensures
        wf(replace_window(s, i, k)),
{
    let mid = s.subrange(i, i + 3);
    let repl = seq![Term::Num(k)];
    assert(mid =~= seq![s[i], s[i + 1], s[i + 2]]);
    assert(mid.drop_first() =~= seq![s[i + 1], s[i + 2]]);
    assert(seq![s[i + 1], s[i + 2]].drop_first() =~= seq![s[i + 2]]);
    assert(seq![s[i + 2]].drop_first() =~= Seq::<Term>::empty());
    assert(repl.drop_first() =~= Seq::<Term>::empty());
    assert(net_of(Seq::<Term>::empty()) == 0);
    assert(mid[0] == s[i]);
    assert(seq![s[i + 1], s[i + 2]][0] == s[i + 1]);
    assert(seq![s[i + 2]][0] == s[i + 2]);
    assert(net_of(seq![s[i + 2]]) == -1int);
    assert(net_of(seq![s[i + 1], s[i + 2]]) == net_of(seq![s[i + 2]]) + (if is_leaf(s[i + 1]) {
        1int
    } else {
        -1int
    }));
    assert(net_of(repl) == net_of(mid));
    assert forall|d: int| d >= 0 && #[trigger] depths_ok(mid, d) implies depths_ok(repl, d) by {
        assert(depths_ok(Seq::<Term>::empty(), d + 1));
    }
    lemma_wf_window_replace(s, i, repl);
    assert(replace_window(s, i, k) =~= s.subrange(0, i) + repl + s.subrange(i + 3, s.len() as int));
}

/// Whichever rule fires, the rewritten stream is still well formed.
pub proof fn lemma_min_step_wf(s: Seq<Term>, i: int)
    requires
        wf(s),
        0 <= i,
        i + 2 < s.len(),
    ensures
        min_step(s, i) matches Some(s2) ==> wf(s2) && s2.len() + 2 == s.len(),
{
    lemma_min_step_len(s, i);
    match min_step(s, i) {
        Some(s2) => {
            if s2 == keep_first(s, i) && is_leaf(s[i + 1]) && is_opcode(s[i + 2]) {
                lemma_wf_keep_first(s, i);
            }
            if s2 == keep_second(s, i) && is_leaf(s[i]) && is_opcode(s[i + 2]) {
                lemma_wf_keep_second(s, i);
            }
            let x = s[i];
            let y = s[i + 1];
            let z = s[i + 2];
            if x is Num && y is Num && is_opcode(z) && fold_ok(z, num_val(y), num_val(x)) {
                lemma_wf_replace_window(s, i, op_val(z, num_val(y), num_val(x)) as i32);
            }
            if x is Var && y is Var && x == y && z is Sub {
                lemma_wf_replace_window(s, i, 0);
            }
            if x is Var && y is Var && x == y && z is Gte {
                lemma_wf_replace_window(s, i, 1);
            }
            if x is Var && y is Var && x == y && z is Lt {
                lemma_wf_replace_window(s, i, 0);
            }
        },
        None => {},
    }
}

impl<S: ExpressionStorage> GenericExpression<S> {
    /// Minimize the expression by a single left-to-right sweep: at each
    /// window of three adjacent terms, fold two literals under their
    /// opcode and apply the identity and infinity rules; a fired rule is
    /// retried at the same spot, otherwise the window moves one term
    /// right. A fold whose value does not fit the literal width is left
    /// alone.
    pub fn minimize(self) -> (r: Self)
        requires
            wf(self@),
        ensures
            r@ == minimize_spec(self@),
            wf(r@),
    {
        let ghost orig = self@;
        let mut cur = self;
        let mut i: usize = 0;
        while cur.len() >= 3 && i < cur.len() - 2
            invariant
                wf(cur@),
                minimize_from(cur@, i as int) == minimize_spec(orig),
            decreases cur@.len(), cur@.len() - i,
        {
            let ghost s = cur@;
            let x = cur.terms.read(i);
            let y = cur.terms.read(i + 1);
            let z = cur.terms.read(i + 2);
            proof {
                lemma_min_step_wf(s, i as int);
            }
            let both_nums = matches!(x, Term::Num(_)) && matches!(y, Term::Num(_)) && z.is_op();
            if both_nums {
                let bn: i32 = match x {
                    Term::Num(v) => v,
                    _ => 0,
                };
                let an: i32 = match y {
                    Term::Num(v) => v,
                    _ => 0,
                };
                let folded = z.as_op(an as i64, bn as i64);
                proof {
                    if op_defined(z, an as int, bn as int) {
                        lemma_op_ok64_small(z, an as int, bn as int);
                    }
                }
                match folded {
                    Some(c64) => {
                        if i32::MIN as i64 <= c64 && c64 <= i32::MAX as i64 {
                            cur.terms.write(i, Term::Num(c64 as i32));
                            cur.terms.remove(i + 2);
                            cur.terms.remove(i + 1);
                            proof {
                                assert(fold_ok(z, an as int, bn as int));
                                assert(cur@ == replace_window(s, i as int, c64 as i32));
                                assert(min_step(s, i as int) == Some(cur@));
                            }
                        } else {
                            proof {
                                assert(min_step(s, i as int) is None);
                            }
                            i = i + 1;
                        }
                    },
                    None => {
                        proof {
                            assert(min_step(s, i as int) is None);
                        }
                        i = i + 1;
                    },
                }
            } else if x == Term::Num(INFINITY) && !y.is_op() && matches!(z, Term::Min) {
                cur.terms.remove(i + 2);
                cur.terms.remove(i);
                proof {
                    assert(cur@ == keep_second(s, i as int));
                }
            } else if y == Term::Num(INFINITY) && matches!(z, Term::Min) {
                cur.terms.remove(i + 2);
                cur.terms.remove(i + 1);
                proof {
                    assert(cur@ == keep_first(s, i as int));
                }
            } else if x == Term::Num(0) && !y.is_op() && matches!(z, Term::Max) {
                cur.terms.remove(i + 2);
                cur.terms.remove(i);
                proof {
                    assert(cur@ == keep_second(s, i as int));
                }
            } else if y == Term::Num(0) && matches!(z, Term::Max) {
                cur.terms.remove(i + 2);
                cur.terms.remove(i + 1);
                proof {
                    assert(cur@ == keep_first(s, i as int));
                }
            } else if y == Term::Num(0) && matches!(z, Term::Add) {
                cur.terms.remove(i + 2);
                cur.terms.remove(i + 1);
                proof {
                    assert(cur@ == keep_first(s, i as int));
                }
            } else if x == Term::Num(0) && !y.is_op() && (matches!(z, Term::Add) || matches!(
                z,
                Term::Sub,
            )) {
                cur.terms.remove(i + 2);
                cur.terms.remove(i);
                proof {
                    assert(cur@ == keep_second(s, i as int));
                }
            } else if x == Term::Num(0) && !y.is_op() && matches!(z, Term::Mul) {
                cur.terms.remove(i + 2);
                cur.terms.remove(i + 1);
                proof {
                    assert(cur@ == keep_first(s, i as int));
                }
            } else if !x.is_op() && y == Term::Num(0) && matches!(z, Term::Mul) {
                cur.terms.remove(i + 2);
                cur.terms.remove(i);
                proof {
                    assert(cur@ == keep_second(s, i as int));
                }
            } else if !x.is_op() && y == Term::Num(0) && matches!(z, Term::Div) {
                cur.terms.remove(i + 2);
                cur.terms.remove(i);
                proof {
                    assert(cur@ == keep_second(s, i as int));
                }
            } else if x == Term::Num(1) && !y.is_op() && matches!(z, Term::Mul) {
                cur.terms.remove(i + 2);
                cur.terms.remove(i);
                proof {
                    assert(cur@ == keep_second(s, i as int));
                }
            } else if y == Term::Num(1) && matches!(z, Term::Mul) {
                cur.terms.remove(i + 2);
                cur.terms.remove(i + 1);
                proof {
                    assert(cur@ == keep_first(s, i as int));
                }
            } else if x == Term::Num(1) && !y.is_op() && matches!(z, Term::Div) {
                cur.terms.remove(i + 2);
                cur.terms.remove(i);
                proof {
                    assert(cur@ == keep_second(s, i as int));
                }
            } else if matches!(x, Term::Var(_)) && matches!(y, Term::Var(_)) && x == y && matches!(
                z,
                Term::Sub,
            ) {
                cur.terms.write(i, Term::Num(0));
                cur.terms.remove(i + 2);
                cur.terms.remove(i + 1);
                proof {
                    assert(cur@ == replace_window(s, i as int, 0));
                }
            } else if y == Term::Num(1) && matches!(z, Term::And) {
                cur.terms.remove(i + 2);
                cur.terms.remove(i + 1);
                proof {
                    assert(cur@ == keep_first(s, i as int));
                }
            } else if x == Term::Num(1) && matches!(z, Term::And) {
                cur.terms.remove(i + 2);
                cur.terms.remove(i);
                proof {
                    assert(cur@ == keep_second(s, i as int));
                }
            } else if y == Term::Num(0) && matches!(z, Term::Or) {
                cur.terms.remove(i + 2);
                cur.terms.remove(i + 1);
                proof {
                    assert(cur@ == keep_first(s, i as int));
                }
            } else if x == Term::Num(0) && matches!(z, Term::Or) {
                cur.terms.remove(i + 2);
                cur.terms.remove(i);
                proof {
                    assert(cur@ == keep_second(s, i as int));
                }
            } else if matches!(x, Term::Var(_)) && matches!(y, Term::Var(_)) && x == y && matches!(
                z,
                Term::Gte,
            ) {
                cur.terms.write(i, Term::Num(1));
                cur.terms.remove(i + 2);
                cur.terms.remove(i + 1);
                proof {
                    assert(cur@ == replace_window(s, i as int, 1));
                }
            } else if matches!(x, Term::Var(_)) && matches!(y, Term::Var(_)) && x == y && matches!(
                z,
                Term::Lt,
            ) {
                cur.terms.write(i, Term::Num(0));
                cur.terms.remove(i + 2);
                cur.terms.remove(i + 1);
                proof {
                    assert(cur@ == replace_window(s, i as int, 0));
                }
            } else if matches!(x, Term::Var(_)) && matches!(y, Term::Var(_)) && x == y && matches!(
                z,
                Term::Min,
            ) {
                cur.terms.remove(i + 2);
                cur.terms.remove(i + 1);
                proof {
                    assert(cur@ == keep_first(s, i as int));
                }
            } else if matches!(x, Term::Var(_)) && matches!(y, Term::Var(_)) && x == y && matches!(
                z,
                Term::Max,
            ) {
                cur.terms.remove(i + 2);
                cur.terms.remove(i + 1);
                proof {
                    assert(cur@ == keep_first(s, i as int));
                }
            } else {
                proof {
                    assert(min_step(s, i as int) is None);
                }
                i = i + 1;
            }
        }
        proof {
            assert(minimize_from(cur@, i as int) == cur@);
        }
        cur
    }
}

} // verus!
