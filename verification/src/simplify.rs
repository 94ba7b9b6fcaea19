use vstd::prelude::*;

use crate::semantics::{
    depths_ok, in_range, lemma_depths_append, lemma_depths_mono, lemma_net_append,
    lemma_walk_append, lemma_walk_complete, lemma_walk_in_range, net_of,
    walk, walk_nn, wf, RunOut,
};
use crate::expr::GenericExpression;
use crate::storage::ExpressionStorage;
use crate::term::{is_leaf, is_opcode, op_defined, op_ok64, op_val, Term, INFINITY};

verus! {

// The peephole rewriter walks the postfix stream once, simulating the value
// stack. Each stack entry stands for a complete subexpression of the stream:
// `start` is where that subexpression begins, the entry ends where the next
// entry begins (or at the cursor, for the topmost). `leaf` marks an entry
// that is a single literal or variable sitting at index `start`; only such
// entries are touched by rewrites. `t` is the running summary the scan keeps
// for the subexpression: its folded literal, or a surviving variable.
pub struct ScanEntry {
    pub leaf: bool,
    pub t: Term,
    pub start: int,
}

/// What one pass over the stream does: rewrite it (and start over), or stop
/// with the stream as it stands.
pub enum PassOut {
    Fire(Seq<Term>),
    Quit,
}

/// The literal a term carries, for `Num` terms.
pub open spec fn num_val(t: Term) -> int {
    match t {
        Term::Num(n) => n as int,
        _ => 0,
    }
}

/// A constant fold is taken only when the opcode's value exists and fits the
/// stored literal width; a triple whose fold does not is left alone, and the
/// pass stops there rather than store a wrong number.
pub open spec fn fold_ok(t: Term, av: int, bv: int) -> bool {
    &&& op_defined(t, av, bv)
    &&& i32::MIN <= op_val(t, av, bv) <= i32::MAX
}

/// One pass of the rewriter, resumed at cursor `i` with scan stack `stack`.
///
/// A leaf pushes an entry. An opcode closes the two topmost entries `ae`
/// (left operand) and `be` (right operand) and tries the rewrite rules in
/// order: constant-fold two adjacent literals; drop `INFINITY` under `Min`;
/// collapse `Max` with an `INFINITY` operand to `INFINITY`. A rule needing a
/// leaf slot that is not a leaf is skipped. When no rule applies the two
/// entries merge, the scan keeping a folded literal or a surviving variable
/// as the summary; a merge whose fold fails ends the pass.
pub open spec fn pass_at(s: Seq<Term>, i: int, stack: Seq<ScanEntry>) -> PassOut
    decreases s.len() - i,
{
    if i < 0 || i >= s.len() {
        PassOut::Quit
    } else {
        let t = s[i];
        if is_leaf(t) {
            pass_at(s, i + 1, stack.push(ScanEntry { leaf: true, t, start: i }))
        } else if stack.len() < 2 {
            PassOut::Quit
        } else {
            let ae = stack.last();
            let be = stack[stack.len() - 2];
            if ae.leaf && be.leaf && ae.t is Num && be.t is Num {
                if fold_ok(t, num_val(ae.t), num_val(be.t)) {
                    PassOut::Fire(
                        s.update(
                            ae.start,
                            Term::Num(op_val(t, num_val(ae.t), num_val(be.t)) as i32),
                        ).remove(i).remove(be.start),
                    )
                } else {
                    PassOut::Quit
                }
            } else if ae.leaf && ae.t == Term::Num(INFINITY) && t is Min {
                PassOut::Fire(s.remove(i).remove(ae.start))
            } else if be.leaf && be.t == Term::Num(INFINITY) && t is Min {
                PassOut::Fire(s.remove(i).remove(be.start))
            } else if be.leaf && be.t == Term::Num(INFINITY) && t is Max && ae.leaf {
                PassOut::Fire(s.remove(i).remove(ae.start))
            } else if ae.leaf && ae.t == Term::Num(INFINITY) && t is Max && be.leaf {
                PassOut::Fire(s.remove(i).remove(be.start))
            } else {
                let merged = if ae.t is Num && be.t is Num {
                    if fold_ok(t, num_val(ae.t), num_val(be.t)) {
                        Some(Term::Num(op_val(t, num_val(ae.t), num_val(be.t)) as i32))
                    } else {
                        None
                    }
                } else if ae.t is Var {
                    Some(ae.t)
                } else if be.t is Var {
                    Some(be.t)
                } else {
                    Some(ae.t)
                };
                match merged {
                    Some(mt) => pass_at(
                        s,
                        i + 1,
                        stack.take(stack.len() - 2).push(
                            ScanEntry { leaf: false, t: mt, start: be.start },
                        ),
                    ),
                    None => PassOut::Quit,
                }
            }
        }
    }
}

/// One full pass from the start of the stream.
pub open spec fn scan_pass(s: Seq<Term>) -> PassOut {
    pass_at(s, 0, Seq::<ScanEntry>::empty())
}

/// The scan stack describes the stream seen so far: entries carve the prefix
/// before the cursor into consecutive well-formed segments, leaf entries are
/// single leaves, and every summary is a literal or a variable.
pub open spec fn scan_entry_ok(s: Seq<Term>, i: int, stack: Seq<ScanEntry>, m: int) -> bool {
    let e = stack[m];
    let end = if m + 1 < stack.len() {
        stack[m + 1].start
    } else {
        i
    };
    &&& 0 <= e.start < end <= i
    &&& wf(s.subrange(e.start, end))
    &&& (e.t is Num || e.t is Var)
    &&& (e.leaf ==> end == e.start + 1 && s[e.start] == e.t)
}

pub open spec fn scan_inv(s: Seq<Term>, i: int, stack: Seq<ScanEntry>) -> bool {
    &&& 0 <= i <= s.len()
    &&& (stack.len() == 0 ==> i == 0)
    &&& (stack.len() > 0 ==> stack[0].start == 0)
    &&& net_of(s.take(i)) == stack.len()
    &&& forall|m: int| 0 <= m < stack.len() ==> #[trigger] scan_entry_ok(s, i, stack, m)
}

/// Every rewrite a pass fires removes exactly two terms.
pub proof fn lemma_pass_fire_len(s: Seq<Term>, i: int, stack: Seq<ScanEntry>)
    requires
        scan_inv(s, i, stack),
    ensures
        pass_at(s, i, stack) matches PassOut::Fire(s2) ==> s2.len() + 2 == s.len(),
    decreases s.len() - i,
{
    lemma_scan_inv_step(s, i, stack);
    if i < 0 || i >= s.len() {
    } else {
        let t = s[i];
        if is_leaf(t) {
            lemma_pass_fire_len(s, i + 1, stack.push(ScanEntry { leaf: true, t, start: i }));
        } else if stack.len() < 2 {
        } else {
            let ae = stack.last();
            let be = stack[stack.len() - 2];
            assert(scan_entry_ok(s, i, stack, stack.len() - 1));
            assert(scan_entry_ok(s, i, stack, stack.len() - 2));
            let merged_stack = stack.take(stack.len() - 2).push(
                ScanEntry { leaf: false, t: merged_term(s, i, stack), start: be.start },
            );
            if !(ae.leaf && be.leaf && ae.t is Num && be.t is Num) && !(ae.leaf && ae.t
                == Term::Num(INFINITY) && t is Min) && !(be.leaf && be.t == Term::Num(INFINITY)
                && t is Min) && !(be.leaf && be.t == Term::Num(INFINITY) && t is Max && ae.leaf)
                && !(ae.leaf && ae.t == Term::Num(INFINITY) && t is Max && be.leaf) {
                if !(ae.t is Num && be.t is Num && !fold_ok(t, num_val(ae.t), num_val(be.t))) {
                    lemma_pass_fire_len(s, i + 1, merged_stack);
                }
            }
        }
    }
}

/// The summary term the scan keeps when two entries merge under an opcode.
pub open spec fn merged_term(s: Seq<Term>, i: int, stack: Seq<ScanEntry>) -> Term {
    let t = s[i];
    let ae = stack.last();
    let be = stack[stack.len() - 2];
    if ae.t is Num && be.t is Num {
        Term::Num(op_val(t, num_val(ae.t), num_val(be.t)) as i32)
    } else if ae.t is Var {
        ae.t
    } else if be.t is Var {
        be.t
    } else {
        ae.t
    }
}

/// One scan step keeps the stack invariant.
pub proof fn lemma_scan_inv_step(s: Seq<Term>, i: int, stack: Seq<ScanEntry>)
    requires
        scan_inv(s, i, stack),
    ensures
        0 <= i < s.len() && is_leaf(s[i]) ==> scan_inv(
            s,
            i + 1,
            stack.push(ScanEntry { leaf: true, t: s[i], start: i }),
        ),
        0 <= i < s.len() && is_opcode(s[i]) && stack.len() >= 2 ==> scan_inv(
            s,
            i + 1,
            stack.take(stack.len() - 2).push(
                ScanEntry { leaf: false, t: merged_term(s, i, stack), start: stack[stack.len()
                    - 2].start },
            ),
        ),
{
    if 0 <= i < s.len() && is_leaf(s[i]) {
        let e2 = ScanEntry { leaf: true, t: s[i], start: i };
        let stack2 = stack.push(e2);
        assert(s.take(i + 1) =~= s.take(i) + seq![s[i]]);
        lemma_net_append(s.take(i), seq![s[i]]);
        assert(net_of(seq![s[i]]) == 1) by {
            assert(seq![s[i]].drop_first() =~= Seq::<Term>::empty());
            assert(net_of(Seq::<Term>::empty()) == 0);
            assert(seq![s[i]][0] == s[i]);
        }
        assert(s.subrange(i, i + 1) =~= seq![s[i]]);
        assert(wf(seq![s[i]])) by {
            assert(seq![s[i]].drop_first() =~= Seq::<Term>::empty());
            assert(seq![s[i]][0] == s[i]);
            assert(net_of(Seq::<Term>::empty()) == 0);
            assert(depths_ok(Seq::<Term>::empty(), 1));
        }
        assert forall|m: int| 0 <= m < stack2.len() implies #[trigger] scan_entry_ok(
            s,
            i + 1,
            stack2,
            m,
        ) by {
            if m < stack.len() {
                assert(scan_entry_ok(s, i, stack, m));
            } else {
                assert(stack2[m] == e2);
                assert(s.subrange(i, i + 1) =~= seq![s[i]]);
            }
        }
    }
    if 0 <= i < s.len() && is_opcode(s[i]) && stack.len() >= 2 {
        let ae = stack.last();
        let be = stack[stack.len() - 2];
        let e2 = ScanEntry { leaf: false, t: merged_term(s, i, stack), start: be.start };
        let stack2 = stack.take(stack.len() - 2).push(e2);
        assert(scan_entry_ok(s, i, stack, stack.len() - 1));
        assert(scan_entry_ok(s, i, stack, stack.len() - 2));
        assert(s.take(i + 1) =~= s.take(i) + seq![s[i]]);
        lemma_net_append(s.take(i), seq![s[i]]);
        assert(net_of(seq![s[i]]) == -1int) by {
            assert(seq![s[i]].drop_first() =~= Seq::<Term>::empty());
            assert(net_of(Seq::<Term>::empty()) == 0);
            assert(seq![s[i]][0] == s[i]);
        }
        // the merged segment is the right operand, the left operand, and the
        // opcode, in that order
        let bseg = s.subrange(be.start, ae.start);
        let aseg = s.subrange(ae.start, i);
        assert(s.subrange(be.start, i + 1) =~= bseg + aseg + seq![s[i]]);
        crate::semantics::lemma_wf_join(aseg, bseg, s[i]);
        assert forall|m: int| 0 <= m < stack2.len() implies #[trigger] scan_entry_ok(
            s,
            i + 1,
            stack2,
            m,
        ) by {
            if m + 1 < stack2.len() {
                assert(scan_entry_ok(s, i, stack, m));
                assert(stack2[m] == stack[m]);
                assert(stack2[m + 1].start == stack[m + 1].start);
            } else {
                assert(stack2[m] == e2);
            }
        }
        if stack2.len() > 0 {
            assert(stack2[0].start == 0) by {
                if stack.len() == 2 {
                    assert(stack2[0] == e2);
                    assert(be.start == stack[0].start);
                } else {
                    assert(stack2[0] == stack[0]);
                }
            }
        }
    }
}

/// Simplification: fire passes until one finds nothing to rewrite. Each
/// firing pass removes two terms, so the rewriting reaches a fixed point.
pub open spec fn simplify_spec(s: Seq<Term>) -> Seq<Term>
    decreases s.len() via simplify_spec_dec
{
    match scan_pass(s) {
        PassOut::Fire(s2) => simplify_spec(s2),
        PassOut::Quit => s,
    }
}

#[via_fn]
proof fn simplify_spec_dec(s: Seq<Term>) {
    assert(scan_inv(s, 0, Seq::<ScanEntry>::empty())) by {
        assert(s.take(0) =~= Seq::<Term>::empty());
        assert(net_of(Seq::<Term>::empty()) == 0);
    }
    lemma_pass_fire_len(s, 0, Seq::<ScanEntry>::empty());
}

/// From depth zero the running depth never goes negative.
pub proof fn lemma_net_prefix_nonneg(s: Seq<Term>, d: int, i: int)
    requires
        depths_ok(s, d),
        d >= 0,
        0 <= i <= s.len(),
    ensures
        net_of(s.take(i)) + d >= 0,
    decreases i,
{
    if i == 0 {
        assert(s.take(0) =~= Seq::<Term>::empty());
    } else {
        let d2 = if is_leaf(s[0]) {
            d + 1
        } else {
            d - 1
        };
        lemma_net_prefix_nonneg(s.drop_first(), d2, i - 1);
        assert(s.take(i).drop_first() =~= s.drop_first().take(i - 1));
        assert(net_of(s.take(i)) == net_of(s.take(i).drop_first()) + if is_leaf(s[0]) {
            1int
        } else {
            -1int
        });
    }
}

/// At an opcode the running depth is at least two.
pub proof fn lemma_depths_at(s: Seq<Term>, d: int, i: int)
    requires
        depths_ok(s, d),
        0 <= i < s.len(),
        is_opcode(s[i]),
    ensures
        net_of(s.take(i)) + d >= 2,
    decreases i,
{
    if i == 0 {
        assert(s.take(0) =~= Seq::<Term>::empty());
    } else {
        let d2 = if is_leaf(s[0]) {
            d + 1
        } else {
            d - 1
        };
        lemma_depths_at(s.drop_first(), d2, i - 1);
        assert(s.take(i).drop_first() =~= s.drop_first().take(i - 1));
        assert(s.drop_first()[i - 1] == s[i]);
        assert(net_of(s.take(i)) == net_of(s.take(i).drop_first()) + if is_leaf(s[0]) {
            1int
        } else {
            -1int
        });
    }
}

/// Replacing a mid segment by one with the same stack discipline keeps the
/// whole stream well formed.
pub proof fn lemma_wf_replace(s: Seq<Term>, i: int, olen: int, repl: Seq<Term>)
    requires
        wf(s),
        0 <= i,
        olen >= 0,
        i + olen <= s.len(),
        net_of(repl) == net_of(s.subrange(i, i + olen)),
        forall|d: int| d >= 0 ==> #[trigger] depths_ok(repl, d),
    ensures
        wf(s.subrange(0, i) + repl + s.subrange(i + olen, s.len() as int)),
{
    let pre = s.subrange(0, i);
    let mid = s.subrange(i, i + olen);
    let suf = s.subrange(i + olen, s.len() as int);
    assert(s =~= pre + mid + suf);
    assert(pre =~= s.take(i));
    lemma_net_append(pre + mid, suf);
    lemma_net_append(pre, mid);
    lemma_depths_append(pre + mid, suf, 0);
    lemma_depths_append(pre, mid, 0);
    lemma_net_prefix_nonneg(s, 0, i);
    let s2 = pre + repl + suf;
    lemma_net_append(pre + repl, suf);
    lemma_net_append(pre, repl);
    lemma_depths_append(pre + repl, suf, 0);
    lemma_depths_append(pre, repl, 0);
    assert(depths_ok(repl, net_of(pre)));
    assert(net_of(pre + repl) == net_of(pre + mid));
    assert(net_of(s2) == net_of(s));
}

/// Replacing a mid segment by one that walks the same way, from every
/// in-range stack on which the old segment succeeds, keeps the whole
/// bounded walk.
pub proof fn lemma_replace_walk(
    s: Seq<Term>,
    i: int,
    olen: int,
    repl: Seq<Term>,
    env: Map<char, int>,
)
    requires
        0 <= i,
        olen >= 0,
        i + olen <= s.len(),
        forall|st: Seq<int>|
            in_range(st, 0, INFINITY as int) && (#[trigger] walk(
                s.subrange(i, i + olen),
                st,
                env,
                0,
                INFINITY as int,
            )) is Going ==> walk(repl, st, env, 0, INFINITY as int) == walk(
                s.subrange(i, i + olen),
                st,
                env,
                0,
                INFINITY as int,
            ),
    ensures
        walk_nn(s, env) is Going ==> walk_nn(
            s.subrange(0, i) + repl + s.subrange(i + olen, s.len() as int),
            env,
        ) == walk_nn(s, env),
{
    let hi = INFINITY as int;
    let pre = s.subrange(0, i);
    let mid = s.subrange(i, i + olen);
    let suf = s.subrange(i + olen, s.len() as int);
    let s2 = pre + repl + suf;
    assert(s =~= pre + (mid + suf));
    assert(s2 =~= pre + (repl + suf));
    let e0 = Seq::<int>::empty();
    lemma_walk_append(pre, mid + suf, e0, env, 0, hi);
    lemma_walk_append(pre, repl + suf, e0, env, 0, hi);
    if walk_nn(s, env) is Going {
        match walk(pre, e0, env, 0, hi) {
            RunOut::Going(st1) => {
                lemma_walk_in_range(pre, e0, env, 0, hi);
                lemma_walk_append(mid, suf, st1, env, 0, hi);
                lemma_walk_append(repl, suf, st1, env, 0, hi);
                match walk(mid, st1, env, 0, hi) {
                    RunOut::Going(st2) => {
                        assert(walk(repl, st1, env, 0, hi) == walk(mid, st1, env, 0, hi));
                    },
                    _ => {
                        assert(walk_nn(s, env) == walk(mid, st1, env, 0, hi));
                    },
                }
            },
            _ => {},
        }
    }
}

/// A fold: two adjacent literals and their opcode walk as the folded
/// literal does.
pub proof fn lemma_seg_fold(mid: Seq<Term>, repl: Seq<Term>, bn: i32, an: i32, t: Term, env: Map<char, int>)
    requires
        is_opcode(t),
        fold_ok(t, an as int, bn as int),
        mid == seq![Term::Num(bn), Term::Num(an), t],
        repl == seq![Term::Num(op_val(t, an as int, bn as int) as i32)],
    ensures
        forall|st: Seq<int>|
            in_range(st, 0, INFINITY as int) && (#[trigger] walk(
                mid,
                st,
                env,
                0,
                INFINITY as int,
            )) is Going ==> walk(repl, st, env, 0, INFINITY as int) == walk(
                mid,
                st,
                env,
                0,
                INFINITY as int,
            ),
{
    let hi = INFINITY as int;
    let v = op_val(t, an as int, bn as int);
    assert forall|st: Seq<int>|
        in_range(st, 0, hi) && (#[trigger] walk(mid, st, env, 0, hi)) is Going implies walk(
        repl,
        st,
        env,
        0,
        hi,
    ) == walk(mid, st, env, 0, hi) by {
        let m1 = mid.drop_first();
        assert(m1 =~= seq![Term::Num(an), t]);
        let m2 = m1.drop_first();
        assert(m2 =~= seq![t]);
        let m3 = m2.drop_first();
        assert(m3 =~= Seq::<Term>::empty());
        assert(repl.drop_first() =~= Seq::<Term>::empty());
        if 0 <= bn as int <= hi {
            let st1 = st.push(bn as int);
            assert(walk(mid, st, env, 0, hi) == walk(m1, st1, env, 0, hi));
            if 0 <= an as int <= hi {
                let st2 = st1.push(an as int);
                assert(walk(m1, st1, env, 0, hi) == walk(m2, st2, env, 0, hi));
                assert(st2.len() >= 2);
                assert(st2[st2.len() - 1] == an as int);
                assert(st2[st2.len() - 2] == bn as int);
                if 0 <= v <= hi {
                    let st3 = st2.take(st2.len() - 2).push(v);
                    assert(st3 =~= st.push(v));
                    assert(walk(m2, st2, env, 0, hi) == walk(m3, st3, env, 0, hi));
                    assert(walk(m3, st3, env, 0, hi) == RunOut::Going(st3));
                    assert(v as i32 as int == v);
                    assert(walk(repl, st, env, 0, hi) == RunOut::Going(st.push(v)));
                } else {
                    assert(walk(m2, st2, env, 0, hi) is Stuck);
                }
            } else {
                assert(walk(m1, st1, env, 0, hi) is Stuck);
            }
        } else {
            assert(walk(mid, st, env, 0, hi) is Stuck);
        }
    }
}

/// A leaf `INFINITY` as the left operand of `Min` walks as nothing at all:
/// the minimum with infinity is the value already on the stack.
pub proof fn lemma_seg_min_left(mid: Seq<Term>, env: Map<char, int>)
    requires
        mid == seq![Term::Num(INFINITY), Term::Min],
    ensures
        forall|st: Seq<int>|
            in_range(st, 0, INFINITY as int) && (#[trigger] walk(
                mid,
                st,
                env,
                0,
                INFINITY as int,
            )) is Going ==> walk(Seq::<Term>::empty(), st, env, 0, INFINITY as int) == walk(
                mid,
                st,
                env,
                0,
                INFINITY as int,
            ),
{
    let hi = INFINITY as int;
    assert forall|st: Seq<int>|
        in_range(st, 0, hi) && (#[trigger] walk(mid, st, env, 0, hi)) is Going implies walk(
        Seq::<Term>::empty(),
        st,
        env,
        0,
        hi,
    ) == walk(mid, st, env, 0, hi) by {
        let m1 = mid.drop_first();
        assert(m1 =~= seq![Term::Min]);
        let m2 = m1.drop_first();
        assert(m2 =~= Seq::<Term>::empty());
        let st1 = st.push(hi);
        assert(walk(mid, st, env, 0, hi) == walk(m1, st1, env, 0, hi));
        if st1.len() >= 2 {
            let a = st1[st1.len() - 1];
            let b = st1[st1.len() - 2];
            assert(a == hi);
            assert(b == st[st.len() - 1]);
            assert(0 <= b <= hi);
            assert(op_val(Term::Min, a, b) == b);
            let st2 = st1.take(st1.len() - 2).push(b);
            assert(st2 =~= st);
            assert(walk(m1, st1, env, 0, hi) == walk(m2, st2, env, 0, hi));
        } else {
            assert(walk(m1, st1, env, 0, hi) is Stuck);
        }
    }
}

/// A leaf `INFINITY` as the right operand of `Min`, with a well-formed
/// left operand over it, walks as the left operand alone.
pub proof fn lemma_seg_min_right(mid: Seq<Term>, aseg: Seq<Term>, env: Map<char, int>)
    requires
        wf(aseg),
        mid == seq![Term::Num(INFINITY)] + aseg + seq![Term::Min],
    ensures
        forall|st: Seq<int>|
            in_range(st, 0, INFINITY as int) && (#[trigger] walk(
                mid,
                st,
                env,
                0,
                INFINITY as int,
            )) is Going ==> walk(aseg, st, env, 0, INFINITY as int) == walk(
                mid,
                st,
                env,
                0,
                INFINITY as int,
            ),
{
    let hi = INFINITY as int;
    assert forall|st: Seq<int>|
        in_range(st, 0, hi) && (#[trigger] walk(mid, st, env, 0, hi)) is Going implies walk(
        aseg,
        st,
        env,
        0,
        hi,
    ) == walk(mid, st, env, 0, hi) by {
        assert(mid =~= seq![Term::Num(INFINITY)] + (aseg + seq![Term::Min]));
        assert(mid[0] == Term::Num(INFINITY));
        let st1 = st.push(hi);
        assert((seq![Term::Num(INFINITY)] + (aseg + seq![Term::Min])).drop_first() =~= aseg
            + seq![Term::Min]);
        assert(walk(mid, st, env, 0, hi) == walk(aseg + seq![Term::Min], st1, env, 0, hi));
        lemma_walk_append(aseg, seq![Term::Min], st1, env, 0, hi);
        lemma_walk_complete(aseg, st1, env, 0, hi);
        lemma_walk_complete(aseg, st, env, 0, hi);
        let e0 = Seq::<int>::empty();
        match walk(aseg, e0, env, 0, hi) {
            RunOut::Going(m) => {
                assert(m.len() == 1);
                lemma_walk_in_range(aseg, e0, env, 0, hi);
                let v = m[0];
                assert(0 <= v <= hi);
                assert(walk(aseg, st1, env, 0, hi) == RunOut::Going(st1 + m));
                let stv = st1 + m;
                assert(stv.len() == st.len() + 2);
                assert(stv[stv.len() - 1] == v);
                assert(stv[stv.len() - 2] == hi);
                assert(op_val(Term::Min, v, hi) == v);
                let m1 = seq![Term::Min];
                let m2 = m1.drop_first();
                assert(m2 =~= Seq::<Term>::empty());
                let st2 = stv.take(stv.len() - 2).push(v);
                assert(st2 =~= st + m);
                assert(walk(m1, stv, env, 0, hi) == walk(m2, st2, env, 0, hi));
                assert(walk(aseg, st, env, 0, hi) == RunOut::Going(st + m));
            },
            _ => {},
        }
    }
}

/// A `Max` whose operands are a leaf and a leaf `INFINITY` walks as the
/// literal `INFINITY` alone, whichever side the infinity stands on.
pub proof fn lemma_seg_max(mid: Seq<Term>, repl: Seq<Term>, x: Term, inf_left: bool, env: Map<char, int>)
    requires
        is_leaf(x),
        mid == if inf_left {
            seq![x, Term::Num(INFINITY), Term::Max]
        } else {
            seq![Term::Num(INFINITY), x, Term::Max]
        },
        repl == seq![Term::Num(INFINITY)],
    ensures
        forall|st: Seq<int>|
            in_range(st, 0, INFINITY as int) && (#[trigger] walk(
                mid,
                st,
                env,
                0,
                INFINITY as int,
            )) is Going ==> walk(repl, st, env, 0, INFINITY as int) == walk(
                mid,
                st,
                env,
                0,
                INFINITY as int,
            ),
{
    let hi = INFINITY as int;
    assert forall|st: Seq<int>|
        in_range(st, 0, hi) && (#[trigger] walk(mid, st, env, 0, hi)) is Going implies walk(
        repl,
        st,
        env,
        0,
        hi,
    ) == walk(mid, st, env, 0, hi) by {
        let m1 = mid.drop_first();
        let m2 = m1.drop_first();
        let m3 = m2.drop_first();
        assert(m3 =~= Seq::<Term>::empty());
        assert(repl.drop_first() =~= Seq::<Term>::empty());
        // the value the leaf x pushes, when the walk gets that far
        let xv = match x {
            Term::Num(n) => n as int,
            Term::Var(c) => if env.dom().contains(c) {
                env[c]
            } else {
                0
            },
            _ => 0,
        };
        let x_pushes = match x {
            Term::Num(n) => 0 <= n as int <= hi,
            Term::Var(c) => env.dom().contains(c) && 0 <= env[c] <= hi,
            _ => false,
        };
        if inf_left {
            assert(m1 =~= seq![Term::Num(INFINITY), Term::Max]);
            assert(m2 =~= seq![Term::Max]);
            if x_pushes {
                let st1 = st.push(xv);
                assert(walk(mid, st, env, 0, hi) == walk(m1, st1, env, 0, hi));
                let st2 = st1.push(hi);
                assert(walk(m1, st1, env, 0, hi) == walk(m2, st2, env, 0, hi));
                assert(st2[st2.len() - 1] == hi);
                assert(st2[st2.len() - 2] == xv);
                assert(op_val(Term::Max, hi, xv) == hi);
                let st3 = st2.take(st2.len() - 2).push(hi);
                assert(st3 =~= st.push(hi));
                assert(walk(m2, st2, env, 0, hi) == walk(m3, st3, env, 0, hi));
            } else {
                assert(!(walk(mid, st, env, 0, hi) is Going));
            }
        } else {
            assert(m1 =~= seq![x, Term::Max]);
            assert(m2 =~= seq![Term::Max]);
            let st1 = st.push(hi);
            assert(walk(mid, st, env, 0, hi) == walk(m1, st1, env, 0, hi));
            if x_pushes {
                let st2 = st1.push(xv);
                assert(walk(m1, st1, env, 0, hi) == walk(m2, st2, env, 0, hi));
                assert(st2[st2.len() - 1] == xv);
                assert(st2[st2.len() - 2] == hi);
                assert(op_val(Term::Max, xv, hi) == hi);
                let st3 = st2.take(st2.len() - 2).push(hi);
                assert(st3 =~= st.push(hi));
                assert(walk(m2, st2, env, 0, hi) == walk(m3, st3, env, 0, hi));
            } else {
                assert(!(walk(m1, st1, env, 0, hi) is Going));
            }
        }
    }
}

/// What a fired pass guarantees: two terms gone, well-formedness kept, and
/// the bounded walk unchanged wherever it succeeds.
pub proof fn lemma_pass_sound(s: Seq<Term>, i: int, stack: Seq<ScanEntry>)
    requires
        wf(s),
        scan_inv(s, i, stack),
    ensures
        pass_at(s, i, stack) matches PassOut::Fire(s2) ==> {
            &&& s2.len() + 2 == s.len()
            &&& wf(s2)
            &&& forall|env: Map<char, int>|
                walk_nn(s, env) is Going ==> #[trigger] walk_nn(s2, env) == walk_nn(s, env)
        },
    decreases s.len() - i,
{
    lemma_pass_fire_len(s, i, stack);
    lemma_scan_inv_step(s, i, stack);
    if i < 0 || i >= s.len() {
    } else {
        let t = s[i];
        if is_leaf(t) {
            lemma_pass_sound(s, i + 1, stack.push(ScanEntry { leaf: true, t, start: i }));
        } else if stack.len() < 2 {
        } else {
            let ae = stack.last();
            let be = stack[stack.len() - 2];
            assert(scan_entry_ok(s, i, stack, stack.len() - 1));
            assert(scan_entry_ok(s, i, stack, stack.len() - 2));
            let slen = s.len() as int;
            if ae.leaf && be.leaf && ae.t is Num && be.t is Num {
                if fold_ok(t, num_val(ae.t), num_val(be.t)) {
                    // both operand slots are single literals just before the
                    // opcode: replace the three terms by the folded literal
                    let an = num_val(ae.t) as i32;
                    let bn = num_val(be.t) as i32;
                    assert(ae.start == i - 1 && s[i - 1] == ae.t);
                    assert(be.start == i - 2 && s[i - 2] == be.t);
                    let c = Term::Num(op_val(t, an as int, bn as int) as i32);
                    let repl = seq![c];
                    let s2 = s.update(ae.start, c).remove(i).remove(be.start);
                    let s2c = s.subrange(0, i - 2) + repl + s.subrange(i + 1, slen);
                    assert(s2 =~= s2c);
                    let mid = s.subrange(i - 2, i + 1);
                    assert(mid =~= seq![Term::Num(bn), Term::Num(an), t]);
                    lemma_seg_singleton_wf(c);
                    assert(wf(mid)) by {
                        let bseg = s.subrange(i - 2, i - 1);
                        let aseg = s.subrange(i - 1, i);
                        assert(bseg =~= seq![s[i - 2]]);
                        assert(aseg =~= seq![s[i - 1]]);
                        lemma_seg_singleton_wf(s[i - 2]);
                        lemma_seg_singleton_wf(s[i - 1]);
                        crate::semantics::lemma_wf_join(aseg, bseg, t);
                        assert(mid =~= bseg + aseg + seq![t]);
                    }
                    lemma_wf_replace(s, i - 2, 3, repl);
                    assert(wf(s2));
                    assert forall|env: Map<char, int>| walk_nn(s, env) is Going implies #[trigger]
                    walk_nn(s2, env) == walk_nn(s, env) by {
                        lemma_seg_fold(mid, repl, bn, an, t, env);
                        lemma_replace_walk(s, i - 2, 3, repl, env);
                    }
                }
            } else if ae.leaf && ae.t == Term::Num(INFINITY) && t is Min {
                // a literal infinity as the left operand of Min: drop both
                assert(ae.start == i - 1 && s[i - 1] == Term::Num(INFINITY));
                let repl = Seq::<Term>::empty();
                let s2 = s.remove(i).remove(ae.start);
                let s2c = s.subrange(0, i - 1) + repl + s.subrange(i + 1, slen);
                assert(s2 =~= s2c);
                let mid = s.subrange(i - 1, i + 1);
                assert(mid =~= seq![Term::Num(INFINITY), Term::Min]);
                assert(net_of(repl) == 0);
                assert(net_of(mid) == 0) by {
                    assert(mid.drop_first() =~= seq![Term::Min]);
                    assert(seq![Term::Min].drop_first() =~= Seq::<Term>::empty());
                    assert(net_of(Seq::<Term>::empty()) == 0);
                    assert(seq![Term::Min][0] == Term::Min);
                    assert(net_of(seq![Term::Min]) == -1int);
                    assert(mid[0] == Term::Num(INFINITY));
                }
                assert(forall|d: int| d >= 0 ==> #[trigger] depths_ok(repl, d));
                lemma_wf_replace(s, i - 1, 2, repl);
                assert(wf(s2));
                assert forall|env: Map<char, int>| walk_nn(s, env) is Going implies #[trigger]
                walk_nn(s2, env) == walk_nn(s, env) by {
                    lemma_seg_min_left(mid, env);
                    lemma_replace_walk(s, i - 1, 2, repl, env);
                }
            } else if be.leaf && be.t == Term::Num(INFINITY) && t is Min {
                // a literal infinity as the right operand of Min: keep only
                // the left operand's whole segment
                let bi = be.start;
                assert(s[bi] == Term::Num(INFINITY));
                assert(ae.start == bi + 1);
                let aseg = s.subrange(bi + 1, i);
                assert(wf(aseg));
                let s2 = s.remove(i).remove(bi);
                let s2c = s.subrange(0, bi) + aseg + s.subrange(i + 1, slen);
                assert(s2 =~= s2c);
                let mid = s.subrange(bi, i + 1);
                assert(mid =~= seq![Term::Num(INFINITY)] + aseg + seq![Term::Min]);
                assert(net_of(mid) == net_of(aseg)) by {
                    lemma_net_append(seq![Term::Num(INFINITY)] + aseg, seq![Term::Min]);
                    lemma_net_append(seq![Term::Num(INFINITY)], aseg);
                    assert(seq![Term::Num(INFINITY)].drop_first() =~= Seq::<Term>::empty());
                    assert(seq![Term::Min].drop_first() =~= Seq::<Term>::empty());
                    assert(net_of(Seq::<Term>::empty()) == 0);
                }
                assert forall|d: int| d >= 0 implies #[trigger] depths_ok(aseg, d) by {
                    lemma_depths_mono(aseg, 0, d);
                }
                lemma_wf_replace(s, bi, i + 1 - bi, aseg);
                assert(wf(s2));
                assert forall|env: Map<char, int>| walk_nn(s, env) is Going implies #[trigger]
                walk_nn(s2, env) == walk_nn(s, env) by {
                    lemma_seg_min_right(mid, aseg, env);
                    lemma_replace_walk(s, bi, i + 1 - bi, aseg, env);
                }
            } else if be.leaf && be.t == Term::Num(INFINITY) && t is Max && ae.leaf {
                // infinity on the right of Max absorbs the left leaf
                assert(ae.start == i - 1 && s[i - 1] == ae.t);
                assert(be.start == i - 2 && s[i - 2] == Term::Num(INFINITY));
                let repl = seq![Term::Num(INFINITY)];
                let s2 = s.remove(i).remove(ae.start);
                let s2c = s.subrange(0, i - 2) + repl + s.subrange(i + 1, slen);
                assert(s2 =~= s2c);
                let mid = s.subrange(i - 2, i + 1);
                assert(mid =~= seq![Term::Num(INFINITY), ae.t, Term::Max]);
                lemma_seg_singleton_wf(Term::Num(INFINITY));
                assert(wf(mid)) by {
                    let bseg = s.subrange(i - 2, i - 1);
                    let aseg = s.subrange(i - 1, i);
                    assert(bseg =~= seq![s[i - 2]]);
                    assert(aseg =~= seq![s[i - 1]]);
                    lemma_seg_singleton_wf(s[i - 2]);
                    lemma_seg_singleton_wf(s[i - 1]);
                    crate::semantics::lemma_wf_join(aseg, bseg, t);
                    assert(mid =~= bseg + aseg + seq![t]);
                }
                lemma_wf_replace(s, i - 2, 3, repl);
                assert(wf(s2));
                assert forall|env: Map<char, int>| walk_nn(s, env) is Going implies #[trigger]
                walk_nn(s2, env) == walk_nn(s, env) by {
                    lemma_seg_max(mid, repl, ae.t, false, env);
                    lemma_replace_walk(s, i - 2, 3, repl, env);
                }
            } else if ae.leaf && ae.t == Term::Num(INFINITY) && t is Max && be.leaf {
                // infinity on the left of Max absorbs the right leaf
                assert(ae.start == i - 1 && s[i - 1] == Term::Num(INFINITY));
                assert(be.start == i - 2 && s[i - 2] == be.t);
                let repl = seq![Term::Num(INFINITY)];
                let s2 = s.remove(i).remove(be.start);
                let s2c = s.subrange(0, i - 2) + repl + s.subrange(i + 1, slen);
                assert(s2 =~= s2c);
                let mid = s.subrange(i - 2, i + 1);
                assert(mid =~= seq![be.t, Term::Num(INFINITY), Term::Max]);
                lemma_seg_singleton_wf(Term::Num(INFINITY));
                assert(wf(mid)) by {
                    let bseg = s.subrange(i - 2, i - 1);
                    let aseg = s.subrange(i - 1, i);
                    assert(bseg =~= seq![s[i - 2]]);
                    assert(aseg =~= seq![s[i - 1]]);
                    lemma_seg_singleton_wf(s[i - 2]);
                    lemma_seg_singleton_wf(s[i - 1]);
                    crate::semantics::lemma_wf_join(aseg, bseg, t);
                    assert(mid =~= bseg + aseg + seq![t]);
                }
                lemma_wf_replace(s, i - 2, 3, repl);
                assert(wf(s2));
                assert forall|env: Map<char, int>| walk_nn(s, env) is Going implies #[trigger]
                walk_nn(s2, env) == walk_nn(s, env) by {
                    lemma_seg_max(mid, repl, be.t, true, env);
                    lemma_replace_walk(s, i - 2, 3, repl, env);
                }
            } else {
                let merged_stack = stack.take(stack.len() - 2).push(
                    ScanEntry { leaf: false, t: merged_term(s, i, stack), start: be.start },
                );
                if !(ae.t is Num && be.t is Num && !fold_ok(t, num_val(ae.t), num_val(be.t))) {
                    lemma_pass_sound(s, i + 1, merged_stack);
                }
            }
        }
    }
}

/// A single leaf is a well-formed postfix sequence.
pub proof fn lemma_seg_singleton_wf(t: Term)
    requires
        is_leaf(t),
    ensures
        wf(seq![t]),
        net_of(seq![t]) == 1,
        forall|d: int| d >= 0 ==> #[trigger] depths_ok(seq![t], d),
{
    assert(seq![t].drop_first() =~= Seq::<Term>::empty());
    assert(net_of(Seq::<Term>::empty()) == 0);
    assert(seq![t][0] == t);
    assert forall|d: int| d >= 0 implies #[trigger] depths_ok(seq![t], d) by {
        assert(depths_ok(Seq::<Term>::empty(), d + 1));
    }
    assert(depths_ok(seq![t], 0));
}

/// What simplification guarantees: the result is well formed, no longer
/// than the input, a fixed point of the pass, and walks the same wherever
/// the input's bounded walk succeeds.
pub proof fn lemma_simplify_props(s: Seq<Term>)
    requires
        wf(s),
    ensures
        wf(simplify_spec(s)),
        simplify_spec(s).len() <= s.len(),
        forall|env: Map<char, int>|
            walk_nn(s, env) is Going ==> #[trigger] walk_nn(simplify_spec(s), env) == walk_nn(
                s,
                env,
            ),
    decreases s.len(),
{
    assert(scan_inv(s, 0, Seq::<ScanEntry>::empty())) by {
        assert(s.take(0) =~= Seq::<Term>::empty());
        assert(net_of(Seq::<Term>::empty()) == 0);
    }
    lemma_pass_sound(s, 0, Seq::<ScanEntry>::empty());
    match scan_pass(s) {
        PassOut::Fire(s2) => {
            lemma_simplify_props(s2);
        },
        PassOut::Quit => {},
    }
}

/// Simplifying twice is simplifying once: the first fixed point stands.
pub proof fn lemma_simplify_idempotent(s: Seq<Term>)
    ensures
        simplify_spec(simplify_spec(s)) == simplify_spec(s),
    decreases s.len(),
{
    assert(scan_inv(s, 0, Seq::<ScanEntry>::empty())) by {
        assert(s.take(0) =~= Seq::<Term>::empty());
        assert(net_of(Seq::<Term>::empty()) == 0);
    }
    lemma_pass_fire_len(s, 0, Seq::<ScanEntry>::empty());
    match scan_pass(s) {
        PassOut::Fire(s2) => {
            lemma_simplify_idempotent(s2);
        },
        PassOut::Quit => {},
    }
}

/// The abstract view of the rewriter's executable scan stack.
pub open spec fn abs_stack(v: Seq<(bool, Term, usize)>) -> Seq<ScanEntry> {
    Seq::new(v.len(), |k: int| ScanEntry { leaf: v[k].0, t: v[k].1, start: v[k].2 as int })
}

/// Rewrite the expression to a fixed point of the peephole pass: repeatedly
/// fold adjacent literal triples and apply the infinity rules for `Min` and
/// `Max`, starting the scan over after each rewrite, until a whole pass
/// finds nothing. Keeps the postfix stream well formed and, wherever the
/// bounded evaluation of the input succeeds, evaluating the result gives
/// the same value.
pub fn reduce_triples<S: ExpressionStorage>(e: GenericExpression<S>) -> (r: GenericExpression<S>)
    requires
        wf(e@),
    ensures
        r@ == simplify_spec(e@),
        wf(r@),
        r@.len() <= e@.len(),
{
    let ghost orig = e@;
    let mut cur = e;
    proof {
        lemma_simplify_props(orig);
    }
    loop
        invariant
            orig == e@,
            wf(cur@),
            simplify_spec(cur@) == simplify_spec(orig),
            cur@.len() <= orig.len(),
        decreases cur@.len(),
    {
        let ghost s = cur@;
        proof {
            assert(scan_inv(s, 0, Seq::<ScanEntry>::empty())) by {
                assert(s.take(0) =~= Seq::<Term>::empty());
                assert(net_of(Seq::<Term>::empty()) == 0);
            }
            assert(abs_stack(Seq::<(bool, Term, usize)>::empty()) =~= Seq::<ScanEntry>::empty());
        }
        let n = cur.len();
        let mut i: usize = 0;
        let mut scan: Vec<(bool, Term, usize)> = Vec::new();
        let mut fired = false;
        let mut stopped = false;
        while i < n && !fired && !stopped
            invariant
                wf(s),
                n == s.len(),
                i <= n,
                !fired && !stopped ==> cur@ == s && scan_inv(s, i as int, abs_stack(scan@))
                    && pass_at(s, i as int, abs_stack(scan@)) == scan_pass(s),
                stopped ==> !fired && cur@ == s && scan_pass(s) == PassOut::Quit,
                fired ==> wf(cur@) && cur@.len() < s.len() && simplify_spec(cur@) == simplify_spec(
                    s,
                ),
            decreases n - i + (if fired || stopped {
                0int
            } else {
                1int
            }),
        {
            let ghost old_abs = abs_stack(scan@);
            let t = cur.terms.read(i);
            proof {
                lemma_scan_inv_step(s, i as int, old_abs);
                lemma_pass_sound(s, i as int, old_abs);
            }
            if !t.is_op() {
                scan.push((true, t, i));
                proof {
                    assert(abs_stack(scan@) =~= old_abs.push(
                        ScanEntry { leaf: true, t, start: i as int },
                    ));
                }
                i = i + 1;
            } else {
                proof {
                    lemma_depths_at(s, 0, i as int);
                }
                let sl = scan.len();
                let (a_leaf, a_t, a_start) = scan[sl - 1];
                let (b_leaf, b_t, b_start) = scan[sl - 2];
                let ghost ae = old_abs.last();
                let ghost be = old_abs[old_abs.len() - 2];
                proof {
                    assert(ae == ScanEntry { leaf: a_leaf, t: a_t, start: a_start as int });
                    assert(be == ScanEntry { leaf: b_leaf, t: b_t, start: b_start as int });
                    assert(scan_entry_ok(s, i as int, old_abs, old_abs.len() - 1));
                    assert(scan_entry_ok(s, i as int, old_abs, old_abs.len() - 2));
                }
                let both_lit_leaves = a_leaf && b_leaf && matches!(a_t, Term::Num(_)) && matches!(
                    b_t,
                    Term::Num(_),
                );
                if both_lit_leaves {
                    let an: i32 = match a_t {
                        Term::Num(x) => x,
                        _ => 0,
                    };
                    let bn: i32 = match b_t {
                        Term::Num(x) => x,
                        _ => 0,
                    };
                    let folded = t.as_op(an as i64, bn as i64);
                    proof {
                        if op_defined(t, an as int, bn as int) {
                            lemma_op_ok64_small(t, an as int, bn as int);
                        }
                    }
                    match folded {
                        Some(c64) => {
                            if i32::MIN as i64 <= c64 && c64 <= i32::MAX as i64 {
                                cur.terms.write(a_start, Term::Num(c64 as i32));
                                cur.terms.remove(i);
                                cur.terms.remove(b_start);
                                fired = true;
                                proof {
                                    assert(fold_ok(t, an as int, bn as int));
                                    assert(pass_at(s, i as int, old_abs) matches PassOut::Fire(s2)
                                        && s2 == cur@);
                                }
                            } else {
                                stopped = true;
                                proof {
                                    assert(!fold_ok(t, an as int, bn as int));
                                    assert(pass_at(s, i as int, old_abs) == PassOut::Quit);
                                }
                            }
                        },
                        None => {
                            stopped = true;
                            proof {
                                assert(!op_defined(t, an as int, bn as int));
                                assert(pass_at(s, i as int, old_abs) == PassOut::Quit);
                            }
                        },
                    }
                } else if a_leaf && a_t == Term::Num(INFINITY) && matches!(t, Term::Min) {
                    cur.terms.remove(i);
                    cur.terms.remove(a_start);
                    fired = true;
                    proof {
                        assert(pass_at(s, i as int, old_abs) matches PassOut::Fire(s2) && s2
                            == cur@);
                    }
                } else if b_leaf && b_t == Term::Num(INFINITY) && matches!(t, Term::Min) {
                    cur.terms.remove(i);
                    cur.terms.remove(b_start);
                    fired = true;
                    proof {
                        assert(pass_at(s, i as int, old_abs) matches PassOut::Fire(s2) && s2
                            == cur@);
                    }
                } else if b_leaf && b_t == Term::Num(INFINITY) && matches!(t, Term::Max) && a_leaf {
                    cur.terms.remove(i);
                    cur.terms.remove(a_start);
                    fired = true;
                    proof {
                        assert(pass_at(s, i as int, old_abs) matches PassOut::Fire(s2) && s2
                            == cur@);
                    }
                } else if a_leaf && a_t == Term::Num(INFINITY) && matches!(t, Term::Max) && b_leaf {
                    cur.terms.remove(i);
                    cur.terms.remove(b_start);
                    fired = true;
                    proof {
                        assert(pass_at(s, i as int, old_abs) matches PassOut::Fire(s2) && s2
                            == cur@);
                    }
                } else {
                    // no rule fired here: merge the two entries under the
                    // opcode and keep scanning
                    let mut merged: Option<Term> = None;
                    match (a_t, b_t) {
                        (Term::Num(an), Term::Num(bn)) => {
                            let folded = t.as_op(an as i64, bn as i64);
                            proof {
                                if op_defined(t, an as int, bn as int) {
                                    lemma_op_ok64_small(t, an as int, bn as int);
                                }
                            }
                            match folded {
                                Some(c64) => {
                                    if i32::MIN as i64 <= c64 && c64 <= i32::MAX as i64 {
                                        merged = Some(Term::Num(c64 as i32));
                                    }
                                },
                                None => {},
                            }
                        },
                        (Term::Var(_), _) => {
                            merged = Some(a_t);
                        },
                        (_, Term::Var(_)) => {
                            merged = Some(b_t);
                        },
                        _ => {
                            merged = Some(a_t);
                        },
                    }
                    match merged {
                        Some(mt) => {
                            scan.truncate(sl - 2);
                            scan.push((false, mt, b_start));
                            proof {
                                assert(mt == merged_term(s, i as int, old_abs));
                                assert(abs_stack(scan@) =~= old_abs.take(old_abs.len() - 2).push(
                                    ScanEntry {
                                        leaf: false,
                                        t: merged_term(s, i as int, old_abs),
                                        start: be.start,
                                    },
                                ));
                            }
                            i = i + 1;
                        },
                        None => {
                            stopped = true;
                            proof {
                                assert(pass_at(s, i as int, old_abs) == PassOut::Quit);
                            }
                        },
                    }
                }
            }
        }
        if fired {
        } else {
            proof {
                if !stopped {
                    assert(i == n);
                    assert(pass_at(s, n as int, abs_stack(scan@)) == PassOut::Quit);
                }
                assert(scan_pass(s) == PassOut::Quit);
                assert(simplify_spec(s) == s);
            }
            return cur;
        }
    }
}

/// On operands of literal width the checked 64-bit application succeeds
/// whenever the operation is defined at all.
pub proof fn lemma_op_ok64_small(t: Term, a: int, b: int)
    requires
        is_opcode(t),
        i32::MIN <= a <= i32::MAX,
        i32::MIN <= b <= i32::MAX,
        op_defined(t, a, b),
    ensures
        op_ok64(t, a, b),
{
    match t {
        Term::Mul => {
            assert(i64::MIN <= a * b <= i64::MAX) by (nonlinear_arith)
                requires
                    i32::MIN <= a <= i32::MAX,
                    i32::MIN <= b <= i32::MAX,
            ;
        },
        Term::Div => {
            lemma_trunc_div_bounds(a, b);
        },
        Term::Mod => {
            lemma_trunc_rem_bounds(a, b);
        },
        _ => {},
    }
}

/// The magnitude of a number.
pub open spec fn abs_of(x: int) -> int {
    if x >= 0 {
        x
    } else {
        x * -1
    }
}

/// Truncating division of bounded operands stays bounded.
proof fn lemma_trunc_div_bounds(a: int, b: int)
    requires
        i32::MIN <= a <= i32::MAX,
        i32::MIN <= b <= i32::MAX,
        b != 0,
    ensures
        0 <= abs_of(crate::term::trunc_div(a, b)) <= abs_of(a),
{
    let x = if a >= 0 {
        a
    } else {
        a * -1
    };
    let d = if b >= 0 {
        b
    } else {
        b * -1
    };
    assert(x >= 0 && d >= 1);
    assert(0 <= x / d <= x) by (nonlinear_arith)
        requires
            x >= 0,
            d >= 1,
    ;
}

/// Truncating remainder of bounded operands stays bounded.
proof fn lemma_trunc_rem_bounds(a: int, b: int)
    requires
        i32::MIN <= a <= i32::MAX,
        i32::MIN <= b <= i32::MAX,
        b != 0,
    ensures
        0 <= abs_of(crate::term::trunc_rem(a, b)) <= abs_of(a) + abs_of(b),
{
    let x = if a >= 0 {
        a
    } else {
        a * -1
    };
    let d = if b >= 0 {
        b
    } else {
        b * -1
    };
    assert(x >= 0 && d >= 1);
    assert(0 <= x % d < d) by (nonlinear_arith)
        requires
            x >= 0,
            d >= 1,
    ;
}

} // verus!
