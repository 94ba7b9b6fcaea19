use vstd::prelude::*;

use crate::expr::{lit, GenericExpression};
use crate::semantics::{net_of, wf};
use crate::simplify::{reduce_triples, simplify_spec, lemma_simplify_props};
use crate::storage::ExpressionStorage;
use crate::term::{is_opcode, Term};

verus! {

/// The construction protocol every binary combinator follows: the right
/// operand's terms first, then the left operand's, then the opcode, then
/// simplification.
pub open spec fn spec_build(op: Term, a: Seq<Term>, b: Seq<Term>) -> Seq<Term> {
    simplify_spec(b + a + seq![op])
}

/// `a * b` with the short-circuit identities: `x·1 → x`, `1·x → x`,
/// `x·0 → 0`, `0·x → 0`.
pub open spec fn spec_mul(a: Seq<Term>, b: Seq<Term>) -> Seq<Term> {
    if b == lit(1) {
        a
    } else if a == lit(1) {
        b
    } else if b == lit(0) || a == lit(0) {
        lit(0)
    } else {
        spec_build(Term::Mul, a, b)
    }
}

/// `a + b` with the short-circuit identities: `x+0 → x`, `0+x → x`,
/// `x+x → x·2`.
pub open spec fn spec_add(a: Seq<Term>, b: Seq<Term>) -> Seq<Term> {
    if b == lit(0) {
        a
    } else if a == lit(0) {
        b
    } else if a == b {
        spec_mul(a, lit(2))
    } else {
        spec_build(Term::Add, a, b)
    }
}

/// `a - b` with the short-circuit identities: `x−0 → x`, `x−x → 0`.
pub open spec fn spec_sub(a: Seq<Term>, b: Seq<Term>) -> Seq<Term> {
    if b == lit(0) {
        a
    } else if a == b {
        lit(0)
    } else {
        spec_build(Term::Sub, a, b)
    }
}

/// `a / b` with the short-circuit identities: `x/1 → x`, `x/x → 1`,
/// `0/x → 0`.
pub open spec fn spec_div(a: Seq<Term>, b: Seq<Term>) -> Seq<Term> {
    if b == lit(1) {
        a
    } else if a == b {
        lit(1)
    } else if a == lit(0) {
        lit(0)
    } else {
        spec_build(Term::Div, a, b)
    }
}

/// `a mod b` with the short-circuit identities: `x mod 1 → 0`,
/// `x mod x → 0`.
pub open spec fn spec_rem(a: Seq<Term>, b: Seq<Term>) -> Seq<Term> {
    if b == lit(1) || b == a {
        lit(0)
    } else {
        spec_build(Term::Mod, a, b)
    }
}

/// `a ∧ b` with the short-circuit identities: `x∧0 → 0`, `0∧x → 0`,
/// `x∧1 → x`, `1∧x → x`.
pub open spec fn spec_and(a: Seq<Term>, b: Seq<Term>) -> Seq<Term> {
    if b == lit(0) || a == lit(0) {
        lit(0)
    } else if b == lit(1) {
        a
    } else if a == lit(1) {
        b
    } else {
        spec_build(Term::And, a, b)
    }
}

/// `a ∨ b` with the short-circuit identities: `x∨1 → 1`, `1∨x → 1`.
pub open spec fn spec_or(a: Seq<Term>, b: Seq<Term>) -> Seq<Term> {
    if b == lit(1) || a == lit(1) {
        lit(1)
    } else {
        spec_build(Term::Or, a, b)
    }
}

/// `min(a, b)` with the short-circuit identity `min(x,x) → x`.
pub open spec fn spec_min(a: Seq<Term>, b: Seq<Term>) -> Seq<Term> {
    if b == a {
        a
    } else {
        spec_build(Term::Min, a, b)
    }
}

/// `max(a, b)` with the short-circuit identities `max(x,x) → x`,
/// `max(x,0) → x`, `max(0,x) → x`.
pub open spec fn spec_max(a: Seq<Term>, b: Seq<Term>) -> Seq<Term> {
    if b == a || b == lit(0) {
        a
    } else if a == lit(0) {
        b
    } else {
        spec_build(Term::Max, a, b)
    }
}

/// `a ≥ b` with the short-circuit identity `x ≥ x → 1`.
pub open spec fn spec_gte(a: Seq<Term>, b: Seq<Term>) -> Seq<Term> {
    if b == a {
        lit(1)
    } else {
        spec_build(Term::Gte, a, b)
    }
}

/// `a < b` with the short-circuit identities `x < x → 0` and
/// `(y mod n) < n → 1` for the same literal `n`.
pub open spec fn spec_lt(a: Seq<Term>, b: Seq<Term>) -> Seq<Term> {
    if b == a {
        lit(0)
    } else if b.len() == 1 && b[0] is Num && a.len() >= 1 && a.last() == Term::Mod && a[0] == b[0] {
        lit(1)
    } else {
        spec_build(Term::Lt, a, b)
    }
}

/// A well-formed expression has at least one term.
pub proof fn lemma_wf_nonempty(s: Seq<Term>)
    requires
        wf(s),
    ensures
        s.len() >= 1,
{
    assert(net_of(Seq::<Term>::empty()) == 0);
}

/// A single literal is well formed.
pub proof fn lemma_lit_wf(n: int)
    ensures
        wf(lit(n)),
        lit(n).len() == 1,
{
    crate::simplify::lemma_seg_singleton_wf(Term::Num(n as i32));
}

impl<S: ExpressionStorage> GenericExpression<S> {
    /// Append the right operand, the left operand, and the opcode, then
    /// simplify: the shared body of every binary combinator.
    fn build(self, rhs: Self, op: Term) -> (r: Self)
        requires
            wf(self@),
            wf(rhs@),
            is_opcode(op),
            self@.len() + rhs@.len() + 1 <= S::capacity(),
        ensures
            r@ == spec_build(op, self@, rhs@),
            wf(r@),
    {
        let ghost a = self@;
        let ghost b = rhs@;
        let mut out = rhs;
        out.append_from(&self);
        out.terms.push(op);
        proof {
            assert(out@ =~= b + a + seq![op]);
            crate::semantics::lemma_wf_join(a, b, op);
        }
        reduce_triples(out)
    }

    /// Simplify the expression to its fixed point under the peephole rules.
    pub fn simplify(self) -> (r: Self)
        requires
            wf(self@),
        ensures
            r@ == simplify_spec(self@),
            wf(r@),
            r@.len() <= self@.len(),
    {
        reduce_triples(self)
    }

    /// Addition.
    pub fn add(self, rhs: Self) -> (r: Self)
        requires
            wf(self@),
            wf(rhs@),
            self@.len() + rhs@.len() + 1 <= S::capacity(),
        ensures
            r@ == spec_add(self@, rhs@),
            wf(r@),
    {
        proof {
            lemma_lit_wf(0);
            lemma_lit_wf(2);
            lemma_wf_nonempty(self@);
        }
        if rhs.is_lit(0) {
            return self;
        }
        if self.is_lit(0) {
            return rhs;
        }
        if self.equals(&rhs) {
            return self.mul(Self::from_i32(2));
        }
        self.build(rhs, Term::Add)
    }

    /// Subtraction.
    pub fn sub(self, rhs: Self) -> (r: Self)
        requires
            wf(self@),
            wf(rhs@),
            self@.len() + rhs@.len() + 1 <= S::capacity(),
        ensures
            r@ == spec_sub(self@, rhs@),
            wf(r@),
    {
        proof {
            lemma_lit_wf(0);
        }
        if rhs.is_lit(0) {
            return self;
        }
        if self.equals(&rhs) {
            return Self::from_i32(0);
        }
        self.build(rhs, Term::Sub)
    }

    /// Multiplication.
    pub fn mul(self, rhs: Self) -> (r: Self)
        requires
            wf(self@),
            wf(rhs@),
            self@.len() + rhs@.len() + 1 <= S::capacity(),
        ensures
            r@ == spec_mul(self@, rhs@),
            wf(r@),
    {
        proof {
            lemma_lit_wf(0);
            lemma_lit_wf(1);
        }
        if rhs.is_lit(1) {
            return self;
        }
        if self.is_lit(1) {
            return rhs;
        }
        if rhs.is_lit(0) || self.is_lit(0) {
            return Self::from_i32(0);
        }
        self.build(rhs, Term::Mul)
    }

    /// Division.
    pub fn div(self, rhs: Self) -> (r: Self)
        requires
            wf(self@),
            wf(rhs@),
            self@.len() + rhs@.len() + 1 <= S::capacity(),
        ensures
            r@ == spec_div(self@, rhs@),
            wf(r@),
    {
        proof {
            lemma_lit_wf(0);
            lemma_lit_wf(1);
        }
        if rhs.is_lit(1) {
            return self;
        }
        if self.equals(&rhs) {
            return Self::from_i32(1);
        }
        if self.is_lit(0) {
            return Self::from_i32(0);
        }
        self.build(rhs, Term::Div)
    }

    /// Modulus.
    pub fn rem(self, rhs: Self) -> (r: Self)
        requires
            wf(self@),
            wf(rhs@),
            self@.len() + rhs@.len() + 1 <= S::capacity(),
        ensures
            r@ == spec_rem(self@, rhs@),
            wf(r@),
    {
        proof {
            lemma_lit_wf(0);
            lemma_lit_wf(1);
        }
        if rhs.is_lit(1) || rhs.equals(&self) {
            return Self::from_i32(0);
        }
        self.build(rhs, Term::Mod)
    }

    /// Boolean conjunction over nonzero-is-true operands.
    pub fn and(self, rhs: Self) -> (r: Self)
        requires
            wf(self@),
            wf(rhs@),
            self@.len() + rhs@.len() + 1 <= S::capacity(),
        ensures
            r@ == spec_and(self@, rhs@),
            wf(r@),
    {
        proof {
            lemma_lit_wf(0);
            lemma_lit_wf(1);
        }
        if rhs.is_lit(0) || self.is_lit(0) {
            return Self::from_i32(0);
        }
        if rhs.is_lit(1) {
            return self;
        }
        if self.is_lit(1) {
            return rhs;
        }
        self.build(rhs, Term::And)
    }

    /// Boolean disjunction over nonzero-is-true operands.
    pub fn or(self, rhs: Self) -> (r: Self)
        requires
            wf(self@),
            wf(rhs@),
            self@.len() + rhs@.len() + 1 <= S::capacity(),
        ensures
            r@ == spec_or(self@, rhs@),
            wf(r@),
    {
        proof {
            lemma_lit_wf(1);
        }
        if rhs.is_lit(1) || self.is_lit(1) {
            return Self::from_i32(1);
        }
        self.build(rhs, Term::Or)
    }

    /// Minimum.
    pub fn min(self, rhs: Self) -> (r: Self)
        requires
            wf(self@),
            wf(rhs@),
            self@.len() + rhs@.len() + 1 <= S::capacity(),
        ensures
            r@ == spec_min(self@, rhs@),
            wf(r@),
    {
        if rhs.equals(&self) {
            return self;
        }
        self.build(rhs, Term::Min)
    }

    /// Maximum.
    pub fn max(self, rhs: Self) -> (r: Self)
        requires
            wf(self@),
            wf(rhs@),
            self@.len() + rhs@.len() + 1 <= S::capacity(),
        ensures
            r@ == spec_max(self@, rhs@),
            wf(r@),
    {
        proof {
            lemma_lit_wf(0);
        }
        if rhs.equals(&self) || rhs.is_lit(0) {
            return self;
        }
        if self.is_lit(0) {
            return rhs;
        }
        self.build(rhs, Term::Max)
    }

    /// Greater than or equal, returning `1` or `0`.
    pub fn gte(self, rhs: Self) -> (r: Self)
        requires
            wf(self@),
            wf(rhs@),
            self@.len() + rhs@.len() + 1 <= S::capacity(),
        ensures
            r@ == spec_gte(self@, rhs@),
            wf(r@),
    {
        proof {
            lemma_lit_wf(1);
        }
        if rhs.equals(&self) {
            return Self::from_i32(1);
        }
        self.build(rhs, Term::Gte)
    }

    /// Less than, returning `1` or `0`.
    pub fn lt(self, rhs: Self) -> (r: Self)
        requires
            wf(self@),
            wf(rhs@),
            self@.len() + rhs@.len() + 1 <= S::capacity(),
        ensures
            r@ == spec_lt(self@, rhs@),
            wf(r@),
    {
        proof {
            lemma_lit_wf(0);
            lemma_lit_wf(1);
            lemma_wf_nonempty(self@);
            lemma_wf_nonempty(rhs@);
        }
        if rhs.equals(&self) {
            return Self::from_i32(0);
        }
        if rhs.len() == 1 {
            let n0 = rhs.terms.read(0);
            match n0 {
                Term::Num(_) => {
                    let ll = self.len();
                    if self.terms.read(ll - 1) == Term::Mod && self.terms.read(0) == n0 {
                        proof {
                            assert(rhs@ =~= seq![rhs@[0]]);
                        }
                        return Self::from_i32(1);
                    }
                },
                _ => {},
            }
        }
        self.build(rhs, Term::Lt)
    }
}

/// The views of a sequence of expressions.
pub open spec fn views_of<S: ExpressionStorage>(es: Seq<GenericExpression<S>>) -> Seq<Seq<Term>> {
    Seq::new(es.len(), |k: int| es[k]@)
}

/// One more than the total term count: what building the product can need
/// at most in the working expression.
pub open spec fn sum_len(vs: Seq<Seq<Term>>) -> int
    decreases vs.len(),
{
    if vs.len() == 0 {
        0
    } else {
        sum_len(vs.drop_last()) + vs.last().len() + 1
    }
}

/// The multiplicative fold over a sequence of expressions, left to right;
/// the empty fold is the literal zero, kept for compatibility.
pub open spec fn spec_product(vs: Seq<Seq<Term>>) -> Seq<Term>
    decreases vs.len(),
{
    if vs.len() == 0 {
        lit(0)
    } else if vs.len() == 1 {
        vs[0]
    } else {
        spec_mul(spec_product(vs.drop_last()), vs.last())
    }
}

/// Multiplication never grows past both operands and the opcode.
pub proof fn lemma_mul_len(a: Seq<Term>, b: Seq<Term>)
    requires
        wf(a),
        wf(b),
    ensures
        spec_mul(a, b).len() <= a.len() + b.len() + 1,
        wf(spec_mul(a, b)),
{
    lemma_lit_wf(0);
    lemma_wf_nonempty(a);
    lemma_wf_nonempty(b);
    if b == lit(1) {
    } else if a == lit(1) {
    } else if b == lit(0) || a == lit(0) {
    } else {
        crate::semantics::lemma_wf_join(a, b, Term::Mul);
        lemma_simplify_props(b + a + seq![Term::Mul]);
    }
}

impl<S: ExpressionStorage> GenericExpression<S> {
    /// The product of the expressions, folded left to right with the
    /// multiplication combinator; an empty sequence yields the literal
    /// zero, preserving the established contract.
    pub fn product(items: &Vec<Self>) -> (r: Self)
        requires
            forall|k: int| 0 <= k < items@.len() ==> wf(#[trigger] items@[k]@),
            sum_len(views_of(items@)) <= S::capacity(),
        ensures
            r@ == spec_product(views_of(items@)),
            wf(r@),
    {
        let ghost vs = views_of(items@);
        proof {
            lemma_lit_wf(0);
        }
        if items.len() == 0 {
            return Self::from_i32(0);
        }
        let n = items.len();
        let mut p = items[0].duplicate();
        let mut k: usize = 1;
        proof {
            assert(vs.take(1).drop_last() =~= Seq::<Seq<Term>>::empty());
            assert(vs.take(1)[0] == vs[0]);
            assert(p@ == spec_product(vs.take(1)));
            lemma_sum_len_take(vs, 1);
        }
        while k < n
            invariant
                n == items@.len(),
                1 <= k <= n,
                vs == views_of(items@),
                forall|j: int| 0 <= j < items@.len() ==> wf(#[trigger] items@[j]@),
                sum_len(vs) <= S::capacity(),
                p@ == spec_product(vs.take(k as int)),
                wf(p@),
                p@.len() + 1 <= sum_len(vs.take(k as int)),
            decreases n - k,
        {
            let ghost prev = p@;
            proof {
                lemma_sum_len_take(vs, k + 1 as int);
                lemma_sum_len_take(vs, k as int);
                assert(vs.take(k + 1 as int).drop_last() =~= vs.take(k as int));
                assert(vs.take(k + 1 as int).last() == vs[k as int]);
                lemma_mul_len(prev, vs[k as int]);
                lemma_sum_len_mono(vs, k + 1 as int);
            }
            let next = items[k].duplicate();
            p = p.mul(next);
            k = k + 1;
        }
        proof {
            assert(vs.take(n as int) =~= vs);
        }
        p
    }
}

/// Prefix totals of `sum_len` grow with each element taken.
proof fn lemma_sum_len_take(vs: Seq<Seq<Term>>, k: int)
    requires
        0 <= k <= vs.len(),
    ensures
        k > 0 ==> sum_len(vs.take(k)) == sum_len(vs.take(k - 1)) + vs[k - 1].len() + 1,
        k == 0 ==> sum_len(vs.take(k)) == 0,
{
    if k == 0 {
        assert(vs.take(0) =~= Seq::<Seq<Term>>::empty());
    } else {
        assert(vs.take(k).drop_last() =~= vs.take(k - 1));
        assert(vs.take(k).last() == vs[k - 1]);
    }
}

/// A prefix total never exceeds the whole.
proof fn lemma_sum_len_mono(vs: Seq<Seq<Term>>, k: int)
    requires
        0 <= k <= vs.len(),
    ensures
        sum_len(vs.take(k)) <= sum_len(vs),
    decreases vs.len() - k,
{
    if k == vs.len() {
        assert(vs.take(k) =~= vs);
    } else {
        lemma_sum_len_mono(vs, k + 1);
        lemma_sum_len_take(vs, k + 1);
    }
}

impl<S: ExpressionStorage> GenericExpression<S> {
    /// Addition in place, by rebuild.
    pub fn add_assign(&mut self, rhs: Self)
        requires
            wf(old(self)@),
            wf(rhs@),
            old(self)@.len() + rhs@.len() + 1 <= S::capacity(),
        ensures
            final(self)@ == spec_add(old(self)@, rhs@),
            wf(final(self)@),
    {
        let lhs = self.duplicate();
        *self = lhs.add(rhs);
    }

    /// Subtraction in place, by rebuild.
    pub fn sub_assign(&mut self, rhs: Self)
        requires
            wf(old(self)@),
            wf(rhs@),
            old(self)@.len() + rhs@.len() + 1 <= S::capacity(),
        ensures
            final(self)@ == spec_sub(old(self)@, rhs@),
            wf(final(self)@),
    {
        let lhs = self.duplicate();
        *self = lhs.sub(rhs);
    }

    /// Multiplication in place, by rebuild.
    pub fn mul_assign(&mut self, rhs: Self)
        requires
            wf(old(self)@),
            wf(rhs@),
            old(self)@.len() + rhs@.len() + 1 <= S::capacity(),
        ensures
            final(self)@ == spec_mul(old(self)@, rhs@),
            wf(final(self)@),
    {
        let lhs = self.duplicate();
        *self = lhs.mul(rhs);
    }

    /// Division in place, by rebuild.
    pub fn div_assign(&mut self, rhs: Self)
        requires
            wf(old(self)@),
            wf(rhs@),
            old(self)@.len() + rhs@.len() + 1 <= S::capacity(),
        ensures
            final(self)@ == spec_div(old(self)@, rhs@),
            wf(final(self)@),
    {
        let lhs = self.duplicate();
        *self = lhs.div(rhs);
    }

    /// Modulus in place, by rebuild.
    pub fn rem_assign(&mut self, rhs: Self)
        requires
            wf(old(self)@),
            wf(rhs@),
            old(self)@.len() + rhs@.len() + 1 <= S::capacity(),
        ensures
            final(self)@ == spec_rem(old(self)@, rhs@),
            wf(final(self)@),
    {
        let lhs = self.duplicate();
        *self = lhs.rem(rhs);
    }

    /// Conjunction in place, by rebuild.
    pub fn and_assign(&mut self, rhs: Self)
        requires
            wf(old(self)@),
            wf(rhs@),
            old(self)@.len() + rhs@.len() + 1 <= S::capacity(),
        ensures
            final(self)@ == spec_and(old(self)@, rhs@),
            wf(final(self)@),
    {
        let lhs = self.duplicate();
        *self = lhs.and(rhs);
    }

    /// Disjunction in place, by rebuild.
    pub fn or_assign(&mut self, rhs: Self)
        requires
            wf(old(self)@),
            wf(rhs@),
            old(self)@.len() + rhs@.len() + 1 <= S::capacity(),
        ensures
            final(self)@ == spec_or(old(self)@, rhs@),
            wf(final(self)@),
    {
        let lhs = self.duplicate();
        *self = lhs.or(rhs);
    }
}

} // verus!
