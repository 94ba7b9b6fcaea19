use vstd::prelude::*;

use crate::semantics::wf;
use crate::storage::ExpressionStorage;
use crate::term::Term;

verus! {

/// A symbolic expression: an ordered sequence of terms in postfix order,
/// backed by either storage flavor. Every expression the public API hands
/// out is well-formed postfix.
#[derive(Clone, Debug, PartialEq, Eq, Hash)]
pub struct GenericExpression<S: ExpressionStorage> {
    pub terms: S,
}

/// A symbolic expression held in the fixed-capacity stack-inlined buffer.
pub type Expression = GenericExpression<tinyvec::ArrayVec<[Term; 20]>>;

/// A symbolic expression held on the heap.
pub type BigExpression = GenericExpression<Vec<Term>>;

impl<S: ExpressionStorage> View for GenericExpression<S> {
    type V = Seq<Term>;

    open spec fn view(&self) -> Seq<Term> {
        self.terms.sview()
    }
}

/// The one-term sequence holding the literal `n`.
pub open spec fn lit(n: int) -> Seq<Term> {
    seq![Term::Num(n as i32)]
}

impl<S: ExpressionStorage> GenericExpression<S> {
    /// The number of terms.
    pub fn len(&self) -> (r: usize)
        ensures
            r == self@.len(),
    {
        self.terms.len()
    }

    /// Whether the expression holds no terms at all.
    pub fn is_empty(&self) -> (r: bool)
        ensures
            r == (self@.len() == 0),
    {
        self.terms.len() == 0
    }

    /// A copy with the same term sequence.
    pub fn duplicate(&self) -> (r: Self)
        ensures
            r@ == self@,
    {
        GenericExpression { terms: self.terms.duplicate() }
    }

    /// The expression holding the single given term.
    pub fn from_term(t: Term) -> (r: Self)
        ensures
            r@ == seq![t],
    {
        proof {
            S::capacity_positive();
        }
        let mut terms = S::empty();
        terms.push(t);
        proof {
            assert(Seq::<Term>::empty().push(t) =~= seq![t]);
        }
        GenericExpression { terms }
    }

    /// The expression holding the single variable `c`.
    pub fn from_char(c: char) -> (r: Self)
        ensures
            r@ == seq![Term::Var(c)],
    {
        Self::from_term(Term::Var(c))
    }

    /// The expression holding the single literal `n`.
    pub fn from_i32(n: i32) -> (r: Self)
        ensures
            r@ == lit(n as int),
    {
        Self::from_term(Term::Num(n))
    }

    /// The expression holding the single literal `n`. The literal width is
    /// 32 bits, so larger sizes are out of range.
    pub fn from_usize(n: usize) -> (r: Self)
        requires
            n <= i32::MAX,
        ensures
            r@ == lit(n as int),
    {
        Self::from_term(Term::Num(n as i32))
    }

    /// The expression holding `1` for true and `0` for false.
    pub fn from_bool(b: bool) -> (r: Self)
        ensures
            r@ == lit(if b {
                1
            } else {
                0
            }),
    {
        Self::from_term(Term::Num(if b { 1 } else { 0 }))
    }

    /// Whether the expression is exactly the literal `n`.
    pub fn is_lit(&self, n: i32) -> (r: bool)
        ensures
            r == (self@ == lit(n as int)),
    {
        proof {
            if self@.len() == 1 && self@[0] == Term::Num(n) {
                assert(self@ =~= lit(n as int));
            }
        }
        self.terms.len() == 1 && self.terms.read(0) == Term::Num(n)
    }

    /// Whether the two expressions hold the same term sequence.
    pub fn equals(&self, other: &Self) -> (r: bool)
        ensures
            r == (self@ == other@),
    {
        let n = self.terms.len();
        if n != other.terms.len() {
            return false;
        }
        let mut k: usize = 0;
        while k < n
            invariant
                n == self@.len() == other@.len(),
                k <= n,
                forall|j: int| 0 <= j < k ==> self@[j] == other@[j],
            decreases n - k,
        {
            if self.terms.read(k) != other.terms.read(k) {
                return false;
            }
            k = k + 1;
        }
        proof {
            assert(self@ =~= other@);
        }
        true
    }

    /// Append the other expression's terms after this one's.
    pub fn append_from(&mut self, other: &Self)
        requires
            old(self)@.len() + other@.len() <= S::capacity(),
        ensures
            final(self)@ == old(self)@ + other@,
    {
        let n = other.terms.len();
        let mut k: usize = 0;
        while k < n
            invariant
                n == other@.len(),
                k <= n,
                self@ == old(self)@ + other@.take(k as int),
                old(self)@.len() + other@.len() <= S::capacity(),
            decreases n - k,
        {
            self.terms.push(other.terms.read(k));
            proof {
                assert(old(self)@ + other@.take(k + 1 as int) =~= (old(self)@ + other@.take(
                    k as int,
                )).push(other@[k as int]));
            }
            k = k + 1;
        }
        proof {
            assert(other@.take(n as int) =~= other@);
        }
    }

    /// The same expression in the other storage flavor, terms unchanged.
    pub fn convert<N: ExpressionStorage>(&self) -> (r: GenericExpression<N>)
        requires
            self@.len() <= N::capacity(),
        ensures
            r@ == self@,
    {
        let n = self.terms.len();
        let mut terms = N::empty();
        let mut k: usize = 0;
        while k < n
            invariant
                n == self@.len(),
                k <= n,
                terms.sview() == self@.take(k as int),
                self@.len() <= N::capacity(),
            decreases n - k,
        {
            terms.push(self.terms.read(k));
            proof {
                assert(self@.take(k + 1 as int) =~= self@.take(k as int).push(self@[k as int]));
            }
            k = k + 1;
        }
        proof {
            assert(self@.take(n as int) =~= self@);
        }
        GenericExpression { terms }
    }
}

impl<S: ExpressionStorage> Default for GenericExpression<S> {
    /// The default expression is the literal zero.
    fn default() -> (r: Self)
        ensures
            r@ == lit(0),
    {
        GenericExpression::from_term(Term::Num(0))
    }
}

impl Expression {
    /// The same expression moved to heap storage.
    pub fn big(&self) -> (r: BigExpression)
        ensures
            r@ == self@,
    {
        let n = self.len();
        self.convert()
    }
}

impl BigExpression {
    /// The same expression moved to the stack-inlined storage, which holds
    /// at most its fixed capacity of terms.
    pub fn small(&self) -> (r: Expression)
        requires
            self@.len() <= 20,
        ensures
            r@ == self@,
    {
        self.convert()
    }
}

} // verus!
