use vstd::pervasive::VecAdditionalExecFns;
use vstd::prelude::*;

use crate::term::Term;

verus! {

/// The two storage back-ends for a postfix term sequence satisfy this
/// contract: an unbounded heap buffer (`Vec<Term>`) and a fixed-capacity
/// stack-inlined buffer (`tinyvec::ArrayVec<[Term; 20]>`). `sview` is the
/// abstract content, `capacity` the largest length the back-end can hold.
pub trait ExpressionStorage: Sized {
    spec fn sview(&self) -> Seq<Term>;

    spec fn capacity() -> nat;

    proof fn capacity_positive()
        ensures
            Self::capacity() >= 1,
    ;

    fn empty() -> (r: Self)
        ensures
            r.sview() == Seq::<Term>::empty(),
    ;

    fn len(&self) -> (r: usize)
        ensures
            r == self.sview().len(),
    ;

    fn push(&mut self, t: Term)
        requires
            old(self).sview().len() < Self::capacity(),
        ensures
            final(self).sview() == old(self).sview().push(t),
    ;

    fn pop(&mut self) -> (r: Option<Term>)
        ensures
            old(self).sview().len() == 0 ==> r is None && final(self).sview() == old(self).sview(),
            old(self).sview().len() > 0 ==> r == Some(old(self).sview().last())
                && final(self).sview() == old(self).sview().drop_last(),
    ;

    fn read(&self, i: usize) -> (r: Term)
        requires
            i < self.sview().len(),
        ensures
            r == self.sview()[i as int],
    ;

    fn write(&mut self, i: usize, t: Term)
        requires
            i < old(self).sview().len(),
        ensures
            final(self).sview() == old(self).sview().update(i as int, t),
    ;

    fn remove(&mut self, i: usize) -> (r: Term)
        requires
            i < old(self).sview().len(),
        ensures
            r == old(self).sview()[i as int],
            final(self).sview() == old(self).sview().remove(i as int),
    ;

    fn duplicate(&self) -> (r: Self)
        ensures
            r.sview() == self.sview(),
    ;

    fn into_vec(self) -> (r: Vec<Term>)
        ensures
            r@ == self.sview(),
    ;
}

impl ExpressionStorage for Vec<Term> {
    open spec fn sview(&self) -> Seq<Term> {
        self@
    }

    open spec fn capacity() -> nat {
        usize::MAX as nat
    }

    proof fn capacity_positive() {
    }

    fn empty() -> (r: Self) {
        Vec::new()
    }

    fn len(&self) -> (r: usize) {
        Vec::len(self)
    }

    fn push(&mut self, t: Term) {
        Vec::push(self, t);
    }

    fn pop(&mut self) -> (r: Option<Term>) {
        Vec::pop(self)
    }

    fn read(&self, i: usize) -> (r: Term) {
        self[i]
    }

    fn write(&mut self, i: usize, t: Term) {
        self.set(i, t);
    }

    fn remove(&mut self, i: usize) -> (r: Term) {
        Vec::remove(self, i)
    }

    fn duplicate(&self) -> (r: Self) {
        let mut out: Vec<Term> = Vec::new();
        let mut k: usize = 0;
        while k < Vec::len(self)
            invariant
                k <= self@.len(),
                out@ == self@.take(k as int),
            decreases self@.len() - k,
        {
            out.push(self[k]);
            proof {
                assert(self@.take(k + 1 as int) =~= self@.take(k as int).push(self@[k as int]));
            }
            k = k + 1;
        }
        proof {
            assert(self@.take(self@.len() as int) =~= self@);
        }
        out
    }

    fn into_vec(self) -> (r: Vec<Term>) {
        self
    }
}

#[verifier::external_type_specification]
#[verifier::external_body]
#[verifier::reject_recursive_types(A)]
pub struct ExArrayVec<A>(tinyvec::ArrayVec<A>);

/// The terms a stack-inlined buffer holds, in order. Names the content of
/// the outside container; the trusted wrappers below say how each call
/// changes it.
pub uninterp spec fn inline_terms(v: &tinyvec::ArrayVec<[Term; 20]>) -> Seq<Term>;

/// Relies on tinyvec's `ArrayVec::new`: a new buffer is empty.
#[verifier::external_body]
fn inline_empty() -> (r: tinyvec::ArrayVec<[Term; 20]>)
    ensures
        inline_terms(&r) == Seq::<Term>::empty(),
{
    tinyvec::ArrayVec::new()
}

/// Relies on tinyvec's `ArrayVec::len`: the current element count.
#[verifier::external_body]
fn inline_len(v: &tinyvec::ArrayVec<[Term; 20]>) -> (r: usize)
    ensures
        r == inline_terms(v).len(),
{
    tinyvec::ArrayVec::len(v)
}

/// Relies on tinyvec's `ArrayVec::push`: appends at the end; panics only
/// past the capacity, which the `requires` rules out.
#[verifier::external_body]
fn inline_push(v: &mut tinyvec::ArrayVec<[Term; 20]>, t: Term)
    requires
        inline_terms(old(v)).len() < 20,
    ensures
        inline_terms(final(v)) == inline_terms(old(v)).push(t),
{
    tinyvec::ArrayVec::push(v, t);
}

/// Relies on tinyvec's `ArrayVec::pop`: removes and returns the last
/// element, or `None` when empty.
#[verifier::external_body]
fn inline_pop(v: &mut tinyvec::ArrayVec<[Term; 20]>) -> (r: Option<Term>)
    ensures
        inline_terms(old(v)).len() == 0 ==> r is None && inline_terms(final(v)) == inline_terms(
            old(v),
        ),
        inline_terms(old(v)).len() > 0 ==> r == Some(inline_terms(old(v)).last()) && inline_terms(
            final(v),
        ) == inline_terms(old(v)).drop_last(),
{
    tinyvec::ArrayVec::pop(v)
}

/// Relies on tinyvec's `Index` impl for `ArrayVec`: the element at `i`.
#[verifier::external_body]
fn inline_read(v: &tinyvec::ArrayVec<[Term; 20]>, i: usize) -> (r: Term)
    requires
        i < inline_terms(v).len(),
    ensures
        r == inline_terms(v)[i as int],
{
    v[i]
}

/// Relies on tinyvec's `IndexMut` impl for `ArrayVec`: replaces the
/// element at `i`.
#[verifier::external_body]
fn inline_write(v: &mut tinyvec::ArrayVec<[Term; 20]>, i: usize, t: Term)
    requires
        i < inline_terms(old(v)).len(),
    ensures
        inline_terms(final(v)) == inline_terms(old(v)).update(i as int, t),
{
    v[i] = t;
}

/// Relies on tinyvec's `ArrayVec::remove`: takes out the element at `i`,
/// shifting the tail left by one; panics only out of bounds, which the
/// `requires` rules out.
#[verifier::external_body]
fn inline_remove(v: &mut tinyvec::ArrayVec<[Term; 20]>, i: usize) -> (r: Term)
    requires
        i < inline_terms(old(v)).len(),
    ensures
        r == inline_terms(old(v))[i as int],
        inline_terms(final(v)) == inline_terms(old(v)).remove(i as int),
{
    tinyvec::ArrayVec::remove(v, i)
}

/// Relies on tinyvec's `Clone` impl for `ArrayVec`: an element-wise copy.
#[verifier::external_body]
fn inline_duplicate(v: &tinyvec::ArrayVec<[Term; 20]>) -> (r: tinyvec::ArrayVec<[Term; 20]>)
    ensures
        inline_terms(&r) == inline_terms(v),
{
    v.clone()
}

/// Relies on tinyvec's `ArrayVec::to_vec`: the elements in order.
#[verifier::external_body]
fn inline_into_vec(v: tinyvec::ArrayVec<[Term; 20]>) -> (r: Vec<Term>)
    ensures
        r@ == inline_terms(&v),
{
    v.to_vec()
}

impl ExpressionStorage for tinyvec::ArrayVec<[Term; 20]> {
    open spec fn sview(&self) -> Seq<Term> {
        inline_terms(self)
    }

    open spec fn capacity() -> nat {
        20
    }

    proof fn capacity_positive() {
    }

    fn empty() -> (r: Self) {
        inline_empty()
    }

    fn len(&self) -> (r: usize) {
        inline_len(self)
    }

    fn push(&mut self, t: Term) {
        inline_push(self, t);
    }

    fn pop(&mut self) -> (r: Option<Term>) {
        inline_pop(self)
    }

    fn read(&self, i: usize) -> (r: Term) {
        inline_read(self, i)
    }

    fn write(&mut self, i: usize, t: Term) {
        inline_write(self, i, t);
    }

    fn remove(&mut self, i: usize) -> (r: Term) {
        inline_remove(self, i)
    }

    fn duplicate(&self) -> (r: Self) {
        inline_duplicate(self)
    }

    fn into_vec(self) -> (r: Vec<Term>) {
        inline_into_vec(self)
    }
}

} // verus!
