//! Sort directions for merges.

use vstd::prelude::*;

use crate::engine::vec_data::{equiv, VecData};

verus! {

/// A sort direction over the elements of type `T`.
pub trait Comparator<T: VecData> {
    /// `left` has to come strictly before `right`.
    spec fn before(left: T, right: T) -> bool;

    /// `left` may come before `right`.
    spec fn before_or_equal(left: T, right: T) -> bool;

    /// The direction orders elements as `le` of `T` does, or the other way round.
    spec fn ascending() -> bool;

    /// The direction follows the order of `T` or reverses it.
    proof fn direction(left: T, right: T)
        ensures
            Self::before_or_equal(left, right) == if Self::ascending() {
                left.le(right)
            } else {
                right.le(left)
            },
            Self::before(left, right) == !Self::before_or_equal(right, left),
    ;

    /// Decides `before`.
    fn strictly_before(left: T, right: T) -> (b: bool)
        ensures
            b == Self::before(left, right),
    ;

    /// Decides `before_or_equal`.
    fn not_after(left: T, right: T) -> (b: bool)
        ensures
            b == Self::before_or_equal(left, right),
    ;

    /// Whether the direction is ascending.
    fn is_less_than() -> (b: bool)
        ensures
            b == Self::ascending(),
    ;
}

/// What every sort direction has from the order of `T`: it is total and
/// transitive, strictness is the negation of the reverse, and equality in the
/// order does not depend on the direction.
pub proof fn lemma_direction_order<T: VecData, C: Comparator<T>>(a: T, b: T, c: T)
    ensures
        C::before_or_equal(a, b) || C::before_or_equal(b, a),
        C::before_or_equal(a, b) && C::before_or_equal(b, c) ==> C::before_or_equal(a, c),
        C::before(a, b) == !C::before_or_equal(b, a),
        equiv(a, b) == (C::before_or_equal(a, b) && C::before_or_equal(b, a)),
{
    C::direction(a, b);
    C::direction(b, a);
    C::direction(b, c);
    C::direction(a, c);
    T::le_total(a, b);
    if a.le(b) && b.le(c) {
        T::le_transitive(a, b, c);
    }
    if c.le(b) && b.le(a) {
        T::le_transitive(c, b, a);
    }
}

/// Ascending order.
#[derive(Debug, Clone, Copy)]
pub struct CmpLessThan;

/// Descending order.
#[derive(Debug, Clone, Copy)]
pub struct CmpGreaterThan;

impl<T: VecData> Comparator<T> for CmpLessThan {
    open spec fn before(left: T, right: T) -> bool {
        !right.le(left)
    }

    open spec fn before_or_equal(left: T, right: T) -> bool {
        left.le(right)
    }

    open spec fn ascending() -> bool {
        true
    }

    proof fn direction(left: T, right: T) {
    }

    fn strictly_before(left: T, right: T) -> (b: bool) {
        !right.less_or_equal(left)
    }

    fn not_after(left: T, right: T) -> (b: bool) {
        left.less_or_equal(right)
    }

    fn is_less_than() -> (b: bool) {
        true
    }
}

impl<T: VecData> Comparator<T> for CmpGreaterThan {
    open spec fn before(left: T, right: T) -> bool {
        !left.le(right)
    }

    open spec fn before_or_equal(left: T, right: T) -> bool {
        right.le(left)
    }

    open spec fn ascending() -> bool {
        false
    }

    proof fn direction(left: T, right: T) {
    }

    fn strictly_before(left: T, right: T) -> (b: bool) {
        !left.less_or_equal(right)
    }

    fn not_after(left: T, right: T) -> (b: bool) {
        right.less_or_equal(left)
    }

    fn is_less_than() -> (b: bool) {
        false
    }
}

} // verus!
