//! The element types of query columns and the total order each one carries.

use vstd::prelude::*;
use vstd::string::*;

verus! {

/// A column element: a value that can be copied and that is totally ordered.
///
/// `le` is the order in specifications; `less_or_equal` and `same` decide it
/// at run time. Two elements are equal for the purposes of grouping when each
/// is `le` the other.
pub trait VecData: Copy {
    /// `self` is not greater than `other`.
    spec fn le(self, other: Self) -> bool;

    /// Any two elements are comparable.
    proof fn le_total(a: Self, b: Self)
        ensures
            a.le(b) || b.le(a),
    ;

    /// The order is transitive.
    proof fn le_transitive(a: Self, b: Self, c: Self)
        requires
            a.le(b),
            b.le(c),
        ensures
            a.le(c),
    ;

    /// Decides `le`.
    fn less_or_equal(self, other: Self) -> (b: bool)
        ensures
            b == self.le(other),
    ;

    /// Decides equality in the order.
    fn same(self, other: Self) -> (b: bool)
        ensures
            b == (self.le(other) && other.le(self)),
    ;
}

/// `a` and `b` are equal in the order of their type.
pub open spec fn equiv<T: VecData>(a: T, b: T) -> bool {
    a.le(b) && b.le(a)
}

/// `a` comes strictly before `b` in the order of their type.
pub open spec fn lt<T: VecData>(a: T, b: T) -> bool {
    !b.le(a)
}

impl VecData for i64 {
    open spec fn le(self, other: Self) -> bool {
        self <= other
    }

    proof fn le_total(a: Self, b: Self) {
    }

    proof fn le_transitive(a: Self, b: Self, c: Self) {
    }

    fn less_or_equal(self, other: Self) -> (b: bool) {
        self <= other
    }

    fn same(self, other: Self) -> (b: bool) {
        self == other
    }
}

impl VecData for u8 {
    open spec fn le(self, other: Self) -> bool {
        self <= other
    }

    proof fn le_total(a: Self, b: Self) {
    }

    proof fn le_transitive(a: Self, b: Self, c: Self) {
    }

    fn less_or_equal(self, other: Self) -> (b: bool) {
        self <= other
    }

    fn same(self, other: Self) -> (b: bool) {
        self == other
    }
}

impl VecData for u32 {
    open spec fn le(self, other: Self) -> bool {
        self <= other
    }

    proof fn le_total(a: Self, b: Self) {
    }

    proof fn le_transitive(a: Self, b: Self, c: Self) {
    }

    fn less_or_equal(self, other: Self) -> (b: bool) {
        self <= other
    }

    fn same(self, other: Self) -> (b: bool) {
        self == other
    }
}

/// The key of a row with two key columns.
#[derive(Debug, Clone, Copy)]
pub struct Compound<A, B>(pub A, pub B);

/// Compound keys are ordered by their first parts, and by their second parts
/// where the first are equal.
impl<A: VecData, B: VecData> VecData for Compound<A, B> {
    open spec fn le(self, other: Self) -> bool {
        self.0.le(other.0) && (!other.0.le(self.0) || self.1.le(other.1))
    }

    proof fn le_total(a: Self, b: Self) {
        A::le_total(a.0, b.0);
        B::le_total(a.1, b.1);
    }

    proof fn le_transitive(a: Self, b: Self, c: Self) {
        A::le_total(a.0, c.0);
        A::le_transitive(a.0, b.0, c.0);
        if c.0.le(a.0) {
            A::le_transitive(c.0, a.0, b.0);
            A::le_transitive(b.0, c.0, a.0);
            B::le_transitive(a.1, b.1, c.1);
        }
    }

    fn less_or_equal(self, other: Self) -> (b: bool) {
        self.0.less_or_equal(other.0) && (!other.0.less_or_equal(self.0) || self.1.less_or_equal(
            other.1,
        ))
    }

    fn same(self, other: Self) -> (b: bool) {
        proof {
            A::le_total(self.0, other.0);
        }
        self.0.same(other.0) && self.1.same(other.1)
    }
}

/// Lexicographic order on byte strings: the first differing byte decides, and
/// a proper prefix comes first.
pub open spec fn bytes_le(a: Seq<u8>, b: Seq<u8>) -> bool
    decreases a.len(),
{
    if a.len() == 0 {
        true
    } else if b.len() == 0 {
        false
    } else if a[0] != b[0] {
        a[0] < b[0]
    } else {
        bytes_le(a.drop_first(), b.drop_first())
    }
}

/// Any two byte strings are comparable.
pub proof fn lemma_bytes_le_total(a: Seq<u8>, b: Seq<u8>)
    ensures
        bytes_le(a, b) || bytes_le(b, a),
    decreases a.len(),
{
    if a.len() > 0 && b.len() > 0 && a[0] == b[0] {
        lemma_bytes_le_total(a.drop_first(), b.drop_first());
    }
}

/// The lexicographic order is transitive.
pub proof fn lemma_bytes_le_transitive(a: Seq<u8>, b: Seq<u8>, c: Seq<u8>)
    requires
        bytes_le(a, b),
        bytes_le(b, c),
    ensures
        bytes_le(a, c),
    decreases a.len(),
{
    if a.len() > 0 && b.len() > 0 && c.len() > 0 && a[0] == b[0] && b[0] == c[0] {
        lemma_bytes_le_transitive(a.drop_first(), b.drop_first(), c.drop_first());
    }
}

/// Byte strings that are equal in the lexicographic order are the same.
pub proof fn lemma_bytes_le_antisymmetric(a: Seq<u8>, b: Seq<u8>)
    requires
        bytes_le(a, b),
        bytes_le(b, a),
    ensures
        a == b,
    decreases a.len(),
{
    if a.len() > 0 && b.len() > 0 {
        lemma_bytes_le_antisymmetric(a.drop_first(), b.drop_first());
        assert(a =~= seq![a[0]] + a.drop_first());
        assert(b =~= seq![b[0]] + b.drop_first());
    }
    assert(a =~= b);
}

/// Decides the lexicographic order of the UTF-8 bytes of two string slices.
pub(crate) fn str_le(a: &str, b: &str) -> (r: bool)
    ensures
        r == bytes_le(a.spec_bytes(), b.spec_bytes()),
{
    let x = a.as_bytes();
    let y = b.as_bytes();
    let mut i: usize = 0;
    assert(x@.skip(0) =~= x@ && y@.skip(0) =~= y@);
    while i < x.len() && i < y.len()
        invariant
            i <= x@.len(),
            i <= y@.len(),
            x@ == a.spec_bytes(),
            y@ == b.spec_bytes(),
            bytes_le(x@, y@) == bytes_le(x@.skip(i as int), y@.skip(i as int)),
        decreases x@.len() - i,
    {
        proof {
            assert(x@.skip(i as int)[0] == x@[i as int]);
            assert(y@.skip(i as int)[0] == y@[i as int]);
            assert(x@.skip(i as int).drop_first() =~= x@.skip(i + 1));
            assert(y@.skip(i as int).drop_first() =~= y@.skip(i + 1));
        }
        if x[i] != y[i] {
            return x[i] < y[i];
        }
        i += 1;
    }
    i == x.len()
}

/// Decides whether two string slices hold the same bytes.
pub(crate) fn str_eq(a: &str, b: &str) -> (r: bool)
    ensures
        r == (a.spec_bytes() == b.spec_bytes()),
{
    let x = a.as_bytes();
    let y = b.as_bytes();
    if x.len() != y.len() {
        return false;
    }
    let mut i: usize = 0;
    while i < x.len()
        invariant
            i <= x@.len(),
            x@.len() == y@.len(),
            x@ == a.spec_bytes(),
            y@ == b.spec_bytes(),
            forall|k: int| 0 <= k < i ==> x@[k] == y@[k],
        decreases x@.len() - i,
    {
        if x[i] != y[i] {
            return false;
        }
        i += 1;
    }
    assert(x@ =~= y@);
    true
}

/// Whether two string slices hold the same text.
pub fn same_text(a: &str, b: &str) -> (same: bool)
    ensures
        same == (a@ == b@),
{
    proof {
        vstd::utf8::encode_utf8_decode_utf8(a@);
        vstd::utf8::encode_utf8_decode_utf8(b@);
    }
    str_eq(a, b)
}

impl<'a> VecData for &'a str {
    open spec fn le(self, other: Self) -> bool {
        bytes_le(self.spec_bytes(), other.spec_bytes())
    }

    proof fn le_total(a: Self, b: Self) {
        lemma_bytes_le_total(a.spec_bytes(), b.spec_bytes());
    }

    proof fn le_transitive(a: Self, b: Self, c: Self) {
        lemma_bytes_le_transitive(a.spec_bytes(), b.spec_bytes(), c.spec_bytes());
    }

    fn less_or_equal(self, other: Self) -> (b: bool) {
        str_le(self, other)
    }

    fn same(self, other: Self) -> (b: bool) {
        proof {
            if bytes_le(self.spec_bytes(), other.spec_bytes()) && bytes_le(
                other.spec_bytes(),
                self.spec_bytes(),
            ) {
                lemma_bytes_le_antisymmetric(self.spec_bytes(), other.spec_bytes());
            }
            lemma_bytes_le_total(self.spec_bytes(), self.spec_bytes());
        }
        str_eq(self, other)
    }
}

} // verus!
