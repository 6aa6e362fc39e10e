//! The two fields that circuit constants live in: the prime field of order
//! 2^64 - 2^32 + 1 and its cubic extension modulo x^3 - x + 1.
//!
//! Elements are held by their canonical representatives. The arithmetic itself
//! is done by `twenty_first`; the functions here state what it computes.

use twenty_first::prelude::BFieldElement;
use twenty_first::prelude::XFieldElement;
use vstd::prelude::*;

verus! {

/// The order of the base field, 2^64 - 2^32 + 1.
pub const P: u64 = 0xffff_ffff_0000_0001u64;

/// Number of base field words that make up one extension field element.
pub const EXTENSION_DEGREE: usize = 3;

/// An element `c0 + c1·x + c2·x²` of the extension field, by the canonical
/// representatives of its coefficients.
#[derive(Clone, Copy, Debug, PartialEq, Eq, Structural, Hash)]
pub struct ExtensionElement {
    pub c0: u64,
    pub c1: u64,
    pub c2: u64,
}

/// The canonical representative of an integer modulo the field's order.
pub open spec fn reduce(x: int) -> int {
    x % (P as int)
}

impl ExtensionElement {
    /// All coefficients are canonical representatives.
    pub open spec fn is_canonical(self) -> bool {
        self.c0 < P && self.c1 < P && self.c2 < P
    }

    /// The coefficients as mathematical integers.
    pub open spec fn coefficients(self) -> (int, int, int) {
        (self.c0 as int, self.c1 as int, self.c2 as int)
    }
}

/// A base field element seen as an element of the extension field.
pub open spec fn lifted(v: u64) -> ExtensionElement {
    ExtensionElement { c0: v, c1: 0, c2: 0 }
}

/// Coefficient-wise sum in the extension field.
pub open spec fn ext_sum(a: ExtensionElement, b: ExtensionElement) -> (int, int, int) {
    (reduce(a.c0 + b.c0), reduce(a.c1 + b.c1), reduce(a.c2 + b.c2))
}

/// Product of two polynomials of degree below three, reduced modulo
/// x^3 - x + 1 (so x^3 = x - 1 and x^4 = x^2 - x).
pub open spec fn ext_product(a: ExtensionElement, b: ExtensionElement) -> (int, int, int) {
    (
        reduce(a.c0 * b.c0 - a.c2 * b.c1 - a.c1 * b.c2),
        reduce(a.c1 * b.c0 + a.c0 * b.c1 - a.c2 * b.c2 + a.c2 * b.c1 + a.c1 * b.c2),
        reduce(a.c2 * b.c0 + a.c1 * b.c1 + a.c0 * b.c2 + a.c2 * b.c2),
    )
}

/// Embeds a base field element into the extension field.
pub fn lift(v: u64) -> (r: ExtensionElement)
    ensures
        r == lifted(v),
{
    ExtensionElement { c0: v, c1: 0, c2: 0 }
}

/// Canonical representative of `v` in the base field.
///
/// Calls `BFieldElement::new` and `BFieldElement::value` of `twenty_first`.
/// Claimed, not proved: converting into the crate's internal representation
/// and back yields the remainder of `v` modulo the field's order.
#[verifier::external_body]
pub(crate) fn bfe_canonical(v: u64) -> (r: u64)
    ensures
        r as int == reduce(v as int),
{
    BFieldElement::new(v).value()
}

/// Sum of two base field elements.
///
/// Calls the `Add` operator of `twenty_first`'s `BFieldElement`. Claimed, not
/// proved: the operator is addition modulo the field's order.
#[verifier::external_body]
pub(crate) fn bfe_add(a: u64, b: u64) -> (r: u64)
    ensures
        r as int == reduce(a + b),
{
    (BFieldElement::new(a) + BFieldElement::new(b)).value()
}

/// Product of two base field elements.
///
/// Calls the `Mul` operator of `twenty_first`'s `BFieldElement`. Claimed, not
/// proved: the operator is multiplication modulo the field's order.
#[verifier::external_body]
pub(crate) fn bfe_mul(a: u64, b: u64) -> (r: u64)
    ensures
        r as int == reduce(a * b),
{
    (BFieldElement::new(a) * BFieldElement::new(b)).value()
}

/// Sum of two extension field elements.
///
/// Calls the `Add` operator of `twenty_first`'s `XFieldElement`. Claimed, not
/// proved: the operator adds coefficient by coefficient in the base field.
#[verifier::external_body]
pub(crate) fn xfe_add(a: ExtensionElement, b: ExtensionElement) -> (r: ExtensionElement)
    ensures
        r.coefficients() == ext_sum(a, b),
{
    let (a0, a1, a2) = (BFieldElement::new(a.c0), BFieldElement::new(a.c1), BFieldElement::new(a.c2));
    let (b0, b1, b2) = (BFieldElement::new(b.c0), BFieldElement::new(b.c1), BFieldElement::new(b.c2));
    let [c0, c1, c2] = (XFieldElement::new([a0, a1, a2]) + XFieldElement::new([b0, b1, b2])).coefficients;
    ExtensionElement { c0: c0.value(), c1: c1.value(), c2: c2.value() }
}

/// Product of two extension field elements.
///
/// Calls the `Mul` operator of `twenty_first`'s `XFieldElement`. Claimed, not
/// proved: the operator multiplies the two polynomials and reduces the result
/// modulo x^3 - x + 1, with coefficients in the base field.
#[verifier::external_body]
pub(crate) fn xfe_mul(a: ExtensionElement, b: ExtensionElement) -> (r: ExtensionElement)
    ensures
        r.coefficients() == ext_product(a, b),
{
    let (a0, a1, a2) = (BFieldElement::new(a.c0), BFieldElement::new(a.c1), BFieldElement::new(a.c2));
    let (b0, b1, b2) = (BFieldElement::new(b.c0), BFieldElement::new(b.c1), BFieldElement::new(b.c2));
    let [c0, c1, c2] = (XFieldElement::new([a0, a1, a2]) * XFieldElement::new([b0, b1, b2])).coefficients;
    ExtensionElement { c0: c0.value(), c1: c1.value(), c2: c2.value() }
}

} // verus!
