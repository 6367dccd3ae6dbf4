//! Comparing secrets.
use subtle::ConstantTimeEq;
use vstd::prelude::*;

use crate::text::lemma_same_encoding;

verus! {

/// `subtle::ConstantTimeEq::ct_eq` on two byte slices: whether they hold the same
/// bytes. That the time taken does not depend on where they differ is not part of
/// what is stated.
#[verifier::external_body]
pub(crate) fn ct_eq(a: &[u8], b: &[u8]) -> (same: bool)
    ensures
        same == (a@ == b@),
{
    a.ct_eq(b).into()
}

/// Whether a presented secret is the expected one. Their lengths may differ in
/// time: a length is no secret.
pub fn same_secret(expected: &str, presented: &str) -> (same: bool)
    ensures
        same == (expected@ == presented@),
{
    proof {
        lemma_same_encoding(expected@, presented@);
    }
    expected.as_bytes().len() == presented.as_bytes().len() && ct_eq(
        expected.as_bytes(),
        presented.as_bytes(),
    )
}

} // verus!
