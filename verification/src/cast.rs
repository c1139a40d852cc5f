//! Calls that are taken as they are documented: the conversions between the
//! machine's numbers that the `num_traits` crate makes, and the standard
//! library's test of UTF-8.
use crate::abyss::Value;
use vstd::prelude::*;
use vstd::utf8::valid_utf8;

verus! {

/// `num_traits::cast` from `usize` to `isize`: the same number where it is at
/// most `isize::MAX`, and `None` above that.
#[verifier::external_body]
pub(crate) fn value_of_len(n: usize) -> (r: Option<Value>)
    ensures
        n <= isize::MAX ==> r == Some(n as Value),
        n > isize::MAX ==> r is None,
{
    num_traits::cast::<usize, isize>(n)
}

/// `num_traits::cast` from `isize` to `u8`: the same number where it lies
/// between 0 and 255, and `None` elsewhere.
#[verifier::external_body]
pub(crate) fn byte_of_value(v: Value) -> (r: Option<u8>)
    ensures
        0 <= v <= 255 ==> r == Some(v as u8),
        !(0 <= v <= 255) ==> r is None,
{
    num_traits::cast::<isize, u8>(v)
}

/// `core::str::from_utf8`: it takes the bytes that are valid UTF-8 for text,
/// and no others.
#[verifier::external_body]
pub(crate) fn is_utf8(bytes: &[u8]) -> (r: bool)
    ensures
        r == valid_utf8(bytes@),
{
    core::str::from_utf8(bytes).is_ok()
}

} // verus!
