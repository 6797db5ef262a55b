//! Byte strings of the `bstr` crate, as the library holds and hands out
//! bytes.
//!
//! The functions here are the only ones that touch a byte string itself.
//! What they promise is not proved but read off the source of `bstr`.

use bstr::{BStr, BString};
use std::ops::{Deref, DerefMut};
use vstd::prelude::*;

verus! {

/// The owned byte string of `bstr`, made known so that it can stand in
/// fields and signatures. Nothing inside it is seen from here.
#[verifier::external_type_specification]
#[verifier::external_body]
pub struct ExBString(bstr::BString);

/// The borrowed byte string of `bstr`, made known in the same way.
#[verifier::external_type_specification]
#[verifier::external_body]
pub struct ExBStr(bstr::BStr);

/// The bytes that an owned byte string holds.
pub uninterp spec fn bstring_bytes(s: bstr::BString) -> Seq<u8>;

/// The bytes that a borrowed byte string holds.
pub uninterp spec fn bstr_bytes(s: &bstr::BStr) -> Seq<u8>;

/// `BString::from` for a vector of bytes: the byte string takes the vector
/// as it is, so it holds the bytes of the vector.
#[verifier::external_body]
pub(crate) fn bstring_from(bytes: Vec<u8>) -> (s: BString)
    ensures
        bstring_bytes(s) == bytes@,
{
    BString::from(bytes)
}

/// `Deref::deref` of `BString`: a borrow of the vector inside the byte
/// string, which holds its bytes.
#[verifier::external_body]
pub(crate) fn bstring_vec(s: &BString) -> (bytes: &Vec<u8>)
    ensures
        bytes@ == bstring_bytes(*s),
{
    s.deref()
}

/// `DerefMut::deref_mut` of `BString`: a mutable borrow of the vector
/// inside the byte string. The byte string holds at any time what the
/// vector holds, so what is done to the vector is done to the byte string.
#[verifier::external_body]
pub(crate) fn bstring_vec_mut(s: &mut BString) -> (bytes: &mut Vec<u8>)
    ensures
        bytes@ == bstring_bytes(*old(s)),
        bstring_bytes(*final(s)) == final(bytes)@,
{
    s.deref_mut()
}

/// `BStr::new` for a slice of bytes: the same bytes, seen as a byte string.
#[verifier::external_body]
pub(crate) fn as_bstr(bytes: &[u8]) -> (s: &BStr)
    ensures
        bstr_bytes(s) == bytes@,
{
    BStr::new(bytes)
}

} // verus!
