//! UTF-8 validation of byte spans, through `core::str::from_utf8`.

use vstd::prelude::*;
use vstd::string::StringSliceAdditionalSpecFns;
use vstd::utf8::{valid_utf8, is_char_boundary, length_of_first_scalar, pop_first_scalar};

verus! {

/// Calls `core::str::from_utf8`. Its documentation promises `Ok` exactly
/// when the bytes are valid UTF-8, and then a `str` over those same bytes;
/// that is what this contract claims.
#[verifier::external_body]
pub fn str_from_utf8(b: &[u8]) -> (r: Option<&str>)
    ensures
        r is Some <==> valid_utf8(b@),
        r matches Some(s) ==> s.spec_bytes() == b@,
{
    core::str::from_utf8(b).ok()
}

/// Whether `b` is valid UTF-8.
pub fn is_utf8(b: &[u8]) -> (r: bool)
    ensures
        r == valid_utf8(b@),
{
    str_from_utf8(b).is_some()
}

/// In valid UTF-8, the position right after an ASCII byte is a character
/// boundary.
pub proof fn lemma_boundary_after_ascii(b: Seq<u8>, j: int)
    requires
        valid_utf8(b),
        0 < j <= b.len(),
        b[j - 1] < 128,
    ensures
        is_char_boundary(b, j),
    decreases b.len(),
{
    let l = length_of_first_scalar(b);
    assert(1 <= l <= 4);
    let rest = pop_first_scalar(b);
    assert(valid_utf8(rest));
    if j < l {
        // b[j - 1] would lie inside a multi-byte scalar: a leading byte of
        // width > 1 or a continuation byte, never ASCII.
        assert(false);
    } else if j == l {
        assert(is_char_boundary(rest, 0));
    } else {
        assert(rest[j - l - 1] == b[j - 1]);
        lemma_boundary_after_ascii(rest, j - l);
    }
}

} // verus!
