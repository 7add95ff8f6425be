//! Typing a text out one byte at a time.

use vstd::prelude::*;
use vstd::string::StringSliceAdditionalSpecFns;

verus! {

/// The first `i` bytes of `text`, where `i` falls on a character boundary
/// (as slicing a `str` demands).
pub fn typed_prefix(text: &str, i: usize) -> (prefix: &str)
    requires
        vstd::utf8::is_char_boundary(text.spec_bytes(), i as int),
    ensures
        prefix.spec_bytes() == text.spec_bytes().subrange(0, i as int),
{
    text.split_at(i).0
}

} // verus!
