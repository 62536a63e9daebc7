//! Sizes in the units that people read.

use humansize::{format_size, BINARY};
use vstd::prelude::*;

verus! {

/// A number of bytes in binary units.
pub uninterp spec fn size_text(bytes: u64) -> Seq<char>;

/// `format_size` of humansize with its `BINARY` options: the text depends on
/// the number of bytes alone.
#[verifier::external_body]
pub(crate) fn human_size(bytes: u64) -> (r: String)
    ensures
        r@ == size_text(bytes),
{
    format_size(bytes, BINARY)
}

} // verus!
