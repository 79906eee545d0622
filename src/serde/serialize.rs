//! The encoder: a value of a codec type written as a document.
use vstd::prelude::*;
use crate::serde::codec::Codec;

verus! {

/// The document that encodes `x`.
pub fn to_string<T: Codec>(x: &T) -> (r: String)
    ensures
        r@ == crate::printer::render(x.model()),
{
    x.encode().to_string()
}

} // verus!
