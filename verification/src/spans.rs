//! The source span type of `proc_macro2`. Its line/column locations are
//! read by the caller: `Span::start` and `Span::end` look the span up in the
//! thread's source map, and the library takes the locations as values.
use proc_macro2::Span;
use vstd::prelude::*;


verus! {

#[verifier::external_type_specification]
#[verifier::external_body]
pub struct ExSpan(Span);

/// `Span::call_site`. Nothing is stated of the span that it returns.
#[verifier::external_body]
pub(crate) fn call_site() -> Span {
    Span::call_site()
}

} // verus!
