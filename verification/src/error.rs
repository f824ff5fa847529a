//! The library's error: a message attached to a source span, as a
//! single-message `syn::Error` holds it.
use proc_macro2::Span;
use vstd::prelude::*;
use vstd::string::StringExecFns;

verus! {

/// An error message with the source span that it points at.
#[derive(Debug)]
pub struct Error {
    pub span: Span,
    pub message: String,
}

impl Error {
    /// An error at `span` with the given message.
    pub fn new(span: Span, message: String) -> (e: Error)
        ensures
            e.span == span,
            e.message@ == message@,
    {
        Error { span, message }
    }

    /// The text that `Display` gives for the error: its message.
    pub fn to_string(&self) -> (s: String)
        ensures
            s@ == self.message@,
    {
        self.message.clone()
    }
}

/// The message of an error that `chain_error` builds: the path of the field
/// that failed to parse (`Enum::Ctor::field`, or `Ctor::field` when the
/// enum's name is empty), then the message of the cause on a new line.
pub open spec fn chain_message(
    enum_: Seq<char>,
    ctor: Seq<char>,
    field: Seq<char>,
    cause: Seq<char>,
) -> Seq<char> {
    let path = if enum_.len() == 0 {
        ctor + "::"@ + field
    } else {
        enum_ + "::"@ + ctor + "::"@ + field
    };
    "error parsing "@ + path + ", caused by:\n"@ + cause
}

/// Adds the context of an enclosing production to `cause`, keeping the span
/// of `cause` (which is more precise) and its message (at the end).
/// `field` is the text of the field's name or index.
pub fn chain_error(cause: Error, enum_: &str, ctor: &str, field: &str) -> (e: Error)
    ensures
        e.span == cause.span,
        e.message@ == chain_message(enum_@, ctor@, field@, cause.message@),
{
    let mut message = String::from_str("error parsing ");
    if !enum_.is_empty() {
        message.append(enum_);
        message.append("::");
    }
    message.append(ctor);
    message.append("::");
    message.append(field);
    message.append(", caused by:\n");
    message.append(cause.message.as_str());
    assert(message@ =~= chain_message(enum_@, ctor@, field@, cause.message@));
    Error { span: cause.span, message }
}

} // verus!
