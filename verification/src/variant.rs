//! Trying the alternatives of a production one after the other, keeping the
//! error of the one that got farthest.
use proc_macro2::Span;
use syn::parse::discouraged::Speculative;
use syn::parse::{ParseBuffer, ParseStream};
use syn::Error as SynError;
use vstd::prelude::*;

use crate::error::Error;
use crate::location::LineColumn;

verus! {

#[verifier::external_type_specification]
#[verifier::external_body]
pub struct ExParseBuffer<'a>(ParseBuffer<'a>);

#[verifier::external_type_specification]
#[verifier::external_body]
pub struct ExSynError(SynError);

/// A parse stream together with a fork of it. Only `begin` builds one, so
/// the fork that `commit` advances the stream to is always a fork of that
/// stream.
pub struct Speculation<'a> {
    input: ParseStream<'a>,
    fork: ParseBuffer<'a>,
}

/// `ParseBuffer::fork`: pairs `input` with a fresh fork of it.
#[verifier::external_body]
fn begin<'a>(input: ParseStream<'a>) -> Speculation<'a> {
    Speculation { input, fork: input.fork() }
}

impl<'a> Speculation<'a> {
    /// The fork, to parse from.
    pub fn fork(&self) -> &ParseBuffer<'a> {
        &self.fork
    }
}

/// `Speculative::advance_to`: moves the stream of `speculation` to where its
/// fork stands. The fork was made from that stream by `begin`, as
/// `advance_to` requires.
#[verifier::external_body]
fn commit<'a>(speculation: Speculation<'a>) {
    speculation.input.advance_to(&speculation.fork)
}

/// The text that `Display` gives for a `syn::Error`: the message of its
/// first error.
pub uninterp spec fn syn_error_text(error: SynError) -> Seq<char>;

/// `Display` of `syn::Error` (through `to_string`), which writes the message
/// of its first error: a function of the error alone, named `syn_error_text`.
#[verifier::external_body]
fn syn_error_message(error: &SynError) -> (s: String)
    ensures
        s@ == syn_error_text(*error),
{
    error.to_string()
}

impl Error {
    /// The library's error for a `syn::Error` whose span is `span` (as
    /// `syn::Error::span` gives it): that span, and the error's `Display`
    /// text, which is the message of its first error.
    pub fn from_syn(error: &SynError, span: Span) -> (e: Error)
        ensures
            e.span == span,
            e.message@ == syn_error_text(*error),
    {
        Error { span, message: syn_error_message(error) }
    }
}

/// Whether location `a` comes strictly after location `b` (by line, then by
/// column).
pub open spec fn is_after(a: LineColumn, b: LineColumn) -> bool {
    a.line > b.line || (a.line == b.line && a.column > b.column)
}

/// Locations are ordered by line first: a location on a later line is
/// after one on an earlier line whatever their columns, one on an earlier
/// line never is, and on the same line the later column is after.
pub proof fn law_is_after_by_line_then_column(a: LineColumn, b: LineColumn)
    ensures
        a.line > b.line ==> is_after(a, b),
        a.line < b.line ==> !is_after(a, b),
        a.line == b.line ==> (is_after(a, b) <==> a.column > b.column),
{
}

/// `is_after` is a strict total order on locations: no location is after
/// itself, of two different locations exactly one is after the other, and
/// being after is transitive.
pub proof fn law_is_after_strict_total_order(a: LineColumn, b: LineColumn, c: LineColumn)
    ensures
        !is_after(a, a),
        is_after(a, b) ==> !is_after(b, a),
        a != b ==> is_after(a, b) || is_after(b, a),
        is_after(a, b) && is_after(b, c) ==> is_after(a, c),
{
}

/// Decides `is_after`.
pub fn location_is_after(a: LineColumn, b: LineColumn) -> (r: bool)
    ensures
        r == is_after(a, b),
{
    a.line > b.line || (a.line == b.line && a.column > b.column)
}

/// Of two errors whose spans end at `acc_end` and `error_end`, the one that
/// got farther: `acc` only when it ends strictly after `error`, so that on a
/// tie the newer error wins.
pub fn farther<E>(acc: E, acc_end: LineColumn, error: E, error_end: LineColumn) -> (r: E)
    ensures
        r == (if is_after(acc_end, error_end) {
            acc
        } else {
            error
        }),
{
    if location_is_after(acc_end, error_end) {
        acc
    } else {
        error
    }
}

/// Parses one alternative of a production with `parser` on a fork of
/// `input`. On success `input` moves past what was parsed and the value is
/// returned; on failure `input` stays, and the error returned is the
/// parser's own when there is no accumulated error, and otherwise the one of
/// `error_acc` and the parser's error that got farther (see `farther`), as
/// `error_end` locates the ends of their spans.
pub fn try_parse_variant<'a, T, F, G>(
    input: ParseStream<'a>,
    error_acc: Option<SynError>,
    parser: F,
    error_end: G,
) -> (r: syn::Result<T>) where
    F: FnOnce(ParseStream<'_>) -> syn::Result<T>,
    G: Fn(&SynError) -> LineColumn,

    requires
        forall|stream: ParseStream<'_>| parser.requires((stream,)),
        forall|error: &SynError| error_end.requires((error,)),
    ensures
        exists|stream: ParseStream<'_>, outcome: syn::Result<T>|
            #![trigger parser.ensures((stream,), outcome)]
            {
                &&& parser.ensures((stream,), outcome)
                &&& outcome matches Ok(value) ==> r == Ok::<T, SynError>(value)
                &&& outcome matches Err(e) ==> {
                    &&& r is Err
                    &&& error_acc is None ==> r->Err_0 == e
                    &&& error_acc matches Some(acc) ==> exists|
                        acc_end: LineColumn,
                        e_end: LineColumn,
                    |
                        #![trigger error_end.ensures((&acc,), acc_end), error_end.ensures((&e,), e_end)]
                        {
                            &&& error_end.ensures((&acc,), acc_end)
                            &&& error_end.ensures((&e,), e_end)
                            &&& r->Err_0 == (if is_after(acc_end, e_end) {
                                acc
                            } else {
                                e
                            })
                        }
                }
            },
{
    let speculation = begin(input);
    let fork = speculation.fork();
    let ghost stream: ParseStream<'_> = fork;
    let outcome = parser(fork);
    let ghost result = outcome;
    proof {
        assert(parser.ensures((stream,), result));
    }
    match outcome {
        Ok(value) => {
            commit(speculation);
            let r = Ok(value);
            assert(result matches Ok(v) ==> r == Ok::<T, SynError>(v));
            r
        },
        Err(error) => {
            let ghost e = error;
            assert(result == Err::<T, SynError>(e));
            match error_acc {
                Some(acc) => {
                    let acc_end = error_end(&acc);
                    let e_end = error_end(&error);
                    let ghost a = acc;
                    let r: syn::Result<T> = Err(farther(acc, acc_end, error, e_end));
                    assert(error_end.ensures((&a,), acc_end) && error_end.ensures((&e,), e_end));
                    r
                },
                None => Err(error),
            }
        },
    }
}

} // verus!
