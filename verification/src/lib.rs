//! Helpers around parsing with `syn` and `proc_macro2`, verified with Verus:
//! byte and `char` offsets of line/column locations in a source text, the
//! display of spans, chained parse errors, choosing the farthest error among
//! the alternatives of a production, and grammar-agnostic formatting of token
//! streams with or without indentation.
pub mod error;
pub mod formatter;
pub mod layout;
pub mod location;
pub mod span_display;
pub mod spans;
pub mod text;
pub mod tokens;
pub mod variant;

pub use error::{chain_error, Error};
pub use formatter::{
    format_ast_node, format_ast_node_compact, format_ast_node_pretty, format_tokens,
    format_tokens_compact, format_tokens_pretty, FormatError, TokenStreamFormatter,
};
pub use location::{byte_offset, char_offset, checked_char_offset, substring_between, LineColumn};
pub use span_display::SpanDisplay;
pub use tokens::{Delimiter, Spacing, TokenTree};
pub use variant::{farther, location_is_after, try_parse_variant};
