# parsel helpers, verified

Helpers around parsing with `syn` and `proc_macro2`, written in Verus.

- `src/location.rs` — line/column locations; their `char` positions, byte
  offsets and `char` offsets in a source text; the text between two
  locations.
- `src/span_display.rs` — `line:column..line:column` rendering of two
  span locations.
- `src/error.rs` — the error model (span and message) and `chain_error`.
- `src/variant.rs` — `try_parse_variant`, keeping the error that got farthest
  (`farther` decides by the two end locations, which the caller reads).
- `src/tokens.rs` — a plain-value model of token trees and the conversion
  from `proc_macro2::TokenStream`.
- `src/formatter.rs` — `TokenStreamFormatter` and the `format_*` functions,
  their specification as text, and the laws of the layout.
- `src/layout.rs` — the layout laws token by token: tokens in order with
  only layout between them, line breaks after separators, group layout.
- `src/text.rs`, `src/spans.rs` — UTF-8 widths, white space, decimal
  rendering; the call-site span.
- `app/lib.rs` — `Display`, `fmt::Write` and `Formatter` glue, `syn::Error`
  conversions, the quoting macros, and the `SpannedExt` trait, which reads
  span locations (`Span::start`/`end`) and hands them to the verified
  functions.
