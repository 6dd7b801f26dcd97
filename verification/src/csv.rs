//! The grammar of the comma-separated tabular format, built from the
//! combinator library and the primitive parsers.
//!
//! Grammar (derived from the usual tabular-format conventions):
//!
//! ```text
//! CSVDATA     = RECORD (LINEBREAK RECORD)* [LINEBREAK]
//! RECORD      = FIELD (COMMA FIELD)*
//! FIELD       = ESCAPED | NON-ESCAPED
//! ESCAPED     = DQUOTE (TEXT | COMMA | CR | LF | DDQUOTE)* DQUOTE
//! NON-ESCAPED = TEXT*
//! LINEBREAK   = LF | CRLF
//! ```
//!
//! where `TEXT` is any character that is none of `,`, `"`, `\r`, `\n`,
//! and the doubled quote `""` inside an escaped field decodes to a
//! literal `"`.

use vstd::prelude::*;
use vstd::string::StrSliceExecFns;
use crate::base::Error;
use crate::base::ErrorCode;
use crate::base::PResult;
use crate::base::Parsed;
use crate::base::Parser;
use crate::base::ParserCompose;
use crate::base::Reason;
use crate::base::SpecCode;
use crate::base::SpecReason;
use crate::base::bind_obeys;
use crate::base::lemma_skip_is_suffix;
use crate::base::lemma_suffix_refl;
use crate::base::lemma_suffix_trans;
use crate::base::map_obeys;
use crate::base::parsed_in_suffix;
use crate::base::parsed_matches;
use crate::base::pred_obeys;
use crate::base::Fallback;
use crate::base::Mapped;
use crate::base::Predicate;
use crate::base::AndThenMap;
use crate::chars::AnyChar;
use crate::chars::CharParser;
use crate::chars::LineBreak;
use crate::chars::any_char;
use crate::chars::char;
use crate::chars::line_break;
use crate::chars::spec_char;
use crate::chars::spec_line_break;
use crate::combinators::LeftOfPair;
use crate::combinators::RightOfPair;
use crate::combinators::ZeroOrMore;
use crate::combinators::left_from_pair;
use crate::combinators::right_from_pair;
use crate::combinators::spec_star;
use crate::combinators::zero_or_more;

verus! {

/// Single record (line) of the tabular format: an ordered sequence of
/// decoded field strings.
pub type CsvRecord = Vec<String>;

/// The characters that end a non-escaped field: the delimiters of the
/// format itself.
pub open spec fn spec_is_special(c: char) -> bool {
    c == ',' || c == '"' || c == '\r' || c == '\n'
}

/// Outcome of consuming one non-special character: any character that
/// is not a delimiter of the format.
pub open spec fn spec_text_char(input: Seq<char>) -> Parsed<char> {
    if input.len() == 0 {
        Parsed::Missing { at: input, code: SpecCode::Char('\0') }
    } else if !spec_is_special(input[0]) {
        Parsed::Found { rest: input.skip(1), output: input[0] }
    } else {
        Parsed::Missing { at: input, code: SpecCode::Predicate }
    }
}

/// Outcome of a non-escaped field: the longest prefix of non-special
/// characters.  This always succeeds; zero characters give the empty
/// field.  (The branch reporting `SystemFailure` mirrors the
/// repetition combinator: a repetition step that consumed nothing
/// could never end; a text character always consumes one, so the
/// branch is never taken.)
pub open spec fn spec_non_escaped(input: Seq<char>) -> Parsed<Seq<char>>
    decreases input.len(),
{
    match spec_text_char(input) {
        Parsed::Missing { at, code } => if code.is_failure() {
            Parsed::Missing { at, code }
        } else {
            Parsed::Found { rest: at, output: Seq::empty() }
        },
        Parsed::Found { rest, output } => if rest.len() < input.len() {
            match spec_non_escaped(rest) {
                Parsed::Found { rest: rest2, output: cs } => Parsed::Found {
                    rest: rest2,
                    output: seq![output] + cs,
                },
                Parsed::Missing { at, code } => Parsed::Missing { at, code },
            }
        } else {
            Parsed::Missing { at: input, code: SpecCode::Failure(SpecReason::SystemFailure) }
        },
    }
}

/// Outcome of one item inside an escaped field: any character except
/// `"`, or the doubled quote `""` decoding to a literal `"`.  The
/// error codes follow the composition that recognizes it: a character
/// parser falling back to a doubled-quote pair.
pub open spec fn spec_quoted_item(input: Seq<char>) -> Parsed<char> {
    if input.len() == 0 {
        Parsed::Missing { at: input, code: SpecCode::Char('\0') }
    } else if input[0] != '"' {
        Parsed::Found { rest: input.skip(1), output: input[0] }
    } else if input.len() >= 2 && input[1] == '"' {
        Parsed::Found { rest: input.skip(2), output: '"' }
    } else if input.len() == 1 {
        Parsed::Missing { at: input, code: SpecCode::Char('\0') }
    } else {
        Parsed::Missing { at: input, code: SpecCode::Char('"') }
    }
}

/// Outcome of the repeated items inside an escaped field.  Always
/// succeeds, stopping at the end of input or at a quote that is not
/// doubled.
pub open spec fn spec_quoted_items(input: Seq<char>) -> Parsed<Seq<char>>
    decreases input.len(),
{
    match spec_quoted_item(input) {
        Parsed::Missing { at, code } => if code.is_failure() {
            Parsed::Missing { at, code }
        } else {
            Parsed::Found { rest: at, output: Seq::empty() }
        },
        Parsed::Found { rest, output } => if rest.len() < input.len() {
            match spec_quoted_items(rest) {
                Parsed::Found { rest: rest2, output: cs } => Parsed::Found {
                    rest: rest2,
                    output: seq![output] + cs,
                },
                Parsed::Missing { at, code } => Parsed::Missing { at, code },
            }
        } else {
            Parsed::Missing { at: input, code: SpecCode::Failure(SpecReason::SystemFailure) }
        },
    }
}

/// Outcome of an escaped field: an opening quote, the decoded items,
/// and a closing quote.  Every error is recoverable and positioned at
/// the original input, so a fallback to the non-escaped form is the
/// normal path for unquoted fields.
pub open spec fn spec_escaped(input: Seq<char>) -> Parsed<Seq<char>> {
    match spec_char('"', input) {
        Parsed::Missing { at, code } => Parsed::Missing { at, code },
        Parsed::Found { rest: rest0, output: _ } => match spec_quoted_items(rest0) {
            Parsed::Missing { at: _, code } => Parsed::Missing { at: input, code },
            Parsed::Found { rest: rest1, output: cs } => match spec_char('"', rest1) {
                Parsed::Missing { at: _, code } => Parsed::Missing { at: input, code },
                Parsed::Found { rest: rest2, output: _ } => Parsed::Found {
                    rest: rest2,
                    output: cs,
                },
            },
        },
    }
}

/// Outcome of a field: an escaped field, falling back to a non-escaped
/// field on a recoverable failure.  A field always succeeds; on input
/// that starts with no quote the fallback consumes the longest
/// non-special prefix, possibly empty.
pub open spec fn spec_field(input: Seq<char>) -> Parsed<Seq<char>> {
    match spec_escaped(input) {
        Parsed::Found { rest, output } => Parsed::Found { rest, output },
        Parsed::Missing { at, code } => if code.is_failure() {
            Parsed::Missing { at, code }
        } else {
            spec_non_escaped(at)
        },
    }
}

/// Outcome of one repeated element of a record: a comma followed by a
/// field, keeping the field.  An error of the field part is re-wrapped
/// at the element's start.
pub open spec fn spec_tail_field(input: Seq<char>) -> Parsed<Seq<char>> {
    match spec_char(',', input) {
        Parsed::Missing { at, code } => Parsed::Missing { at, code },
        Parsed::Found { rest, output: _ } => match spec_field(rest) {
            Parsed::Missing { at: _, code } => Parsed::Missing { at: input, code },
            Parsed::Found { rest: rest2, output } => Parsed::Found { rest: rest2, output },
        },
    }
}

/// Outcome of the repeated `comma field` elements after a record's
/// first field.
pub open spec fn spec_tail_fields(input: Seq<char>) -> Parsed<Seq<Seq<char>>>
    decreases input.len(),
{
    match spec_tail_field(input) {
        Parsed::Missing { at, code } => if code.is_failure() {
            Parsed::Missing { at, code }
        } else {
            Parsed::Found { rest: at, output: Seq::empty() }
        },
        Parsed::Found { rest, output } => if rest.len() < input.len() {
            match spec_tail_fields(rest) {
                Parsed::Found { rest: rest2, output: fs } => Parsed::Found {
                    rest: rest2,
                    output: seq![output] + fs,
                },
                Parsed::Missing { at, code } => Parsed::Missing { at, code },
            }
        } else {
            Parsed::Missing { at: input, code: SpecCode::Failure(SpecReason::SystemFailure) }
        },
    }
}

/// Outcome of a record: at least one field, then zero or more
/// `comma field` elements.  Empty input is rejected with `NoInput`:
/// the grammar would allow a record of one empty field there, but this
/// implementation deliberately does not.
pub open spec fn spec_record(input: Seq<char>) -> Parsed<Seq<Seq<char>>> {
    if input.len() == 0 {
        Parsed::Missing { at: input, code: SpecCode::NoInput }
    } else {
        match spec_field(input) {
            Parsed::Missing { at, code } => Parsed::Missing { at, code },
            Parsed::Found { rest, output: first } => match spec_tail_fields(rest) {
                Parsed::Missing { at, code } => Parsed::Missing { at, code },
                Parsed::Found { rest: rest2, output: others } => Parsed::Found {
                    rest: rest2,
                    output: seq![first] + others,
                },
            },
        }
    }
}

/// Outcome of a record accepted only if its field count equals `n`;
/// any other field count is a hard `InvalidInput` failure positioned
/// at the record's start.
pub open spec fn spec_arity_record(n: int, input: Seq<char>) -> Parsed<Seq<Seq<char>>> {
    match spec_record(input) {
        Parsed::Missing { at, code } => Parsed::Missing { at, code },
        Parsed::Found { rest, output } => if output.len() == n {
            Parsed::Found { rest, output }
        } else {
            Parsed::Missing {
                at: input,
                code: SpecCode::Failure(SpecReason::InvalidInput { expected: "unknown"@ }),
            }
        },
    }
}

/// Outcome of one repeated element of a document: a line break
/// followed by a record of exactly `n` fields, keeping the record.
pub open spec fn spec_doc_item(n: int, input: Seq<char>) -> Parsed<Seq<Seq<char>>> {
    match spec_line_break(input) {
        Parsed::Missing { at, code } => Parsed::Missing { at, code },
        Parsed::Found { rest, output: _ } => match spec_arity_record(n, rest) {
            Parsed::Missing { at: _, code } => Parsed::Missing { at: input, code },
            Parsed::Found { rest: rest2, output } => Parsed::Found { rest: rest2, output },
        },
    }
}

/// Outcome of the repeated `line_break record` elements following a
/// document's first record, each record required to have `n` fields.
pub open spec fn spec_doc_tail(n: int, input: Seq<char>) -> Parsed<Seq<Seq<Seq<char>>>>
    decreases input.len(),
{
    match spec_doc_item(n, input) {
        Parsed::Missing { at, code } => if code.is_failure() {
            Parsed::Missing { at, code }
        } else {
            Parsed::Found { rest: at, output: Seq::empty() }
        },
        Parsed::Found { rest, output } => if rest.len() < input.len() {
            match spec_doc_tail(n, rest) {
                Parsed::Found { rest: rest2, output: rs } => Parsed::Found {
                    rest: rest2,
                    output: seq![output] + rs,
                },
                Parsed::Missing { at, code } => Parsed::Missing { at, code },
            }
        } else {
            Parsed::Missing { at: input, code: SpecCode::Failure(SpecReason::SystemFailure) }
        },
    }
}

/// Outcome of the rest of a document once its first record is known:
/// the following records must all have the first record's field
/// count, and the first record is prepended to them.
pub open spec fn spec_doc_with_first(first: Seq<Seq<char>>, input: Seq<char>) -> Parsed<
    Seq<Seq<Seq<char>>>,
> {
    match spec_doc_tail(first.len() as int, input) {
        Parsed::Missing { at, code } => Parsed::Missing { at, code },
        Parsed::Found { rest, output: others } => Parsed::Found {
            rest,
            output: seq![first] + others,
        },
    }
}

/// Outcome of a whole document before trailing-input handling: the
/// first record fixes the field count every further record must have.
pub open spec fn spec_document(input: Seq<char>) -> Parsed<Seq<Seq<Seq<char>>>> {
    match spec_record(input) {
        Parsed::Missing { at, code } => Parsed::Missing { at, code },
        Parsed::Found { rest, output: first } => spec_doc_with_first(first, rest),
    }
}

/// An `InvalidInput` failure of the document repetition gets its
/// descriptive reason; every other code is kept unchanged.
pub open spec fn spec_rewrite_invalid(code: SpecCode) -> SpecCode {
    match code {
        SpecCode::Failure(SpecReason::InvalidInput { expected: _ }) => SpecCode::Failure(
            SpecReason::InvalidInput { expected: "more fields in this record"@ },
        ),
        _ => code,
    }
}

/// Outcome of parsing a whole document: the parsed records, with an
/// optional single trailing line break permitted.  Any other non-empty
/// remainder is a hard failure, and a field-count mismatch carries its
/// descriptive reason.
pub open spec fn spec_parse_string(input: Seq<char>) -> Parsed<Seq<Seq<Seq<char>>>> {
    match spec_document(input) {
        Parsed::Missing { at, code } => Parsed::Missing { at, code: spec_rewrite_invalid(code) },
        Parsed::Found { rest, output: records } => if rest.len() == 0 {
            Parsed::Found { rest, output: records }
        } else if rest == seq!['\n'] || rest == seq!['\r', '\n'] {
            Parsed::Found { rest: Seq::empty(), output: records }
        } else {
            Parsed::Missing {
                at: rest,
                code: SpecCode::Failure(
                    SpecReason::InvalidInput { expected: "comma or a line break"@ },
                ),
            }
        },
    }
}

/// A non-escaped field stays within its input.
proof fn lemma_non_escaped_suffix(input: Seq<char>)
    ensures
        parsed_in_suffix(input, spec_non_escaped(input)),
    decreases input.len(),
{
    lemma_suffix_refl(input);
    match spec_text_char(input) {
        Parsed::Missing { .. } => {},
        Parsed::Found { rest, output: _ } => {
            lemma_skip_is_suffix(input, 1);
            if rest.len() < input.len() {
                lemma_non_escaped_suffix(rest);
                match spec_non_escaped(rest) {
                    Parsed::Found { rest: rest2, output: _ } => {
                        lemma_suffix_trans(input, rest, rest2);
                    },
                    Parsed::Missing { at, code: _ } => {
                        lemma_suffix_trans(input, rest, at);
                    },
                }
            }
        },
    }
}

/// The items of an escaped field stay within their input.
proof fn lemma_quoted_items_suffix(input: Seq<char>)
    ensures
        parsed_in_suffix(input, spec_quoted_items(input)),
    decreases input.len(),
{
    lemma_suffix_refl(input);
    match spec_quoted_item(input) {
        Parsed::Missing { .. } => {},
        Parsed::Found { rest, output: _ } => {
            if input.len() >= 1 {
                lemma_skip_is_suffix(input, 1);
            }
            if input.len() >= 2 {
                lemma_skip_is_suffix(input, 2);
            }
            if rest.len() < input.len() {
                lemma_quoted_items_suffix(rest);
                match spec_quoted_items(rest) {
                    Parsed::Found { rest: rest2, output: _ } => {
                        lemma_suffix_trans(input, rest, rest2);
                    },
                    Parsed::Missing { at, code: _ } => {
                        lemma_suffix_trans(input, rest, at);
                    },
                }
            }
        },
    }
}

/// An escaped field stays within its input.
proof fn lemma_escaped_suffix(input: Seq<char>)
    ensures
        parsed_in_suffix(input, spec_escaped(input)),
{
    lemma_suffix_refl(input);
    match spec_char('"', input) {
        Parsed::Missing { .. } => {},
        Parsed::Found { rest: rest0, output: _ } => {
            lemma_skip_is_suffix(input, 1);
            lemma_quoted_items_suffix(rest0);
            match spec_quoted_items(rest0) {
                Parsed::Missing { .. } => {},
                Parsed::Found { rest: rest1, output: _ } => {
                    lemma_suffix_trans(input, rest0, rest1);
                    match spec_char('"', rest1) {
                        Parsed::Missing { .. } => {},
                        Parsed::Found { rest: rest2, output: _ } => {
                            lemma_skip_is_suffix(rest1, 1);
                            lemma_suffix_trans(input, rest1, rest2);
                        },
                    }
                },
            }
        },
    }
}

/// A field stays within its input.
proof fn lemma_field_suffix(input: Seq<char>)
    ensures
        parsed_in_suffix(input, spec_field(input)),
{
    lemma_escaped_suffix(input);
    match spec_escaped(input) {
        Parsed::Found { .. } => {},
        Parsed::Missing { at, code } => {
            if !code.is_failure() {
                lemma_non_escaped_suffix(at);
                match spec_non_escaped(at) {
                    Parsed::Found { rest, output: _ } => {
                        lemma_suffix_trans(input, at, rest);
                    },
                    Parsed::Missing { at: at2, code: _ } => {
                        lemma_suffix_trans(input, at, at2);
                    },
                }
            }
        },
    }
}

/// A `comma field` element stays within its input.
proof fn lemma_tail_field_suffix(input: Seq<char>)
    ensures
        parsed_in_suffix(input, spec_tail_field(input)),
{
    lemma_suffix_refl(input);
    match spec_char(',', input) {
        Parsed::Missing { .. } => {},
        Parsed::Found { rest, output: _ } => {
            lemma_skip_is_suffix(input, 1);
            lemma_field_suffix(rest);
            match spec_field(rest) {
                Parsed::Missing { .. } => {},
                Parsed::Found { rest: rest2, output: _ } => {
                    lemma_suffix_trans(input, rest, rest2);
                },
            }
        },
    }
}

/// The repeated `comma field` elements stay within their input.
proof fn lemma_tail_fields_suffix(input: Seq<char>)
    ensures
        parsed_in_suffix(input, spec_tail_fields(input)),
    decreases input.len(),
{
    lemma_suffix_refl(input);
    lemma_tail_field_suffix(input);
    match spec_tail_field(input) {
        Parsed::Missing { .. } => {},
        Parsed::Found { rest, output: _ } => {
            if rest.len() < input.len() {
                lemma_tail_fields_suffix(rest);
                match spec_tail_fields(rest) {
                    Parsed::Found { rest: rest2, output: _ } => {
                        lemma_suffix_trans(input, rest, rest2);
                    },
                    Parsed::Missing { at, code: _ } => {
                        lemma_suffix_trans(input, rest, at);
                    },
                }
            }
        },
    }
}

/// A record stays within its input.
proof fn lemma_record_suffix(input: Seq<char>)
    ensures
        parsed_in_suffix(input, spec_record(input)),
{
    lemma_suffix_refl(input);
    if input.len() > 0 {
        lemma_field_suffix(input);
        match spec_field(input) {
            Parsed::Missing { .. } => {},
            Parsed::Found { rest, output: _ } => {
                lemma_tail_fields_suffix(rest);
                match spec_tail_fields(rest) {
                    Parsed::Found { rest: rest2, output: _ } => {
                        lemma_suffix_trans(input, rest, rest2);
                    },
                    Parsed::Missing { at, code: _ } => {
                        lemma_suffix_trans(input, rest, at);
                    },
                }
            },
        }
    }
}

/// A `line_break record` element stays within its input.
proof fn lemma_doc_item_suffix(n: int, input: Seq<char>)
    ensures
        parsed_in_suffix(input, spec_doc_item(n, input)),
{
    lemma_suffix_refl(input);
    match spec_line_break(input) {
        Parsed::Missing { .. } => {},
        Parsed::Found { rest, output: _ } => {
            if input.len() >= 1 {
                lemma_skip_is_suffix(input, 1);
            }
            if input.len() >= 2 {
                lemma_skip_is_suffix(input, 2);
            }
            lemma_record_suffix(rest);
            match spec_arity_record(n, rest) {
                Parsed::Missing { .. } => {},
                Parsed::Found { rest: rest2, output: _ } => {
                    lemma_suffix_trans(input, rest, rest2);
                },
            }
        },
    }
}

/// The repeated `line_break record` elements stay within their input.
proof fn lemma_doc_tail_suffix(n: int, input: Seq<char>)
    ensures
        parsed_in_suffix(input, spec_doc_tail(n, input)),
    decreases input.len(),
{
    lemma_suffix_refl(input);
    lemma_doc_item_suffix(n, input);
    match spec_doc_item(n, input) {
        Parsed::Missing { .. } => {},
        Parsed::Found { rest, output: _ } => {
            if rest.len() < input.len() {
                lemma_doc_tail_suffix(n, rest);
                match spec_doc_tail(n, rest) {
                    Parsed::Found { rest: rest2, output: _ } => {
                        lemma_suffix_trans(input, rest, rest2);
                    },
                    Parsed::Missing { at, code: _ } => {
                        lemma_suffix_trans(input, rest, at);
                    },
                }
            }
        },
    }
}

/// The rest of a document after its first record stays within its
/// input.
proof fn lemma_doc_with_first_suffix(first: Seq<Seq<char>>, input: Seq<char>)
    ensures
        parsed_in_suffix(input, spec_doc_with_first(first, input)),
{
    lemma_doc_tail_suffix(first.len() as int, input);
}

/// The repetition of any parser behaving like `spec_text_char` is
/// exactly a non-escaped field.
proof fn lemma_star_text_chars<P: Parser<char>>(p: P, input: Seq<char>)
    requires
        forall|s: Seq<char>| #[trigger] p.spec_parse(s) == spec_text_char(s),
    ensures
        spec_star(p, input) == spec_non_escaped(input),
    decreases input.len(),
{
    match p.spec_parse(input) {
        Parsed::Missing { .. } => {},
        Parsed::Found { rest, output: _ } => {
            if rest.len() < input.len() {
                lemma_star_text_chars(p, rest);
            }
        },
    }
}

/// The repetition of any parser behaving like `spec_quoted_item` is
/// exactly the items of an escaped field.
proof fn lemma_star_quoted_items<P: Parser<char>>(p: P, input: Seq<char>)
    requires
        forall|s: Seq<char>| #[trigger] p.spec_parse(s) == spec_quoted_item(s),
    ensures
        spec_star(p, input) == spec_quoted_items(input),
    decreases input.len(),
{
    match p.spec_parse(input) {
        Parsed::Missing { .. } => {},
        Parsed::Found { rest, output: _ } => {
            if rest.len() < input.len() {
                lemma_star_quoted_items(p, rest);
            }
        },
    }
}

/// The repetition of any parser behaving like `spec_tail_field` is
/// exactly the repeated `comma field` elements of a record.
proof fn lemma_star_tail_fields<P: Parser<String>>(p: P, input: Seq<char>)
    requires
        forall|s: Seq<char>| #[trigger] p.spec_parse(s) == spec_tail_field(s),
    ensures
        spec_star(p, input) == spec_tail_fields(input),
    decreases input.len(),
{
    match p.spec_parse(input) {
        Parsed::Missing { .. } => {},
        Parsed::Found { rest, output: _ } => {
            if rest.len() < input.len() {
                lemma_star_tail_fields(p, rest);
            }
        },
    }
}

/// The repetition of any parser behaving like `spec_doc_item` is
/// exactly the repeated `line_break record` elements of a document.
proof fn lemma_star_doc_items<P: Parser<CsvRecord>>(p: P, n: int, input: Seq<char>)
    requires
        forall|s: Seq<char>| #[trigger] p.spec_parse(s) == spec_doc_item(n, s),
    ensures
        spec_star(p, input) == spec_doc_tail(n, input),
    decreases input.len(),
{
    match p.spec_parse(input) {
        Parsed::Missing { .. } => {},
        Parsed::Found { rest, output: _ } => {
            if rest.len() < input.len() {
                lemma_star_doc_items(p, n, rest);
            }
        },
    }
}

/// The composed form of a non-escaped field (a repeated non-special
/// character, collected into a string) is well-formed and behaves
/// exactly as `spec_non_escaped`.
proof fn lemma_non_escaped_composed<F: Fn(&char) -> bool, G: Fn(Vec<char>) -> String>(
    p: Mapped<ZeroOrMore<Predicate<AnyChar, F, char>>, G, Vec<char>, String>,
    input: Seq<char>,
)
    requires
        p.parser.parser.assume_invalid == false,
        pred_obeys::<char, F>(p.parser.parser.predicate, p.parser.parser.spec_pred@),
        forall|c: char| #[trigger] (p.parser.parser.spec_pred@)(c) == !spec_is_special(c),
        map_obeys::<Vec<char>, String, G>(p.map_fn, p.spec_map@),
        forall|v: Seq<char>| #[trigger] (p.spec_map@)(v) == v,
    ensures
        p.wf(),
        p.spec_parse(input) == spec_non_escaped(input),
{
    let inner = p.parser.parser;
    assert forall|s: Seq<char>| #[trigger] inner.spec_parse(s) == spec_text_char(s) by {}
    lemma_star_text_chars(inner, input);
}

/// The composed form of an escaped field (opening quote, repeated
/// plain-or-doubled-quote items, closing quote, collected into a
/// string) is well-formed and behaves exactly as `spec_escaped`.
proof fn lemma_escaped_composed<F: Fn(&char) -> bool, G: Fn(Vec<char>) -> String>(
    p: Mapped<
        RightOfPair<
            CharParser,
            LeftOfPair<
                ZeroOrMore<
                    Fallback<Predicate<AnyChar, F, char>, LeftOfPair<CharParser, CharParser, char>>,
                >,
                CharParser,
                char,
            >,
            char,
        >,
        G,
        Vec<char>,
        String,
    >,
    input: Seq<char>,
)
    requires
        p.parser.left_parser == (CharParser { ch: '"' }),
        p.parser.right_parser.right_parser == (CharParser { ch: '"' }),
        p.parser.right_parser.left_parser.parser.fallback.left_parser == (CharParser { ch: '"' }),
        p.parser.right_parser.left_parser.parser.fallback.right_parser == (CharParser { ch: '"' }),
        p.parser.right_parser.left_parser.parser.primary.assume_invalid == false,
        pred_obeys::<char, F>(
            p.parser.right_parser.left_parser.parser.primary.predicate,
            p.parser.right_parser.left_parser.parser.primary.spec_pred@,
        ),
        forall|c: char| #[trigger] (p.parser.right_parser.left_parser.parser.primary.spec_pred@)(
            c,
        ) == (c != '"'),
        map_obeys::<Vec<char>, String, G>(p.map_fn, p.spec_map@),
        forall|v: Seq<char>| #[trigger] (p.spec_map@)(v) == v,
    ensures
        p.wf(),
        p.spec_parse(input) == spec_escaped(input),
{
    let item = p.parser.right_parser.left_parser.parser;
    assert forall|s: Seq<char>| #[trigger] item.spec_parse(s) == spec_quoted_item(s) by {
        if s.len() >= 2 && s[0] == '"' && s[1] == '"' {
            assert(s.skip(1)[0] == s[1]);
            assert(s.skip(1).skip(1) =~= s.skip(2));
        }
    }
    match spec_char('"', input) {
        Parsed::Found { rest: rest0, output: _ } => {
            lemma_star_quoted_items(item, rest0);
        },
        Parsed::Missing { .. } => {},
    }
}

/// The composed form of the document repetition (a line break, then a
/// record accepted only with the first record's field count) is
/// well-formed and behaves exactly as `spec_doc_tail`.
proof fn lemma_doc_tail_composed<F: Fn(&CsvRecord) -> bool>(
    p: ZeroOrMore<RightOfPair<LineBreak, Predicate<Record, F, CsvRecord>, &'static str>>,
    n: int,
    input: Seq<char>,
)
    requires
        p.parser.right_parser.assume_invalid == true,
        pred_obeys::<CsvRecord, F>(
            p.parser.right_parser.predicate,
            p.parser.right_parser.spec_pred@,
        ),
        forall|rv: Seq<Seq<char>>| #[trigger] (p.parser.right_parser.spec_pred@)(rv) == (rv.len()
            == n),
    ensures
        p.wf(),
        p.spec_parse(input) == spec_doc_tail(n, input),
{
    let item = p.parser;
    assert forall|s: Seq<char>| #[trigger] item.spec_parse(s) == spec_doc_item(n, s) by {}
    lemma_star_doc_items(item, n, input);
}

/// The composed form of a document (a first record, binding the rest
/// of the document to its field count) is well-formed and behaves
/// exactly as `spec_document`.
proof fn lemma_document_composed<F: Fn(CsvRecord) -> DocTail>(
    p: AndThenMap<Record, F, CsvRecord, DocTail, Vec<CsvRecord>>,
    input: Seq<char>,
)
    requires
        forall|x: CsvRecord| #[trigger] call_requires(p.map_fn, (x,)),
        forall|x: CsvRecord, t: DocTail| #[trigger] call_ensures(p.map_fn, (x,), t) ==> t
            == (DocTail { first: x }),
        forall|v: Seq<Seq<char>>, s: Seq<char>| #[trigger] (p.spec_next@)(v, s)
            == spec_doc_with_first(v, s),
    ensures
        p.wf(),
        p.spec_parse(input) == spec_document(input),
{
    assert forall|x: CsvRecord, t: DocTail| #[trigger] call_ensures(p.map_fn, (x,), t) implies t.wf()
        && (forall|s: Seq<char>| t.spec_parse(s) == (p.spec_next@)(x.deep_view(), s)) by {
        assert(t == (DocTail { first: x }));
        assert forall|s: Seq<char>| t.spec_parse(s) == (p.spec_next@)(x.deep_view(), s) by {}
    }
    assert(bind_obeys::<CsvRecord, Vec<CsvRecord>, DocTail, F>(p.map_fn, p.spec_next@));
    assert forall|v: Seq<Seq<char>>, s: Seq<char>|
        parsed_in_suffix(s, #[trigger] (p.spec_next@)(v, s)) by {
        lemma_doc_with_first_suffix(v, s);
    }
}

/// The encoding of raw text for a quoted field: each `"` in the text
/// is doubled.
pub open spec fn spec_double_quotes(s: Seq<char>) -> Seq<char>
    decreases s.len(),
{
    if s.len() == 0 {
        Seq::empty()
    } else if s[0] == '"' {
        seq!['"', '"'] + spec_double_quotes(s.skip(1))
    } else {
        seq![s[0]] + spec_double_quotes(s.skip(1))
    }
}

/// The encoding of raw text as an escaped field: the doubled-quote
/// encoding wrapped in quotes.
pub open spec fn spec_quote_encode(s: Seq<char>) -> Seq<char> {
    seq!['"'] + spec_double_quotes(s) + seq!['"']
}

/// The items of an escaped field decode a doubled-quote encoding back
/// to the raw text, stopping exactly at the closing quote.
proof fn lemma_quoted_items_round_trip(s: Seq<char>)
    ensures
        spec_quoted_items(spec_double_quotes(s) + seq!['"']) == (Parsed::Found {
            rest: seq!['"'],
            output: s,
        }),
    decreases s.len(),
{
    let input = spec_double_quotes(s) + seq!['"'];
    if s.len() == 0 {
        assert(input =~= seq!['"']);
        assert(Seq::<char>::empty() =~= s);
    } else if s[0] == '"' {
        assert(input[0] == '"');
        assert(input[1] == '"');
        lemma_quoted_items_round_trip(s.skip(1));
        assert(input.skip(2) =~= spec_double_quotes(s.skip(1)) + seq!['"']);
        assert(seq!['"'] + s.skip(1) =~= s);
    } else {
        assert(input[0] == s[0]);
        lemma_quoted_items_round_trip(s.skip(1));
        assert(input.skip(1) =~= spec_double_quotes(s.skip(1)) + seq!['"']);
        assert(seq![s[0]] + s.skip(1) =~= s);
    }
}

/// Doubled quotes round-trip: encoding any raw text (quotes, commas
/// and line breaks included) as a quoted field and parsing it back as
/// an escaped field yields the original text and consumes the whole
/// encoding.
pub proof fn lemma_escaped_round_trip(s: Seq<char>)
    ensures
        spec_escaped(spec_quote_encode(s)) == (Parsed::Found {
            rest: Seq::<char>::empty(),
            output: s,
        }),
{
    let input = spec_quote_encode(s);
    assert(input[0] == '"');
    assert(input.skip(1) =~= spec_double_quotes(s) + seq!['"']);
    lemma_quoted_items_round_trip(s);
    assert(seq!['"'].skip(1) =~= Seq::<char>::empty());
}

/// Every element the grammar repeats reports its errors at the very
/// input the attempt started on, as pairs re-wrap an error of their
/// right side with their own original input.  The repetition of such
/// an element is therefore idempotent on its own leftover input (see
/// `lemma_star_idempotent`).
pub proof fn lemma_grammar_items_err_at_start(n: int, input: Seq<char>)
    ensures
        spec_text_char(input) matches Parsed::Missing { at, code: _ } ==> at == input,
        spec_quoted_item(input) matches Parsed::Missing { at, code: _ } ==> at == input,
        spec_tail_field(input) matches Parsed::Missing { at, code: _ } ==> at == input,
        spec_doc_item(n, input) matches Parsed::Missing { at, code: _ } ==> at == input,
{
}

/// On full success the entry point leaves no remaining input: either
/// the document ends exactly at the last record, or the one permitted
/// trailing line break is consumed as well.
pub proof fn lemma_parse_string_consumes_all(input: Seq<char>)
    ensures
        spec_parse_string(input) matches Parsed::Found { rest, output: _ } ==> rest.len() == 0,
{
}

/// Whether a raw field is plain: free of the format's delimiters, so
/// that it needs no quoting.
pub open spec fn spec_plain_field(f: Seq<char>) -> bool {
    forall|i: int| 0 <= i < f.len() ==> !spec_is_special(#[trigger] f[i])
}

/// Whether every field of a record is plain.
pub open spec fn spec_plain_record(fields: Seq<Seq<char>>) -> bool {
    forall|j: int| 0 <= j < fields.len() ==> spec_plain_field(#[trigger] fields[j])
}

/// The encoding of a record's fields after the first: each preceded
/// by a comma.
pub open spec fn spec_encode_tail_fields(fields: Seq<Seq<char>>) -> Seq<char>
    decreases fields.len(),
{
    if fields.len() == 0 {
        Seq::empty()
    } else {
        seq![','] + fields[0] + spec_encode_tail_fields(fields.skip(1))
    }
}

/// The encoding of a record: its fields joined by commas.
pub open spec fn spec_encode_record(fields: Seq<Seq<char>>) -> Seq<char> {
    if fields.len() == 0 {
        Seq::empty()
    } else {
        fields[0] + spec_encode_tail_fields(fields.skip(1))
    }
}

/// The encoding of a document's rows after the first: each preceded
/// by a line feed.
pub open spec fn spec_encode_tail(rows: Seq<Seq<Seq<char>>>) -> Seq<char>
    decreases rows.len(),
{
    if rows.len() == 0 {
        Seq::empty()
    } else {
        seq!['\n'] + spec_encode_record(rows[0]) + spec_encode_tail(rows.skip(1))
    }
}

/// The encoding of a document: its rows joined by line feeds.
pub open spec fn spec_encode_document(rows: Seq<Seq<Seq<char>>>) -> Seq<char> {
    if rows.len() == 0 {
        Seq::empty()
    } else {
        spec_encode_record(rows[0]) + spec_encode_tail(rows.skip(1))
    }
}

/// A non-escaped field consumes a plain field exactly, stopping at a
/// delimiter or at the end of input.
proof fn lemma_non_escaped_plain(f: Seq<char>, rest: Seq<char>)
    requires
        spec_plain_field(f),
        rest.len() == 0 || spec_is_special(rest[0]),
    ensures
        spec_non_escaped(f + rest) == (Parsed::Found { rest, output: f }),
    decreases f.len(),
{
    let input = f + rest;
    if f.len() == 0 {
        assert(input =~= rest);
        assert(Seq::<char>::empty() =~= f);
    } else {
        assert(input[0] == f[0]);
        assert(input.skip(1) =~= f.skip(1) + rest);
        lemma_non_escaped_plain(f.skip(1), rest);
        assert(seq![f[0]] + f.skip(1) =~= f);
    }
}

/// A field consumes a plain field exactly: the escaped form fails
/// recoverably at the very start, and the non-escaped fallback does
/// the work.
proof fn lemma_field_plain(f: Seq<char>, rest: Seq<char>)
    requires
        spec_plain_field(f),
        rest.len() == 0 || (spec_is_special(rest[0]) && rest[0] != '"'),
    ensures
        spec_field(f + rest) == (Parsed::Found { rest, output: f }),
{
    let input = f + rest;
    if f.len() == 0 {
        if rest.len() > 0 {
            assert(input[0] == rest[0]);
        }
    } else {
        assert(input[0] == f[0]);
    }
    lemma_non_escaped_plain(f, rest);
}

/// The repeated `comma field` elements consume an encoded field tail
/// exactly, stopping at a line break or at the end of input.
proof fn lemma_tail_fields_plain(fields: Seq<Seq<char>>, rest: Seq<char>)
    requires
        spec_plain_record(fields),
        rest.len() == 0 || rest[0] == '\n' || rest[0] == '\r',
    ensures
        spec_tail_fields(spec_encode_tail_fields(fields) + rest) == (Parsed::Found {
            rest,
            output: fields,
        }),
    decreases fields.len(),
{
    let input = spec_encode_tail_fields(fields) + rest;
    if fields.len() == 0 {
        assert(input =~= rest);
        assert(Seq::<Seq<char>>::empty() =~= fields);
    } else {
        let tail_enc = spec_encode_tail_fields(fields.skip(1)) + rest;
        assert(input[0] == ',');
        assert(input.skip(1) =~= fields[0] + tail_enc);
        assert(spec_plain_field(fields[0]));
        if fields.len() >= 2 {
            assert(tail_enc[0] == ',');
        }
        lemma_field_plain(fields[0], tail_enc);
        lemma_tail_fields_plain(fields.skip(1), rest);
        assert(seq![fields[0]] + fields.skip(1) =~= fields);
    }
}

/// A record consumes its comma-joined encoding exactly, provided it
/// is not the one record (a single empty field) whose encoding is the
/// empty input that a record rejects.
proof fn lemma_record_plain(fields: Seq<Seq<char>>, rest: Seq<char>)
    requires
        fields.len() >= 1,
        spec_plain_record(fields),
        !(fields.len() == 1 && fields[0].len() == 0),
        rest.len() == 0 || rest[0] == '\n' || rest[0] == '\r',
    ensures
        spec_record(spec_encode_record(fields) + rest) == (Parsed::Found {
            rest,
            output: fields,
        }),
{
    let tail_enc = spec_encode_tail_fields(fields.skip(1)) + rest;
    let input = spec_encode_record(fields) + rest;
    assert(input =~= fields[0] + tail_enc);
    if fields.len() >= 2 {
        assert(tail_enc[0] == ',');
        assert(input.len() > 0);
    } else {
        assert(tail_enc =~= rest);
        assert(input.len() > 0);
    }
    assert(spec_plain_field(fields[0]));
    lemma_field_plain(fields[0], tail_enc);
    lemma_tail_fields_plain(fields.skip(1), rest);
    assert(seq![fields[0]] + fields.skip(1) =~= fields);
}

/// The document repetition consumes the encoded remaining rows
/// exactly, each row passing the fixed field-count check.
proof fn lemma_doc_tail_plain(rows: Seq<Seq<Seq<char>>>, n: int)
    requires
        n >= 1,
        forall|i: int| 0 <= i < rows.len() ==> (#[trigger] rows[i]).len() == n,
        forall|i: int| 0 <= i < rows.len() ==> spec_plain_record(#[trigger] rows[i]),
        forall|i: int| 0 <= i < rows.len() ==> !((#[trigger] rows[i]).len() == 1 && rows[i][0].len()
            == 0),
    ensures
        spec_doc_tail(n, spec_encode_tail(rows)) == (Parsed::Found {
            rest: Seq::<char>::empty(),
            output: rows,
        }),
    decreases rows.len(),
{
    let input = spec_encode_tail(rows);
    if rows.len() == 0 {
        assert(input =~= Seq::<char>::empty());
        assert(Seq::<Seq<Seq<char>>>::empty() =~= rows);
    } else {
        let row_enc = spec_encode_record(rows[0]);
        let tail_enc = spec_encode_tail(rows.skip(1));
        assert(input[0] == '\n');
        assert(input.skip(1) =~= row_enc + tail_enc);
        if rows.len() >= 2 {
            assert(tail_enc[0] == '\n');
        } else {
            assert(tail_enc =~= Seq::<char>::empty());
        }
        lemma_record_plain(rows[0], tail_enc);
        lemma_doc_tail_plain(rows.skip(1), n);
        assert(seq![rows[0]] + rows.skip(1) =~= rows);
    }
}

/// Round trip: a document of rows with a fixed field count `n`, whose
/// fields are all plain (no delimiter characters), parses back from
/// its comma-and-line-feed encoding to exactly those rows, in order,
/// consuming the whole input.  A row of one empty field is left out:
/// its encoding is the empty line, which a record rejects by design.
pub proof fn lemma_document_round_trip(rows: Seq<Seq<Seq<char>>>, n: int)
    requires
        rows.len() >= 1,
        n >= 1,
        forall|i: int| 0 <= i < rows.len() ==> (#[trigger] rows[i]).len() == n,
        forall|i: int| 0 <= i < rows.len() ==> spec_plain_record(#[trigger] rows[i]),
        forall|i: int| 0 <= i < rows.len() ==> !((#[trigger] rows[i]).len() == 1 && rows[i][0].len()
            == 0),
    ensures
        spec_parse_string(spec_encode_document(rows)) == (Parsed::Found {
            rest: Seq::<char>::empty(),
            output: rows,
        }),
{
    let input = spec_encode_document(rows);
    let tail_enc = spec_encode_tail(rows.skip(1));
    assert(input =~= spec_encode_record(rows[0]) + tail_enc);
    if rows.len() >= 2 {
        assert(tail_enc[0] == '\n');
    } else {
        assert(tail_enc =~= Seq::<char>::empty());
    }
    lemma_record_plain(rows[0], tail_enc);
    assert(rows[0].len() == n);
    lemma_doc_tail_plain(rows.skip(1), n);
    assert(seq![rows[0]] + rows.skip(1) =~= rows);
}

/// Relies on String::push: appends a single character to the string.
#[verifier::external_body]
fn push_char(s: &mut String, c: char)
    ensures
        final(s)@ == old(s)@ + seq![c],
{
    s.push(c);
}

/// Builds an owned string from a vector of decoded characters.
fn chars_to_string(chars: &Vec<char>) -> (s: String)
    ensures
        s@ == chars.deep_view(),
{
    let mut s = String::new();
    let mut i: usize = 0;
    while i < chars.len()
        invariant
            i <= chars.len(),
            s@ == chars@.take(i as int),
        decreases chars.len() - i,
    {
        push_char(&mut s, chars[i]);
        proof {
            assert(s@ =~= chars@.take(i + 1));
        }
        i += 1;
    }
    proof {
        assert(chars@.take(chars.len() as int) =~= chars@);
        assert(chars.deep_view() =~= chars@);
    }
    s
}

/// Copies a record, field by field.
fn clone_record(rec: &CsvRecord) -> (c: CsvRecord)
    ensures
        c.deep_view() == rec.deep_view(),
{
    let mut c: CsvRecord = Vec::new();
    let mut i: usize = 0;
    while i < rec.len()
        invariant
            i <= rec.len(),
            c.deep_view() == rec.deep_view().take(i as int),
        decreases rec.len() - i,
    {
        let ghost pre = c.deep_view();
        c.push(rec[i].clone());
        proof {
            assert(c.deep_view() =~= pre + seq![rec.deep_view()[i as int]]);
            assert(c.deep_view() =~= rec.deep_view().take(i + 1));
        }
        i += 1;
    }
    proof {
        assert(rec.deep_view().take(rec.len() as int) =~= rec.deep_view());
    }
    c
}

fn comma() -> (r: CharParser)
    ensures
        r == (CharParser { ch: ',' }),
{
    char(',')
}

fn dquote() -> (r: CharParser)
    ensures
        r == (CharParser { ch: '"' }),
{
    char('"')
}

fn is_special(ch: char) -> (b: bool)
    ensures
        b == spec_is_special(ch),
{
    ch == ',' || ch == '"' || ch == '\r' || ch == '\n'
}

/// Parser for a non-escaped field: the longest prefix of non-special
/// characters, collected into an owned string.
pub struct NonEscaped {
}

impl Parser<String> for NonEscaped {
    open spec fn wf(&self) -> bool {
        true
    }

    open spec fn spec_parse(&self, input: Seq<char>) -> Parsed<Seq<char>> {
        spec_non_escaped(input)
    }

    proof fn lemma_parse_suffix(&self, input: Seq<char>) {
        lemma_non_escaped_suffix(input);
    }

    fn parse<'a>(&self, input: &'a str) -> (r: PResult<&'a str, String>) {
        let pred = |c: &char| -> (b: bool)
            ensures
                b == !spec_is_special(*c),
            { !is_special(*c) };
        let inner = any_char().iff_with(pred, Ghost(|c: char| !spec_is_special(c)));
        let collect = |cs: Vec<char>| -> (s: String)
            ensures
                s@ == cs.deep_view(),
            { chars_to_string(&cs) };
        let p = zero_or_more(inner).map_with(collect, Ghost(|v: Seq<char>| v));
        proof {
            assert(pred_obeys::<char, _>(inner.predicate, inner.spec_pred@));
            assert forall|c: char| #[trigger] (inner.spec_pred@)(c) == !spec_is_special(c) by {}
            assert(map_obeys::<Vec<char>, String, _>(p.map_fn, p.spec_map@));
            assert forall|v: Seq<char>| #[trigger] (p.spec_map@)(v) == v by {}
            lemma_non_escaped_composed(p, input@);
        }
        p.parse(input)
    }
}

/// Parser for an escaped field: an opening quote, any characters with
/// `""` decoding to a literal `"`, and a closing quote.
pub struct Escaped {
}

impl Parser<String> for Escaped {
    open spec fn wf(&self) -> bool {
        true
    }

    open spec fn spec_parse(&self, input: Seq<char>) -> Parsed<Seq<char>> {
        spec_escaped(input)
    }

    proof fn lemma_parse_suffix(&self, input: Seq<char>) {
        lemma_escaped_suffix(input);
    }

    fn parse<'a>(&self, input: &'a str) -> (r: PResult<&'a str, String>) {
        let pred = |c: &char| -> (b: bool)
            ensures
                b == (*c != '"'),
            { *c != '"' };
        let item = any_char().iff_with(pred, Ghost(|c: char| c != '"')).fallback_on(
            left_from_pair(dquote(), dquote()),
        );
        let inner = right_from_pair(dquote(), left_from_pair(zero_or_more(item), dquote()));
        let collect = |cs: Vec<char>| -> (s: String)
            ensures
                s@ == cs.deep_view(),
            { chars_to_string(&cs) };
        let p = inner.map_with(collect, Ghost(|v: Seq<char>| v));
        proof {
            assert(pred_obeys::<char, _>(
                item.primary.predicate,
                item.primary.spec_pred@,
            ));
            assert forall|c: char| #[trigger] (item.primary.spec_pred@)(c) == (c != '"') by {}
            assert(map_obeys::<Vec<char>, String, _>(p.map_fn, p.spec_map@));
            assert forall|v: Seq<char>| #[trigger] (p.spec_map@)(v) == v by {}
            lemma_escaped_composed(p, input@);
        }
        p.parse(input)
    }
}

/// Parser for a single field: an escaped field, falling back to a
/// non-escaped field.
pub struct Field {
}

impl Parser<String> for Field {
    open spec fn wf(&self) -> bool {
        true
    }

    open spec fn spec_parse(&self, input: Seq<char>) -> Parsed<Seq<char>> {
        spec_field(input)
    }

    proof fn lemma_parse_suffix(&self, input: Seq<char>) {
        lemma_field_suffix(input);
    }

    fn parse<'a>(&self, input: &'a str) -> (r: PResult<&'a str, String>) {
        let p = (Escaped {  }).fallback_on(NonEscaped {  });
        proof {
            assert(p.spec_parse(input@) == spec_field(input@));
        }
        p.parse(input)
    }
}

/// Single field parser.
pub fn field<'a>(input: &'a str) -> (r: PResult<&'a str, String>)
    ensures
        parsed_matches::<String>(spec_field(input@), r),
{
    (Field {  }).parse(input)
}

/// Parser for a single record: at least one field, then zero or more
/// `comma field` elements.  Empty input is rejected with `NoInput`.
pub struct Record {
}

impl Parser<CsvRecord> for Record {
    open spec fn wf(&self) -> bool {
        true
    }

    open spec fn spec_parse(&self, input: Seq<char>) -> Parsed<Seq<Seq<char>>> {
        spec_record(input)
    }

    proof fn lemma_parse_suffix(&self, input: Seq<char>) {
        lemma_record_suffix(input);
    }

    fn parse<'a>(&self, input: &'a str) -> (r: PResult<&'a str, CsvRecord>) {
        if input.unicode_len() > 0 {
            match (Field {  }).parse(input) {
                Err(e) => Err(e),
                Ok((next_input, first_field)) => {
                    let ghost ffv = first_field.deep_view();
                    let tail_item = right_from_pair(comma(), Field {  });
                    let star = zero_or_more(tail_item);
                    proof {
                        assert forall|s: Seq<char>|
                            tail_item.spec_parse(s) == spec_tail_field(s) by {}
                        lemma_star_tail_fields(tail_item, next_input@);
                    }
                    match star.parse(next_input) {
                        Err(e) => Err(e),
                        Ok((rem_input, mut other_fields)) => {
                            let ghost otv = other_fields.deep_view();
                            let mut fields: CsvRecord = Vec::new();
                            fields.push(first_field);
                            fields.append(&mut other_fields);
                            proof {
                                assert(fields.deep_view() =~= seq![ffv] + otv);
                            }
                            Ok((rem_input, fields))
                        },
                    }
                },
            }
        } else {
            Err(Error::new(input, ErrorCode::NoInput))
        }
    }
}

/// Single record parser.
pub fn record<'a>(input: &'a str) -> (r: PResult<&'a str, CsvRecord>)
    ensures
        parsed_matches::<CsvRecord>(spec_record(input@), r),
{
    (Record {  }).parse(input)
}

/// Parser for the rest of a document once its first record is known:
/// repeated `line_break record` elements whose records must all have
/// the first record's field count, with the first record prepended to
/// the output.
pub struct DocTail {
    pub first: CsvRecord,
}

impl Parser<Vec<CsvRecord>> for DocTail {
    open spec fn wf(&self) -> bool {
        true
    }

    open spec fn spec_parse(&self, input: Seq<char>) -> Parsed<Seq<Seq<Seq<char>>>> {
        spec_doc_with_first(self.first.deep_view(), input)
    }

    proof fn lemma_parse_suffix(&self, input: Seq<char>) {
        lemma_doc_with_first_suffix(self.first.deep_view(), input);
    }

    fn parse<'a>(&self, input: &'a str) -> (r: PResult<&'a str, Vec<CsvRecord>>) {
        let n = self.first.len();
        proof {
            assert(self.first.deep_view().len() == n);
        }
        let pred = |rec: &CsvRecord| -> (b: bool)
            ensures
                b == (rec.deep_view().len() == n),
            {
                proof {
                    assert(rec.deep_view().len() == rec@.len());
                }
                rec.len() == n
            };
        let item = right_from_pair(
            line_break(),
            (Record {  }).iff_or_invalid_with(pred, Ghost(|rv: Seq<Seq<char>>| rv.len() == n)),
        );
        let star = zero_or_more(item);
        proof {
            assert(pred_obeys::<CsvRecord, _>(
                item.right_parser.predicate,
                item.right_parser.spec_pred@,
            ));
            assert forall|rv: Seq<Seq<char>>| #[trigger] (item.right_parser.spec_pred@)(rv) == (
            rv.len() == n) by {}
            lemma_doc_tail_composed(star, n as int, input@);
        }
        match star.parse(input) {
            Err(e) => Err(e),
            Ok((rem, mut others)) => {
                let ghost otv = others.deep_view();
                let mut records: Vec<CsvRecord> = Vec::new();
                records.push(clone_record(&self.first));
                records.append(&mut others);
                proof {
                    assert(records.deep_view() =~= seq![self.first.deep_view()] + otv);
                }
                Ok((rem, records))
            },
        }
    }
}

/// Parses a whole document: the first record fixes the field count
/// every further record must have; records are separated by exactly
/// one line break, and a single trailing line break is permitted.  On
/// success the remaining input is empty; a field-count mismatch or
/// malformed trailing input is a hard failure.
pub fn parse_string<'a>(input: &'a str) -> (r: PResult<&'a str, Vec<CsvRecord>>)
    ensures
        parsed_matches::<Vec<CsvRecord>>(spec_parse_string(input@), r),
{
    let build = |first: CsvRecord| -> (t: DocTail)
        ensures
            t == (DocTail { first: first }),
        { DocTail { first } };
    let p = (Record {  }).and_then_map_with(
        build,
        Ghost(|v: Seq<Seq<char>>, s: Seq<char>| spec_doc_with_first(v, s)),
    );
    proof {
        assert(forall|x: CsvRecord| call_requires(build, (x,)));
        assert(forall|x: CsvRecord, t: DocTail|
            call_ensures(build, (x,), t) ==> t == (DocTail { first: x }));
        assert forall|v: Seq<Seq<char>>, s: Seq<char>| #[trigger] (p.spec_next@)(v, s)
            == spec_doc_with_first(v, s) by {}
        lemma_document_composed(p, input@);
    }
    match p.parse(input) {
        Err(err) => match &err.code {
            ErrorCode::Failure(Reason::InvalidInput { expected: _ }) => Err(
                Error::failure(
                    err.input,
                    Reason::InvalidInput { expected: "more fields in this record" },
                ),
            ),
            _ => Err(err),
        },
        Ok((trailing, records)) => {
            if trailing.unicode_len() > 0 {
                match line_break().parse(trailing) {
                    Ok((rem, _)) => {
                        if rem.unicode_len() == 0 {
                            proof {
                                reveal_strlit("");
                                assert(""@ =~= Seq::<char>::empty());
                                if trailing@.len() == 1 {
                                    assert(trailing@ =~= seq!['\n']);
                                } else {
                                    assert(trailing@ =~= seq!['\r', '\n']);
                                }
                            }
                            Ok(("", records))
                        } else {
                            Err(
                                Error::failure(
                                    trailing,
                                    Reason::InvalidInput { expected: "comma or a line break" },
                                ),
                            )
                        }
                    },
                    Err(_) => Err(
                        Error::failure(
                            trailing,
                            Reason::InvalidInput { expected: "comma or a line break" },
                        ),
                    ),
                }
            } else {
                Ok((trailing, records))
            }
        },
    }
}


} // verus!
