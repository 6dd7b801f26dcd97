//! Concrete instances of the library's stated properties and its
//! error cases.

use parsecsv::base::Error;
use parsecsv::base::ErrorCode;
use parsecsv::base::Parser;
use parsecsv::base::Reason;
use parsecsv::chars::any_char;
use parsecsv::chars::char;
use parsecsv::chars::line_break;
use parsecsv::combinators::zero_or_more;
use parsecsv::csv;

#[test]
fn char_consumes_exactly_one_match() {
    assert_eq!(char('x').parse("xyz"), Ok(("yz", 'x')));
    assert_eq!(char('x').parse("yz"), Err(Error::new("yz", ErrorCode::Char('x'))));
    assert_eq!(char('x').parse(""), Err(Error::new("", ErrorCode::Char('\0'))));
}

#[test]
fn zero_or_more_is_idempotent_on_leftover() {
    let combi = zero_or_more(char('7'));
    let (leftover, outputs) = combi.parse("777rest").unwrap();
    assert_eq!(outputs.len(), 3);
    assert_eq!(leftover, "rest");
    let (leftover_again, outputs_again) = combi.parse(leftover).unwrap();
    assert_eq!(outputs_again.len(), 0);
    assert_eq!(leftover_again, leftover);
}

#[test]
fn zero_or_more_reports_inner_parser_without_progress() {
    // an inner repetition succeeds without consuming anything, which
    // the outer repetition reports as an engine inconsistency
    let combi = zero_or_more(zero_or_more(char('a')));
    assert_eq!(
        combi.parse("b"),
        Err(Error::failure("b", Reason::_SystemFailure))
    );
}

#[test]
fn escaped_round_trips_doubled_quotes() {
    // "a\"b,c\n" encoded as a quoted field with each quote doubled
    let encoded = "\"a\"\"b,c\n\"";
    let (rest, field) = csv::field(encoded).unwrap();
    assert_eq!(rest, "");
    assert_eq!(field, "a\"b,c\n");

    let (rest, field) = csv::field("\"ab\"\"cd\"").unwrap();
    assert_eq!(rest, "");
    assert_eq!(field, "ab\"cd");
}

#[test]
fn document_round_trips_plain_rows() {
    let (rest, records) = csv::parse_string("x,y\nu,v").unwrap();
    assert_eq!(rest, "");
    assert_eq!(records, vec![vec!["x", "y"], vec!["u", "v"]]);

    let (rest, records) = csv::parse_string("a\nb\nc").unwrap();
    assert_eq!(rest, "");
    assert_eq!(records, vec![vec!["a"], vec!["b"], vec!["c"]]);
}

#[test]
fn arity_mismatch_is_a_hard_failure() {
    // the second record has fewer fields than the first: a hard
    // failure at the start of the second line, not a truncated result
    assert_eq!(
        csv::parse_string("a,b\nc\n"),
        Err(Error::failure(
            "\nc\n",
            Reason::InvalidInput {
                expected: "more fields in this record"
            },
        )),
    );
}

#[test]
fn document_boundaries() {
    let (rest, records) = csv::parse_string("a,b\r\n").unwrap();
    assert_eq!(rest, "");
    assert_eq!(records, vec![vec!["a", "b"]]);

    let (rest, records) = csv::parse_string("a,b").unwrap();
    assert_eq!(rest, "");
    assert_eq!(records, vec![vec!["a", "b"]]);
}

#[test]
fn malformed_trailing_input_is_a_hard_failure() {
    assert_eq!(
        csv::parse_string("a,b\r"),
        Err(Error::failure(
            "\r",
            Reason::InvalidInput {
                expected: "comma or a line break"
            },
        )),
    );
    assert_eq!(
        csv::parse_string("a,b\rx"),
        Err(Error::failure(
            "\rx",
            Reason::InvalidInput {
                expected: "comma or a line break"
            },
        )),
    );
}

#[test]
fn lone_carriage_return_is_not_a_line_break() {
    assert!(line_break().parse("\r").is_err());
    assert!(line_break().parse("\r\n").is_ok());
    assert!(line_break().parse("\n").is_ok());
}

#[test]
fn error_constructors_and_failure_flag() {
    let recoverable = Error::new("rest", ErrorCode::LineBreak);
    assert!(!recoverable.is_failure());
    let hard = Error::failure("rest", Reason::InvalidInput { expected: "something" });
    assert!(hard.is_failure());
    assert_eq!(
        hard.code,
        ErrorCode::Failure(Reason::InvalidInput { expected: "something" })
    );
}

#[test]
fn predicate_error_points_at_original_input() {
    let combi = any_char().iff(|ch: &char| *ch == 'z');
    assert_eq!(
        combi.parse("abc"),
        Err(Error::new("abc", ErrorCode::Predicate))
    );
}
