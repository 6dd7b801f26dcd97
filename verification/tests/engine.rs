//! Functional tests of the parsing engine: primitive parsers and the
//! generic combinators.

use parsecsv::base::Error;
use parsecsv::base::ErrorCode;
use parsecsv::base::Parser;
use parsecsv::base::ParserCompose;
use parsecsv::chars::any_char;
use parsecsv::chars::char;
use parsecsv::chars::line_break;
use parsecsv::combinators::left_from_pair;
use parsecsv::combinators::pair;
use parsecsv::combinators::right_from_pair;
use parsecsv::combinators::zero_or_more;

#[test]
fn simple_parser() {
    let input = "abc";
    let (input, ch) = any_char().parse(input).unwrap();
    assert_eq!(ch, 'a');
    let (input, ch) = any_char().parse(input).unwrap();
    assert_eq!(ch, 'b');
    let (input, ch) = any_char().parse(input).unwrap();
    assert_eq!(ch, 'c');
    assert_eq!(
        any_char().parse(input),
        Err(Error::new(input, ErrorCode::Char('\0')))
    );
}

#[test]
fn simple_parser_map() {
    let input = "abc";
    let mapper = any_char().map(|ch: char| ch.to_digit(16).unwrap());
    let (input, num) = mapper.parse(input).unwrap();
    assert_eq!(num, 10);
    assert_eq!(input, "bc");
    let (input, num) = mapper.parse(input).unwrap();
    assert_eq!(num, 11);
    assert_eq!(input, "c");
    let (input, num) = mapper.parse(input).unwrap();
    assert_eq!(num, 12);
    assert_eq!(
        any_char().parse(input),
        Err(Error::new(input, ErrorCode::Char('\0')))
    );
}

#[test]
fn line_break_parser() {
    assert_eq!(line_break().parse("\n"), Ok(("", "\n")));
    assert_eq!(line_break().parse("\r\n"), Ok(("", "\r\n")));
    assert_eq!(
        line_break().parse("\nsecond line\n"),
        Ok(("second line\n", "\n"))
    );
    assert_eq!(
        line_break().parse("\r\nsecond line\r\n"),
        Ok(("second line\r\n", "\r\n"))
    );
    assert_eq!(
        line_break().parse("not an end of this line\n"),
        Err(Error::new(
            "not an end of this line\n",
            ErrorCode::LineBreak
        ))
    );
    assert_eq!(
        line_break().parse("\r"),
        Err(Error::new("\r", ErrorCode::LineBreak))
    );
}

#[test]
fn empty_string() {
    let (input, ch) = any_char().parse("a").unwrap();
    assert_eq!(ch, 'a');
    assert_eq!(input.len(), 0);
    assert_eq!(input, "");
    let result = any_char().parse(input);
    assert_eq!(result, Err(Error::new("", ErrorCode::Char('\0'))));
    let result = any_char().parse(input);
    assert_eq!(result, Err(Error::new("", ErrorCode::Char('\0'))));
}

#[test]
fn pair_combinator() {
    let combi = pair(char('a'), char('b'));
    let (rem_input, (left, right)) = combi.parse("abc").unwrap();
    assert_eq!(left, 'a');
    assert_eq!(right, 'b');
    assert_eq!(rem_input, "c");
}

#[test]
fn pari_combinator_negative() {
    let combi = pair(char('a'), char('b'));
    assert_eq!(
        combi.parse("acb"),
        Err(Error::new("acb", ErrorCode::Char('b'))),
    )
}

#[test]
fn left_combinator() {
    let combi = left_from_pair(char('a'), line_break());
    let (_, left) = combi.parse("a\r\n").unwrap();
    assert_eq!(left, 'a');
}

#[test]
fn right_combinator() {
    let combi = right_from_pair(char(','), char('b'));
    let (_, right) = combi.parse(",b").unwrap();
    assert_eq!(right, 'b');
}

#[test]
fn zero_or_more_combinator_consume_part() {
    let input = "aaabc";
    let combi = zero_or_more(char('a'));
    let (input, outputs) = combi.parse(input).unwrap();
    assert_eq!(outputs.len(), 3);
    assert_eq!(input, "bc");
    for ch in outputs {
        assert_eq!(ch, 'a');
    }
    let (input, outputs) = combi.parse(input).unwrap();
    assert_eq!(outputs.len(), 0);
    assert_eq!(input, "bc");
}

#[test]
fn zero_or_more_combinator_consume_all() {
    let combi = zero_or_more(any_char());
    let (input, output) = combi.parse("aaabc").unwrap();
    assert_eq!(input, "");
    assert_eq!(output.into_iter().collect::<String>(), "aaabc");
    assert_eq!(combi.parse(input), Ok(("", Vec::new())));
}

#[test]
fn predicate_combinator() {
    let combi = any_char().iff(|ch: &char| *ch == 'a');
    let (input, ch) = combi.parse("abc").unwrap();
    assert_eq!(ch, 'a');
    assert_eq!(
        combi.parse(input),
        Err(Error::new(input, ErrorCode::Predicate))
    )
}

#[test]
fn fallback_combinator() {
    let combi = char('a').fallback_on(char('b'));
    assert_eq!(combi.parse("avec"), Ok(("vec", 'a')));
    assert_eq!(combi.parse("bvec"), Ok(("vec", 'b')));
    assert_eq!(
        combi.parse("cvec"),
        Err(Error::new("cvec", ErrorCode::Char('b')))
    );
}
