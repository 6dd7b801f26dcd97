//! Primitive parsers for character-level processing: a single expected
//! character, any character, and a line break.

use vstd::prelude::*;
use vstd::string::StrSliceExecFns;
use crate::base::ErrorCode;
use crate::base::Error;
use crate::base::PResult;
use crate::base::Parsed;
use crate::base::Parser;
use crate::base::SpecCode;
use crate::base::lemma_skip_is_suffix;
use crate::base::lemma_suffix_refl;

verus! {

/// Outcome of matching exactly one occurrence of `c` at the front of
/// the input: on a different next character the error is `Char(c)`,
/// and on empty input it is the end-of-input sentinel `Char('\0')`.
pub open spec fn spec_char(c: char, input: Seq<char>) -> Parsed<char> {
    if input.len() == 0 {
        Parsed::Missing { at: input, code: SpecCode::Char('\0') }
    } else if input[0] == c {
        Parsed::Found { rest: input.skip(1), output: c }
    } else {
        Parsed::Missing { at: input, code: SpecCode::Char(c) }
    }
}

/// Outcome of consuming exactly one character regardless of value; on
/// empty input the error is the end-of-input sentinel `Char('\0')`.
pub open spec fn spec_any_char(input: Seq<char>) -> Parsed<char> {
    if input.len() == 0 {
        Parsed::Missing { at: input, code: SpecCode::Char('\0') }
    } else {
        Parsed::Found { rest: input.skip(1), output: input[0] }
    }
}

/// Outcome of matching `"\n"` or `"\r\n"` as a single token; anything
/// else, including a lone `'\r'`, is a `LineBreak` error.
pub open spec fn spec_line_break(input: Seq<char>) -> Parsed<Seq<char>> {
    if input.len() >= 1 && input[0] == '\n' {
        Parsed::Found { rest: input.skip(1), output: seq!['\n'] }
    } else if input.len() >= 2 && input[0] == '\r' && input[1] == '\n' {
        Parsed::Found { rest: input.skip(2), output: seq!['\r', '\n'] }
    } else {
        Parsed::Missing { at: input, code: SpecCode::LineBreak }
    }
}

/// For any character `c` and input beginning with `c`, matching `c`
/// consumes exactly that one character and returns `c`; for input not
/// beginning with `c` (or empty input) it fails recoverably with
/// `Char(c)` (or the end-of-input sentinel), leaving the original
/// input untouched in the error.
pub proof fn lemma_char_behavior(c: char, input: Seq<char>)
    ensures
        input.len() > 0 && input[0] == c ==> spec_char(c, input) == (Parsed::Found {
            rest: input.skip(1),
            output: c,
        }),
        input.len() > 0 && input[0] != c ==> spec_char(c, input) == (Parsed::<char>::Missing {
            at: input,
            code: SpecCode::Char(c),
        }),
        input.len() == 0 ==> spec_char(c, input) == (Parsed::<char>::Missing {
            at: input,
            code: SpecCode::Char('\0'),
        }),
{
}

/// A parser that recognizes one given character.
pub struct CharParser {
    pub ch: char,
}

impl Parser<char> for CharParser {
    open spec fn wf(&self) -> bool {
        true
    }

    open spec fn spec_parse(&self, input: Seq<char>) -> Parsed<char> {
        spec_char(self.ch, input)
    }

    proof fn lemma_parse_suffix(&self, input: Seq<char>) {
        lemma_suffix_refl(input);
        if input.len() > 0 {
            lemma_skip_is_suffix(input, 1);
        }
    }

    fn parse<'a>(&self, input: &'a str) -> (r: PResult<&'a str, char>) {
        let n = input.unicode_len();
        if n == 0 {
            Err(Error::new(input, ErrorCode::Char('\0')))
        } else if input.get_char(0) == self.ch {
            let rest = input.substring_char(1, n);
            proof {
                assert(rest@ =~= input@.skip(1));
            }
            Ok((rest, self.ch))
        } else {
            Err(Error::new(input, ErrorCode::Char(self.ch)))
        }
    }
}

/// Parser generator for parsers that recognize a single character.
pub fn char(ch: char) -> (r: CharParser)
    ensures
        r == (CharParser { ch }),
{
    CharParser { ch }
}

/// A parser that consumes any single character.
pub struct AnyChar {
}

impl Parser<char> for AnyChar {
    open spec fn wf(&self) -> bool {
        true
    }

    open spec fn spec_parse(&self, input: Seq<char>) -> Parsed<char> {
        spec_any_char(input)
    }

    proof fn lemma_parse_suffix(&self, input: Seq<char>) {
        lemma_suffix_refl(input);
        if input.len() > 0 {
            lemma_skip_is_suffix(input, 1);
        }
    }

    fn parse<'a>(&self, input: &'a str) -> (r: PResult<&'a str, char>) {
        let n = input.unicode_len();
        if n == 0 {
            Err(Error::new(input, ErrorCode::Char('\0')))
        } else {
            let c = input.get_char(0);
            let rest = input.substring_char(1, n);
            proof {
                assert(rest@ =~= input@.skip(1));
            }
            Ok((rest, c))
        }
    }
}

/// Parser that matches any character in a string.
pub fn any_char() -> (r: AnyChar)
    ensures
        r == (AnyChar {  }),
{
    AnyChar {  }
}

/// A parser that matches a line break: LF or CRLF.
pub struct LineBreak {
}

impl Parser<&'static str> for LineBreak {
    open spec fn wf(&self) -> bool {
        true
    }

    open spec fn spec_parse(&self, input: Seq<char>) -> Parsed<Seq<char>> {
        spec_line_break(input)
    }

    proof fn lemma_parse_suffix(&self, input: Seq<char>) {
        lemma_suffix_refl(input);
        if input.len() >= 1 {
            lemma_skip_is_suffix(input, 1);
        }
        if input.len() >= 2 {
            lemma_skip_is_suffix(input, 2);
        }
    }

    fn parse<'a>(&self, input: &'a str) -> (r: PResult<&'a str, &'static str>) {
        let n = input.unicode_len();
        if n >= 1 && input.get_char(0) == '\n' {
            let rest = input.substring_char(1, n);
            proof {
                reveal_strlit("\n");
                assert(rest@ =~= input@.skip(1));
                assert("\n"@ =~= seq!['\n']);
            }
            Ok((rest, "\n"))
        } else if n >= 2 && input.get_char(0) == '\r' && input.get_char(1) == '\n' {
            let rest = input.substring_char(2, n);
            proof {
                reveal_strlit("\r\n");
                assert(rest@ =~= input@.skip(2));
                assert("\r\n"@ =~= seq!['\r', '\n']);
            }
            Ok((rest, "\r\n"))
        } else {
            Err(Error::new(input, ErrorCode::LineBreak))
        }
    }
}

/// Parser that matches a line break (newline): LF or CRLF.
pub fn line_break() -> (r: LineBreak)
    ensures
        r == (LineBreak {  }),
{
    LineBreak {  }
}

} // verus!
