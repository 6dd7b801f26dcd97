//! Generic parser combinators: sequencing into pairs, projections that
//! keep one side of a pair, and repetition.

use vstd::prelude::*;
use vstd::string::StrSliceExecFns;
use crate::base::Error;
use crate::base::PResult;
use crate::base::Parsed;
use crate::base::Parser;
use crate::base::Reason;
use crate::base::SpecCode;
use crate::base::SpecReason;
use crate::base::lemma_suffix_refl;
use crate::base::lemma_suffix_trans;
use crate::base::parsed_in_suffix;

verus! {

/// A parser that runs a left parser, then a right parser on the
/// remainder, and returns both outputs as a tuple.  An error of the
/// right parser is re-wrapped with the pair's original input, so
/// fallback combinators upstream retry the whole pair rather than
/// resuming mid-sequence.
pub struct Pair<P1, P2> {
    pub left_parser: P1,
    pub right_parser: P2,
}

impl<O1: DeepView, O2: DeepView, P1: Parser<O1>, P2: Parser<O2>> Parser<(O1, O2)> for Pair<
    P1,
    P2,
> {
    open spec fn wf(&self) -> bool {
        self.left_parser.wf() && self.right_parser.wf()
    }

    open spec fn spec_parse(&self, input: Seq<char>) -> Parsed<(O1::V, O2::V)> {
        match self.left_parser.spec_parse(input) {
            Parsed::Missing { at, code } => Parsed::Missing { at, code },
            Parsed::Found { rest: rest1, output: out1 } => match self.right_parser.spec_parse(
                rest1,
            ) {
                Parsed::Missing { at: _, code } => Parsed::Missing { at: input, code },
                Parsed::Found { rest: rest2, output: out2 } => Parsed::Found {
                    rest: rest2,
                    output: (out1, out2),
                },
            },
        }
    }

    proof fn lemma_parse_suffix(&self, input: Seq<char>) {
        lemma_suffix_refl(input);
        self.left_parser.lemma_parse_suffix(input);
        match self.left_parser.spec_parse(input) {
            Parsed::Found { rest: rest1, output: _ } => {
                self.right_parser.lemma_parse_suffix(rest1);
                match self.right_parser.spec_parse(rest1) {
                    Parsed::Found { rest: rest2, output: _ } => {
                        lemma_suffix_trans(input, rest1, rest2);
                    },
                    Parsed::Missing { .. } => {},
                }
            },
            Parsed::Missing { .. } => {},
        }
    }

    fn parse<'a>(&self, input: &'a str) -> (r: PResult<&'a str, (O1, O2)>) {
        match self.left_parser.parse(input) {
            Err(e) => Err(e),
            Ok((next_input, left)) => match self.right_parser.parse(next_input) {
                Err(e) => Err(Error::new(input, e.code)),
                Ok((rem_input, right)) => Ok((rem_input, (left, right))),
            },
        }
    }
}

/// Parser generator for parsing a pair of tokens and returning results
/// as a tuple.
pub fn pair<P1, P2>(left_parser: P1, right_parser: P2) -> (r: Pair<P1, P2>)
    ensures
        r.left_parser == left_parser,
        r.right_parser == right_parser,
{
    Pair { left_parser, right_parser }
}

/// A parser that parses a pair of tokens and keeps only the left
/// output, letting a grammar rule consume and discard a delimiter.
/// Errors behave exactly as for `Pair`.
pub struct LeftOfPair<P1, P2, O2: DeepView> {
    pub left_parser: P1,
    pub right_parser: P2,
    pub phantom: core::marker::PhantomData<O2>,
}

impl<O1: DeepView, O2: DeepView, P1: Parser<O1>, P2: Parser<O2>> Parser<O1> for LeftOfPair<
    P1,
    P2,
    O2,
> {
    open spec fn wf(&self) -> bool {
        self.left_parser.wf() && self.right_parser.wf()
    }

    open spec fn spec_parse(&self, input: Seq<char>) -> Parsed<O1::V> {
        match self.left_parser.spec_parse(input) {
            Parsed::Missing { at, code } => Parsed::Missing { at, code },
            Parsed::Found { rest: rest1, output: out1 } => match self.right_parser.spec_parse(
                rest1,
            ) {
                Parsed::Missing { at: _, code } => Parsed::Missing { at: input, code },
                Parsed::Found { rest: rest2, output: _ } => Parsed::Found {
                    rest: rest2,
                    output: out1,
                },
            },
        }
    }

    proof fn lemma_parse_suffix(&self, input: Seq<char>) {
        lemma_suffix_refl(input);
        self.left_parser.lemma_parse_suffix(input);
        match self.left_parser.spec_parse(input) {
            Parsed::Found { rest: rest1, output: _ } => {
                self.right_parser.lemma_parse_suffix(rest1);
                match self.right_parser.spec_parse(rest1) {
                    Parsed::Found { rest: rest2, output: _ } => {
                        lemma_suffix_trans(input, rest1, rest2);
                    },
                    Parsed::Missing { .. } => {},
                }
            },
            Parsed::Missing { .. } => {},
        }
    }

    fn parse<'a>(&self, input: &'a str) -> (r: PResult<&'a str, O1>) {
        match self.left_parser.parse(input) {
            Err(e) => Err(e),
            Ok((next_input, left)) => match self.right_parser.parse(next_input) {
                Err(e) => Err(Error::new(input, e.code)),
                Ok((rem_input, _)) => Ok((rem_input, left)),
            },
        }
    }
}

/// Parser generator for parsing a pair of tokens and returning only
/// the left result.
pub fn left_from_pair<O1: DeepView, O2: DeepView, P1: Parser<O1>, P2: Parser<O2>>(
    left_parser: P1,
    right_parser: P2,
) -> (r: LeftOfPair<P1, P2, O2>)
    ensures
        r.left_parser == left_parser,
        r.right_parser == right_parser,
{
    LeftOfPair { left_parser, right_parser, phantom: core::marker::PhantomData }
}

/// A parser that parses a pair of tokens and keeps only the right
/// output.  Errors behave exactly as for `Pair`.
pub struct RightOfPair<P1, P2, O1: DeepView> {
    pub left_parser: P1,
    pub right_parser: P2,
    pub phantom: core::marker::PhantomData<O1>,
}

impl<O1: DeepView, O2: DeepView, P1: Parser<O1>, P2: Parser<O2>> Parser<O2> for RightOfPair<
    P1,
    P2,
    O1,
> {
    open spec fn wf(&self) -> bool {
        self.left_parser.wf() && self.right_parser.wf()
    }

    open spec fn spec_parse(&self, input: Seq<char>) -> Parsed<O2::V> {
        match self.left_parser.spec_parse(input) {
            Parsed::Missing { at, code } => Parsed::Missing { at, code },
            Parsed::Found { rest: rest1, output: _ } => match self.right_parser.spec_parse(
                rest1,
            ) {
                Parsed::Missing { at: _, code } => Parsed::Missing { at: input, code },
                Parsed::Found { rest: rest2, output: out2 } => Parsed::Found {
                    rest: rest2,
                    output: out2,
                },
            },
        }
    }

    proof fn lemma_parse_suffix(&self, input: Seq<char>) {
        lemma_suffix_refl(input);
        self.left_parser.lemma_parse_suffix(input);
        match self.left_parser.spec_parse(input) {
            Parsed::Found { rest: rest1, output: _ } => {
                self.right_parser.lemma_parse_suffix(rest1);
                match self.right_parser.spec_parse(rest1) {
                    Parsed::Found { rest: rest2, output: _ } => {
                        lemma_suffix_trans(input, rest1, rest2);
                    },
                    Parsed::Missing { .. } => {},
                }
            },
            Parsed::Missing { .. } => {},
        }
    }

    fn parse<'a>(&self, input: &'a str) -> (r: PResult<&'a str, O2>) {
        match self.left_parser.parse(input) {
            Err(e) => Err(e),
            Ok((next_input, _)) => match self.right_parser.parse(next_input) {
                Err(e) => Err(Error::new(input, e.code)),
                Ok((rem_input, right)) => Ok((rem_input, right)),
            },
        }
    }
}

/// Parser generator for parsing a pair of tokens and returning only
/// the right result.
pub fn right_from_pair<O1: DeepView, O2: DeepView, P1: Parser<O1>, P2: Parser<O2>>(
    left_parser: P1,
    right_parser: P2,
) -> (r: RightOfPair<P1, P2, O1>)
    ensures
        r.left_parser == left_parser,
        r.right_parser == right_parser,
{
    RightOfPair { left_parser, right_parser, phantom: core::marker::PhantomData }
}

/// Outcome of repeatedly applying `p`, accumulating outputs, until `p`
/// fails.  A recoverable terminal failure ends the repetition
/// successfully with the outputs collected so far, positioned at the
/// start of the failed attempt; a hard terminal failure poisons the
/// whole repetition.  Zero matches is always a valid outcome.  A
/// repetition step that succeeds without consuming input could never
/// end: that is an engine inconsistency, reported as a hard
/// `SystemFailure`.
pub open spec fn spec_star<O: DeepView, P: Parser<O>>(p: P, input: Seq<char>) -> Parsed<
    Seq<O::V>,
>
    decreases input.len(),
{
    match p.spec_parse(input) {
        Parsed::Missing { at, code } => if code.is_failure() {
            Parsed::Missing { at, code }
        } else {
            Parsed::Found { rest: at, output: Seq::empty() }
        },
        Parsed::Found { rest, output } => if rest.len() < input.len() {
            match spec_star(p, rest) {
                Parsed::Found { rest: rest2, output: outputs } => Parsed::Found {
                    rest: rest2,
                    output: seq![output] + outputs,
                },
                Parsed::Missing { at, code } => Parsed::Missing { at, code },
            }
        } else {
            Parsed::Missing {
                at: input,
                code: SpecCode::Failure(SpecReason::SystemFailure),
            }
        },
    }
}

/// The repetition stays within its input: its remainder or error
/// position is a suffix of the input parsed.
pub proof fn lemma_star_suffix<O: DeepView, P: Parser<O>>(p: P, input: Seq<char>)
    requires
        p.wf(),
    ensures
        parsed_in_suffix(input, spec_star(p, input)),
    decreases input.len(),
{
    lemma_suffix_refl(input);
    p.lemma_parse_suffix(input);
    match p.spec_parse(input) {
        Parsed::Missing { .. } => {},
        Parsed::Found { rest, output: _ } => {
            if rest.len() < input.len() {
                lemma_star_suffix(p, rest);
                match spec_star(p, rest) {
                    Parsed::Found { rest: rest2, output: _ } => {
                        lemma_suffix_trans(input, rest, rest2);
                    },
                    Parsed::Missing { at, code: _ } => {
                        lemma_suffix_trans(input, rest, at);
                    },
                }
            }
        },
    }
}

/// Whether every error of `p` is positioned at the very input `p` was
/// run on, so that a composing parser resumes exactly where the failed
/// attempt started.  Every parser of the grammar layer has this shape,
/// because pairs re-wrap an error of their right side with their own
/// original input.
pub open spec fn errors_at_start<O: DeepView, P: Parser<O>>(p: P) -> bool {
    forall|s: Seq<char>| #[trigger] p.spec_parse(s) matches Parsed::Missing { at, code: _ }
        ==> at == s
}

/// Applying a repetition twice in a row to its own leftover input is
/// idempotent: once the repetition has stopped, the inner parser can
/// no longer match there, so the second application succeeds with zero
/// outputs and the same remainder.  This needs the inner parser to
/// report its recoverable errors at the start of the failed attempt
/// (`errors_at_start`); a parser that resumes elsewhere could consume
/// the leftover anew.
pub proof fn lemma_star_idempotent<O: DeepView, P: Parser<O>>(p: P, input: Seq<char>)
    requires
        errors_at_start(p),
    ensures
        spec_star(p, input) matches Parsed::Found { rest, output: _ } ==> spec_star(p, rest)
            == (Parsed::Found { rest, output: Seq::<O::V>::empty() }),
    decreases input.len(),
{
    match p.spec_parse(input) {
        Parsed::Missing { at, code } => {
            if !code.is_failure() {
                // the repetition stopped exactly where `p` failed, and
                // there `p` fails again with the same recoverable error
                assert(at == input);
            }
        },
        Parsed::Found { rest, output: _ } => {
            if rest.len() < input.len() {
                lemma_star_idempotent(p, rest);
            }
        },
    }
}

/// A parser for zero or more occurrences of a token.
pub struct ZeroOrMore<P> {
    pub parser: P,
}

impl<O: DeepView, P: Parser<O>> Parser<Vec<O>> for ZeroOrMore<P> {
    open spec fn wf(&self) -> bool {
        self.parser.wf()
    }

    open spec fn spec_parse(&self, input: Seq<char>) -> Parsed<Seq<O::V>> {
        spec_star(self.parser, input)
    }

    proof fn lemma_parse_suffix(&self, input: Seq<char>) {
        lemma_star_suffix(self.parser, input);
    }

    fn parse<'a>(&self, input: &'a str) -> (r: PResult<&'a str, Vec<O>>) {
        let mut outputs: Vec<O> = Vec::new();
        let mut cur: &'a str = input;
        proof {
            assert(outputs.deep_view() =~= Seq::<O::V>::empty());
        }
        loop
            invariant
                self.wf(),
                ({
                    match spec_star(self.parser, cur@) {
                        Parsed::Found { rest, output } => spec_star(self.parser, input@)
                            == (Parsed::Found { rest, output: outputs.deep_view() + output }),
                        Parsed::Missing { at, code } => spec_star(self.parser, input@)
                            == (Parsed::<Seq<O::V>>::Missing { at, code }),
                    }
                }),
            decreases cur@.len(),
        {
            match self.parser.parse(cur) {
                Err(err) => {
                    if err.is_failure() {
                        return Err(err);
                    } else {
                        proof {
                            assert(outputs.deep_view() + Seq::<O::V>::empty()
                                =~= outputs.deep_view());
                        }
                        return Ok((err.input, outputs));
                    }
                },
                Ok((next_input, next_output)) => {
                    let next_len = next_input.unicode_len();
                    let cur_len = cur.unicode_len();
                    if next_len < cur_len {
                        let ghost prev = cur@;
                        let ghost pre = outputs.deep_view();
                        let ghost item = next_output.deep_view();
                        outputs.push(next_output);
                        cur = next_input;
                        proof {
                            assert(outputs.deep_view() =~= pre + seq![item]);
                            match spec_star(self.parser, cur@) {
                                Parsed::Found { rest, output } => {
                                    assert(spec_star(self.parser, prev)
                                        == (Parsed::<Seq<O::V>>::Found {
                                        rest,
                                        output: seq![item] + output,
                                    }));
                                    assert(pre + (seq![item] + output) =~= (pre + seq![item])
                                        + output);
                                },
                                Parsed::Missing { at, code } => {
                                    assert(spec_star(self.parser, prev)
                                        == (Parsed::<Seq<O::V>>::Missing { at, code }));
                                },
                            }
                        }
                    } else {
                        // a successful repetition step consumed
                        // nothing: the repetition could never end
                        return Err(Error::failure(cur, Reason::_SystemFailure));
                    }
                },
            }
        }
    }
}

/// Parser generator for parsing zero or more occurrences of a token.
pub fn zero_or_more<P>(parser: P) -> (r: ZeroOrMore<P>)
    ensures
        r.parser == parser,
{
    ZeroOrMore { parser }
}

} // verus!
