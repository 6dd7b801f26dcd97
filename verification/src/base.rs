//! Core types of the parsing engine: the error model, the result shape
//! shared by every parser, and the `Parser` trait that every parsing
//! unit satisfies.

use vstd::prelude::*;

verus! {

/// Code that indicates where parsing failed.
///
/// All variants but `Failure` describe an expected-but-absent token and
/// are recoverable: a composing parser may retry an alternative after
/// seeing one.  `Failure` is a hard, non-recoverable failure.
#[derive(Debug, PartialEq, Eq)]
pub enum ErrorCode {
    Failure(Reason),
    NoInput,
    Char(char),
    LineBreak,
    Predicate,
}

/// Describes why a hard failure is not recoverable: either the engine
/// itself reached an inconsistent state, or the input was positively
/// identified as invalid (with a description of what was expected).
#[derive(Debug, PartialEq, Eq)]
pub enum Reason {
    _SystemFailure,
    InvalidInput { expected: &'static str },
}

/// Specification-level mirror of `Reason`: the description is a
/// character sequence.
pub enum SpecReason {
    SystemFailure,
    InvalidInput { expected: Seq<char> },
}

/// Specification-level mirror of `ErrorCode`.
pub enum SpecCode {
    Failure(SpecReason),
    NoInput,
    Char(char),
    LineBreak,
    Predicate,
}

impl View for Reason {
    type V = SpecReason;

    open spec fn view(&self) -> SpecReason {
        match self {
            Reason::_SystemFailure => SpecReason::SystemFailure,
            Reason::InvalidInput { expected } => SpecReason::InvalidInput { expected: expected@ },
        }
    }
}

impl View for ErrorCode {
    type V = SpecCode;

    open spec fn view(&self) -> SpecCode {
        match self {
            ErrorCode::Failure(reason) => SpecCode::Failure(reason@),
            ErrorCode::NoInput => SpecCode::NoInput,
            ErrorCode::Char(c) => SpecCode::Char(*c),
            ErrorCode::LineBreak => SpecCode::LineBreak,
            ErrorCode::Predicate => SpecCode::Predicate,
        }
    }
}

impl SpecCode {
    /// Whether this code marks a hard, non-recoverable failure.
    pub open spec fn is_failure(self) -> bool {
        self matches SpecCode::Failure(_)
    }
}

/// Generic parsing error: the input view at the point where parsing
/// stopped, and the code saying what was expected there.
///
/// The `input` field is always a suffix of the input originally given
/// to the failing parser; composing parsers use it to decide where to
/// resume (for fallback) or to report.
#[derive(Debug, PartialEq, Eq)]
pub struct Error<I> {
    pub input: I,
    pub code: ErrorCode,
}

impl<I> Error<I> {
    /// Creates a new (recoverable) error with the given error code.
    pub fn new(input: I, code: ErrorCode) -> (e: Self)
        ensures
            e.input == input,
            e.code == code,
    {
        Error { input, code }
    }

    /// Creates a new error that indicates a hard failure.
    pub fn failure(input: I, reason: Reason) -> (e: Self)
        ensures
            e.input == input,
            e.code == ErrorCode::Failure(reason),
    {
        Error { input, code: ErrorCode::Failure(reason) }
    }

    /// Indicates whether this error is a hard failure.
    pub fn is_failure(&self) -> (b: bool)
        ensures
            b == self.code@.is_failure(),
    {
        match self.code {
            ErrorCode::Failure(_) => true,
            _ => false,
        }
    }
}

/// Result type of parsing.
///
/// When parsing results in `Ok`, contains the remainder of the input
/// and the output of the parsing.
pub type PResult<I, O> = Result<(I, O), Error<I>>;

/// Specification-level outcome of running a parser on an input view:
/// either the remainder with the output's view, or the error position
/// with the error code.
pub enum Parsed<V> {
    Found { rest: Seq<char>, output: V },
    Missing { at: Seq<char>, code: SpecCode },
}

/// Whether `rest` is a (possibly equal) suffix of `input`.
pub open spec fn is_input_suffix(rest: Seq<char>, input: Seq<char>) -> bool {
    rest.len() <= input.len() && rest == input.skip(input.len() - rest.len())
}

/// Whether the outcome `p` stays within `input`: both a success
/// remainder and an error position are suffixes of the input parsed.
pub open spec fn parsed_in_suffix<V>(input: Seq<char>, p: Parsed<V>) -> bool {
    match p {
        Parsed::Found { rest, output: _ } => is_input_suffix(rest, input),
        Parsed::Missing { at, code: _ } => is_input_suffix(at, input),
    }
}

/// Whether the executable result `r` is exactly what the
/// specification-level outcome `p` prescribes.
pub open spec fn parsed_matches<O: DeepView>(p: Parsed<O::V>, r: PResult<&str, O>) -> bool {
    match p {
        Parsed::Found { rest, output } => r matches Ok((rem, out)) && rem@ == rest
            && out.deep_view() == output,
        Parsed::Missing { at, code } => r matches Err(e) && e.input@ == at && e.code@ == code,
    }
}

/// Every suffix relation is reflexive.
pub proof fn lemma_suffix_refl(input: Seq<char>)
    ensures
        is_input_suffix(input, input),
{
    assert(input =~= input.skip(0));
}

/// Consuming a prefix of `n` characters leaves a suffix behind.
pub proof fn lemma_skip_is_suffix(input: Seq<char>, n: int)
    requires
        0 <= n <= input.len(),
    ensures
        is_input_suffix(input.skip(n), input),
{
    assert(input.skip(n) =~= input.skip(input.len() - input.skip(n).len()));
}

/// Suffixes compose: a suffix of a suffix of `a` is a suffix of `a`.
pub proof fn lemma_suffix_trans(a: Seq<char>, b: Seq<char>, c: Seq<char>)
    requires
        is_input_suffix(b, a),
        is_input_suffix(c, b),
    ensures
        is_input_suffix(c, a),
{
    assert(c =~= a.skip(a.len() - c.len()));
}

/// Whether the function value `f` always accepts its argument and
/// behaves, up to views, like the specification function `g`.
pub open spec fn map_obeys<O: DeepView, O2: DeepView, F: Fn(O) -> O2>(
    f: F,
    g: spec_fn(O::V) -> O2::V,
) -> bool {
    &&& forall|x: O| #[trigger] call_requires(f, (x,))
    &&& forall|x: O, y: O2| #[trigger] call_ensures(f, (x,), y) ==> y.deep_view() == g(
        x.deep_view(),
    )
}

/// Whether the predicate value `f` always accepts its argument and
/// decides, up to views, like the specification predicate `g`.
pub open spec fn pred_obeys<O: DeepView, F: Fn(&O) -> bool>(f: F, g: spec_fn(O::V) -> bool) -> bool {
    &&& forall|x: &O| #[trigger] call_requires(f, (x,))
    &&& forall|x: &O, b: bool| #[trigger] call_ensures(f, (x,), b) ==> b == g(x.deep_view())
}

/// Whether the function value `f` always accepts its argument and
/// builds parsers that behave like the specification function `g`:
/// given an output view, `g` says what the built parser does on every
/// input.
pub open spec fn bind_obeys<O: DeepView, O2: DeepView, P2: Parser<O2>, F: Fn(O) -> P2>(
    f: F,
    g: spec_fn(O::V, Seq<char>) -> Parsed<O2::V>,
) -> bool {
    &&& forall|x: O| #[trigger] call_requires(f, (x,))
    &&& forall|x: O, p2: P2| #[trigger] call_ensures(f, (x,), p2) ==> p2.wf() && forall|
        s: Seq<char>,
    | p2.spec_parse(s) == g(x.deep_view(), s)
}

/// The uniform contract all parsing units satisfy: a parser consumes a
/// prefix of its input and yields either a success (remaining input,
/// output) or an error.  `spec_parse` is the mathematical description
/// of the parser; `parse` is its executable form, proved to agree with
/// it.  On success the remaining input is a suffix of the input passed
/// in, and on failure the error's position is one as well.
pub trait Parser<O: DeepView>: Sized {
    /// Well-formedness of this parser value: what `parse` needs to
    /// know about any function values stored inside it.
    spec fn wf(&self) -> bool;

    /// The mathematical description of this parser.
    spec fn spec_parse(&self, input: Seq<char>) -> Parsed<O::V>;

    /// Both the success remainder and the error position of a parse
    /// are suffixes of the input parsed.
    proof fn lemma_parse_suffix(&self, input: Seq<char>)
        requires
            self.wf(),
        ensures
            parsed_in_suffix(input, self.spec_parse(input)),
    ;

    /// Parses an input and returns the remainder and an output, or a
    /// parsing error.
    fn parse<'a>(&self, input: &'a str) -> (r: PResult<&'a str, O>)
        requires
            self.wf(),
        ensures
            parsed_matches::<O>(self.spec_parse(input@), r),
    ;

    /// Moves this parser to a new one that applies a map function on
    /// the result, described by the given specification function.
    fn map_with<O2: DeepView, F: Fn(O) -> O2>(
        self,
        map_fn: F,
        Ghost(g): Ghost<spec_fn(O::V) -> O2::V>,
    ) -> (r: Mapped<Self, F, O, O2>)
        ensures
            r.parser == self,
            r.map_fn == map_fn,
            r.spec_map@ == g,
    {
        Mapped { parser: self, map_fn, spec_map: Ghost(g) }
    }

    /// Moves this parser to a new one that applies a map function on
    /// the result.
    fn map<O2: DeepView, F: Fn(O) -> O2>(self, map_fn: F) -> (r: Mapped<Self, F, O, O2>)
        ensures
            r.parser == self,
            r.map_fn == map_fn,
    {
        let g: Ghost<spec_fn(O::V) -> O2::V> = Ghost(
            choose|g: spec_fn(O::V) -> O2::V| map_obeys::<O, O2, F>(map_fn, g),
        );
        Mapped { parser: self, map_fn, spec_map: g }
    }

    /// Moves this parser to a new one that accepts the result of
    /// parsing only if it satisfies the given predicate, described by
    /// the given specification predicate.
    fn iff_with<F: Fn(&O) -> bool>(
        self,
        predicate: F,
        Ghost(g): Ghost<spec_fn(O::V) -> bool>,
    ) -> (r: Predicate<Self, F, O>)
        ensures
            r.parser == self,
            r.predicate == predicate,
            r.assume_invalid == false,
            r.spec_pred@ == g,
    {
        Predicate { parser: self, predicate, assume_invalid: false, spec_pred: Ghost(g) }
    }

    /// Moves this parser to a new one that accepts the result of
    /// parsing only if it satisfies the given predicate.
    fn iff<F: Fn(&O) -> bool>(self, predicate: F) -> (r: Predicate<Self, F, O>)
        ensures
            r.parser == self,
            r.predicate == predicate,
            r.assume_invalid == false,
    {
        let g: Ghost<spec_fn(O::V) -> bool> = Ghost(
            choose|g: spec_fn(O::V) -> bool| pred_obeys::<O, F>(predicate, g),
        );
        Predicate { parser: self, predicate, assume_invalid: false, spec_pred: g }
    }

    /// Moves this parser to a new one that accepts the result of
    /// parsing only if it satisfies the given predicate (described by
    /// the given specification predicate); otherwise it assumes
    /// invalid input and reports that parsing has failed hard.
    fn iff_or_invalid_with<F: Fn(&O) -> bool>(
        self,
        predicate: F,
        Ghost(g): Ghost<spec_fn(O::V) -> bool>,
    ) -> (r: Predicate<Self, F, O>)
        ensures
            r.parser == self,
            r.predicate == predicate,
            r.assume_invalid == true,
            r.spec_pred@ == g,
    {
        Predicate { parser: self, predicate, assume_invalid: true, spec_pred: Ghost(g) }
    }

    /// Moves this parser to a new one that accepts the result of
    /// parsing only if it satisfies the given predicate; otherwise it
    /// assumes invalid input and reports that parsing has failed hard.
    fn iff_or_invalid<F: Fn(&O) -> bool>(self, predicate: F) -> (r: Predicate<Self, F, O>)
        ensures
            r.parser == self,
            r.predicate == predicate,
            r.assume_invalid == true,
    {
        let g: Ghost<spec_fn(O::V) -> bool> = Ghost(
            choose|g: spec_fn(O::V) -> bool| pred_obeys::<O, F>(predicate, g),
        );
        Predicate { parser: self, predicate, assume_invalid: true, spec_pred: g }
    }
}

/// Composition operators whose result wraps a second parser; they are
/// provided for every parser through the blanket implementation below,
/// so combinator chains read left-to-right.
pub trait ParserCompose<O: DeepView>: Parser<O> {
    /// Moves this parser to a new one that will apply a map function
    /// on the result of parsing to produce a new parser for the
    /// following input; the built parser's behaviour is described by
    /// the given specification function.
    fn and_then_map_with<O2: DeepView, P2: Parser<O2>, F: Fn(O) -> P2>(
        self,
        map_fn: F,
        Ghost(g): Ghost<spec_fn(O::V, Seq<char>) -> Parsed<O2::V>>,
    ) -> (r: AndThenMap<Self, F, O, P2, O2>)
        ensures
            r.first == self,
            r.map_fn == map_fn,
            r.spec_next@ == g,
    {
        AndThenMap { first: self, map_fn, spec_next: Ghost(g), phantom: core::marker::PhantomData }
    }

    /// Moves this parser to a new one that will apply a map function
    /// on the result of parsing to produce a new parser for the
    /// following input.
    fn and_then_map<O2: DeepView, P2: Parser<O2>, F: Fn(O) -> P2>(self, map_fn: F) -> (r:
        AndThenMap<Self, F, O, P2, O2>)
        ensures
            r.first == self,
            r.map_fn == map_fn,
    {
        let g: Ghost<spec_fn(O::V, Seq<char>) -> Parsed<O2::V>> = Ghost(
            choose|g: spec_fn(O::V, Seq<char>) -> Parsed<O2::V>|
                bind_obeys::<O, O2, P2, F>(map_fn, g),
        );
        AndThenMap { first: self, map_fn, spec_next: g, phantom: core::marker::PhantomData }
    }

    /// Moves this parser to a new one that can fall back to a given
    /// parser in case this one fails recoverably.
    fn fallback_on<P2: Parser<O>>(self, fallback_parser: P2) -> (r: Fallback<Self, P2>)
        ensures
            r.primary == self,
            r.fallback == fallback_parser,
    {
        Fallback { primary: self, fallback: fallback_parser }
    }
}

impl<O: DeepView, P: Parser<O>> ParserCompose<O> for P {

}

/// A parser that applies a map function on the result of parsing.
pub struct Mapped<P, F, O: DeepView, O2: DeepView> {
    pub parser: P,
    pub map_fn: F,
    pub spec_map: Ghost<spec_fn(O::V) -> O2::V>,
}

impl<O: DeepView, O2: DeepView, P: Parser<O>, F: Fn(O) -> O2> Parser<O2> for Mapped<P, F, O, O2> {
    open spec fn wf(&self) -> bool {
        self.parser.wf() && map_obeys::<O, O2, F>(self.map_fn, self.spec_map@)
    }

    open spec fn spec_parse(&self, input: Seq<char>) -> Parsed<O2::V> {
        match self.parser.spec_parse(input) {
            Parsed::Found { rest, output } => Parsed::Found {
                rest,
                output: (self.spec_map@)(output),
            },
            Parsed::Missing { at, code } => Parsed::Missing { at, code },
        }
    }

    proof fn lemma_parse_suffix(&self, input: Seq<char>) {
        self.parser.lemma_parse_suffix(input);
    }

    fn parse<'a>(&self, input: &'a str) -> (r: PResult<&'a str, O2>) {
        match self.parser.parse(input) {
            Ok((next_input, result)) => Ok((next_input, (self.map_fn)(result))),
            Err(e) => Err(e),
        }
    }
}

/// A parser that applies a map function on the result of parsing to
/// produce a new parser for the following input (the monadic bind: it
/// lets later grammar rules depend on earlier parsed values).
pub struct AndThenMap<P1, F, O1: DeepView, P2, O2: DeepView> {
    pub first: P1,
    pub map_fn: F,
    pub spec_next: Ghost<spec_fn(O1::V, Seq<char>) -> Parsed<O2::V>>,
    pub phantom: core::marker::PhantomData<P2>,
}

impl<O1: DeepView, O2: DeepView, P1: Parser<O1>, P2: Parser<O2>, F: Fn(O1) -> P2> Parser<
    O2,
> for AndThenMap<P1, F, O1, P2, O2> {
    open spec fn wf(&self) -> bool {
        &&& self.first.wf()
        &&& bind_obeys::<O1, O2, P2, F>(self.map_fn, self.spec_next@)
        &&& forall|v: O1::V, s: Seq<char>|
            parsed_in_suffix(s, #[trigger] (self.spec_next@)(v, s))
    }

    open spec fn spec_parse(&self, input: Seq<char>) -> Parsed<O2::V> {
        match self.first.spec_parse(input) {
            Parsed::Found { rest, output } => (self.spec_next@)(output, rest),
            Parsed::Missing { at, code } => Parsed::Missing { at, code },
        }
    }

    proof fn lemma_parse_suffix(&self, input: Seq<char>) {
        self.first.lemma_parse_suffix(input);
        match self.first.spec_parse(input) {
            Parsed::Found { rest, output } => {
                match (self.spec_next@)(output, rest) {
                    Parsed::Found { rest: r2, output: _ } => {
                        lemma_suffix_trans(input, rest, r2);
                    },
                    Parsed::Missing { at, code: _ } => {
                        lemma_suffix_trans(input, rest, at);
                    },
                }
            },
            Parsed::Missing { .. } => {},
        }
    }

    fn parse<'a>(&self, input: &'a str) -> (r: PResult<&'a str, O2>) {
        match self.first.parse(input) {
            Ok((next_input, result)) => {
                let next_parser = (self.map_fn)(result);
                next_parser.parse(next_input)
            },
            Err(e) => Err(e),
        }
    }
}

/// A parser that applies a fallback parsing logic in case the primary
/// one fails recoverably; a hard failure of the primary is returned
/// immediately without attempting the fallback.
pub struct Fallback<P1, P2> {
    pub primary: P1,
    pub fallback: P2,
}

impl<O: DeepView, P1: Parser<O>, P2: Parser<O>> Parser<O> for Fallback<P1, P2> {
    open spec fn wf(&self) -> bool {
        self.primary.wf() && self.fallback.wf()
    }

    open spec fn spec_parse(&self, input: Seq<char>) -> Parsed<O::V> {
        match self.primary.spec_parse(input) {
            Parsed::Found { rest, output } => Parsed::Found { rest, output },
            Parsed::Missing { at, code } => if code.is_failure() {
                Parsed::Missing { at, code }
            } else {
                self.fallback.spec_parse(at)
            },
        }
    }

    proof fn lemma_parse_suffix(&self, input: Seq<char>) {
        self.primary.lemma_parse_suffix(input);
        match self.primary.spec_parse(input) {
            Parsed::Missing { at, code } => {
                if !code.is_failure() {
                    self.fallback.lemma_parse_suffix(at);
                    match self.fallback.spec_parse(at) {
                        Parsed::Found { rest, output: _ } => {
                            lemma_suffix_trans(input, at, rest);
                        },
                        Parsed::Missing { at: at2, code: _ } => {
                            lemma_suffix_trans(input, at, at2);
                        },
                    }
                }
            },
            Parsed::Found { .. } => {},
        }
    }

    fn parse<'a>(&self, input: &'a str) -> (r: PResult<&'a str, O>) {
        match self.primary.parse(input) {
            Ok(found) => Ok(found),
            Err(e) => if e.is_failure() {
                Err(e)
            } else {
                self.fallback.parse(e.input)
            },
        }
    }
}

/// A parser that accepts the result of an inner parser only if it
/// satisfies a predicate.  A rejected result yields a recoverable
/// `Predicate` error positioned at the original input, or, in strict
/// mode (`assume_invalid`), a hard `InvalidInput` failure.
pub struct Predicate<P, F, O: DeepView> {
    pub parser: P,
    pub predicate: F,
    pub assume_invalid: bool,
    pub spec_pred: Ghost<spec_fn(O::V) -> bool>,
}

impl<O: DeepView, P: Parser<O>, F: Fn(&O) -> bool> Parser<O> for Predicate<P, F, O> {
    open spec fn wf(&self) -> bool {
        self.parser.wf() && pred_obeys::<O, F>(self.predicate, self.spec_pred@)
    }

    open spec fn spec_parse(&self, input: Seq<char>) -> Parsed<O::V> {
        match self.parser.spec_parse(input) {
            Parsed::Found { rest, output } => if (self.spec_pred@)(output) {
                Parsed::Found { rest, output }
            } else if self.assume_invalid {
                Parsed::Missing {
                    at: input,
                    code: SpecCode::Failure(SpecReason::InvalidInput { expected: "unknown"@ }),
                }
            } else {
                Parsed::Missing { at: input, code: SpecCode::Predicate }
            },
            Parsed::Missing { at, code } => Parsed::Missing { at, code },
        }
    }

    proof fn lemma_parse_suffix(&self, input: Seq<char>) {
        self.parser.lemma_parse_suffix(input);
        lemma_suffix_refl(input);
    }

    fn parse<'a>(&self, input: &'a str) -> (r: PResult<&'a str, O>) {
        match self.parser.parse(input) {
            Err(e) => Err(e),
            Ok((next_input, result)) => if (self.predicate)(&result) {
                Ok((next_input, result))
            } else if self.assume_invalid {
                Err(Error::failure(input, Reason::InvalidInput { expected: "unknown" }))
            } else {
                Err(Error::new(input, ErrorCode::Predicate))
            },
        }
    }
}

} // verus!
