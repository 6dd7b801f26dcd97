//! A verified parser-combinator toolkit with a grammar for the
//! comma-separated tabular text format (quoted/escaped fields, LF or
//! CRLF record separators) built on top of it.

pub mod base;
pub mod chars;
pub mod combinators;
pub mod csv;

pub use self::base::AndThenMap;
pub use self::base::Error;
pub use self::base::ErrorCode;
pub use self::base::Fallback;
pub use self::base::Mapped;
pub use self::base::PResult;
pub use self::base::Parser;
pub use self::base::ParserCompose;
pub use self::base::Predicate;
pub use self::base::Reason;
pub use self::combinators::Pair;
pub use self::combinators::ZeroOrMore;
pub use self::combinators::left_from_pair;
pub use self::combinators::pair;
pub use self::combinators::right_from_pair;
pub use self::combinators::zero_or_more;
