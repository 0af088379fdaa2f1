//! The error value shared by every component: a reason for a human, an
//! optional span into the source line, the kind of failure and the component
//! that raised it. Errors chain: a specific error can be wrapped in a more
//! general one that says what was being attempted.

use crate::text::{chars_of, push_repeated, push_str, string_of};
use vstd::prelude::*;

verus! {

/// What went wrong.
#[derive(Clone, Copy, Debug, PartialEq, Eq, Structural)]
pub enum ErrorKind {
    /// A numeral does not fit the integer type of outcomes.
    BadNumeral,
    /// A closing bracket without an opening one.
    UnmatchedClose,
    /// An opening bracket that is never closed.
    Unclosed,
    /// The input ended where an expression was expected.
    UnexpectedEnd,
    /// Tokens that form neither an operator expression nor an application.
    Ambiguous,
    /// More than one `=` in a statement.
    NestedAssign,
    /// The left side of `=` is not a name, or a name with a type.
    BadPattern,
    /// A name without a binding.
    Unbound,
    /// An argument whose type cannot be coerced to the expected one.
    Signature,
    /// An annotation that names no type.
    InvalidType,
    /// An annotated type that the value's type cannot be coerced to.
    Annotation,
    /// Something that is not a function was applied.
    NotAFunction,
    /// A function was given more arguments than it awaits.
    TooManyArgs,
    /// A native operation was handed more or fewer arguments than it takes.
    Arity,
    /// Division by zero.
    ZeroDivision,
    /// A division that leaves a remainder.
    InexactDivision,
    /// A distribution with more or less than one outcome was used as a number.
    NotScalar,
    /// A value that is neither a distribution nor a number.
    NotDistr,
    /// A value that is neither a number nor a distribution.
    NotNum,
    /// A value that is not a name.
    NotText,
    /// A result beyond the range of the machine integers that hold it.
    Overflow,
    /// Evaluation nested deeper than the limit.
    Depth,
    /// No failure of its own: the context in which another error arose.
    Context,
}

/// The component that raised an error.
#[derive(Clone, Copy, Debug, PartialEq, Eq, Structural)]
pub enum Origin {
    Tokenizer,
    Brackets,
    Parser,
    TypeChecker,
    Evaluator,
    Distribution,
    Session,
}

/// A byte range of the source line: start and end, the end exclusive.
pub type Span = (usize, usize);

/// Mathematical model of an [`Error`].
pub struct ErrorModel {
    pub reason: Seq<char>,
    pub opt_span: Option<Span>,
    pub kind: ErrorKind,
    pub origin: Origin,
}

/// An error of any component.
#[derive(Debug)]
pub struct Error {
    pub reason: String,
    pub opt_span: Option<Span>,
    pub kind: ErrorKind,
    pub origin: Origin,
}

impl View for Error {
    type V = ErrorModel;

    open spec fn view(&self) -> ErrorModel {
        ErrorModel {
            reason: self.reason@,
            opt_span: self.opt_span,
            kind: self.kind,
            origin: self.origin,
        }
    }
}

impl Clone for Error {
    fn clone(&self) -> (r: Self)
        ensures
            r@ == self@,
    {
        Error {
            reason: self.reason.clone(),
            opt_span: self.opt_span,
            kind: self.kind,
            origin: self.origin,
        }
    }
}

/// The name of a component, as error messages show it.
pub open spec fn origin_text(origin: Origin) -> Seq<char> {
    match origin {
        Origin::Tokenizer => "tokenizer"@,
        Origin::Brackets => "brackets"@,
        Origin::Parser => "parser"@,
        Origin::TypeChecker => "type checker"@,
        Origin::Evaluator => "evaluator"@,
        Origin::Distribution => "distribution"@,
        Origin::Session => "session"@,
    }
}

/// An error as one line of text: its origin in square brackets, then the
/// reason.
pub open spec fn error_text(e: ErrorModel) -> Seq<char> {
    "  ["@ + origin_text(e.origin) + "] "@ + e.reason
}

/// The text with four spaces put after every line break.
pub open spec fn indented(s: Seq<char>) -> Seq<char>
    decreases s.len(),
{
    if s.len() == 0 {
        Seq::empty()
    } else if s.last() == '\n' {
        indented(s.drop_last()) + "\n    "@
    } else {
        indented(s.drop_last()).push(s.last())
    }
}

/// The error that results from wrapping `specific` in `general`: the reason of
/// the general error followed by an indented trace of the specific one; the
/// span of the specific error where it has one, else that of the general one;
/// the kind of the specific error; the origin of the general one.
pub open spec fn chained(specific: ErrorModel, general: ErrorModel) -> ErrorModel {
    ErrorModel {
        reason: general.reason + indented("\nCaused by: "@ + error_text(specific)),
        opt_span: if specific.opt_span is Some {
            specific.opt_span
        } else {
            general.opt_span
        },
        kind: specific.kind,
        origin: general.origin,
    }
}

/// The source line with a second line under it that marks the span with
/// carets.
pub open spec fn underlined(src: Seq<char>, span: Span) -> Seq<char> {
    src + seq!['\n'] + Seq::new(span.0 as nat, |i: int| ' ') + Seq::new(
        (span.1 - span.0) as nat,
        |i: int| '^',
    )
}

/// Appends `s` to `buf` with four spaces put after every line break.
fn push_indented(buf: &mut Vec<char>, s: &Vec<char>)
    ensures
        final(buf)@ == old(buf)@ + indented(s@),
{
    let mut i: usize = 0;
    assert(indented(s@.take(0)) == Seq::<char>::empty());
    while i < s.len()
        invariant
            i <= s.len(),
            buf@ == old(buf)@ + indented(s@.take(i as int)),
        decreases s.len() - i,
    {
        let c = s[i];
        proof {
            let t = s@.take(i + 1);
            assert(t.drop_last() == s@.take(i as int));
            assert(t.last() == c);
        }
        if c == '\n' {
            push_str(buf, "\n    ");
        } else {
            buf.push(c);
        }
        i += 1;
    }
    assert(s@.take(s.len() as int) == s@);
}

/// Appends the name of a component to `buf`.
fn push_origin(buf: &mut Vec<char>, origin: Origin)
    ensures
        final(buf)@ == old(buf)@ + origin_text(origin),
{
    match origin {
        Origin::Tokenizer => push_str(buf, "tokenizer"),
        Origin::Brackets => push_str(buf, "brackets"),
        Origin::Parser => push_str(buf, "parser"),
        Origin::TypeChecker => push_str(buf, "type checker"),
        Origin::Evaluator => push_str(buf, "evaluator"),
        Origin::Distribution => push_str(buf, "distribution"),
        Origin::Session => push_str(buf, "session"),
    }
}

impl Error {
    /// An error without a span.
    pub fn fail(kind: ErrorKind, origin: Origin, reason: String) -> (e: Error)
        ensures
            e@ == (ErrorModel { reason: reason@, opt_span: None, kind, origin }),
    {
        Error { reason, opt_span: None, kind, origin }
    }

    /// An error at a span of the source line.
    pub fn fail_at(span: Span, kind: ErrorKind, origin: Origin, reason: String) -> (e: Error)
        ensures
            e@ == (ErrorModel { reason: reason@, opt_span: Some(span), kind, origin }),
    {
        Error { reason, opt_span: Some(span), kind, origin }
    }

    /// The source line, and under it a line that marks the span: spaces up
    /// to its start, then one caret for each of its bytes.
    pub fn underline(src: &str, span: Span) -> (r: String)
        requires
            span.0 <= span.1,
        ensures
            r@ == underlined(src@, span),
    {
        let mut buf = chars_of(src);
        buf.push('\n');
        push_repeated(&mut buf, ' ', span.0);
        push_repeated(&mut buf, '^', span.1 - span.0);
        string_of(&buf)
    }

    /// The error as one line of text: its origin in square brackets, then the
    /// reason.
    pub fn to_string(&self) -> (r: String)
        ensures
            r@ == error_text(self@),
    {
        let mut buf: Vec<char> = Vec::new();
        push_str(&mut buf, "  [");
        push_origin(&mut buf, self.origin);
        push_str(&mut buf, "] ");
        push_str(&mut buf, self.reason.as_str());
        string_of(&buf)
    }

    /// Wraps this error in a more general one. The reason becomes that of the
    /// general error followed by a trace of this one; the span is this
    /// error's, or the general error's where this one has none; the kind stays
    /// this error's and the origin becomes the general error's.
    pub fn concat(self, general_error: Error) -> (r: Error)
        ensures
            r@ == chained(self@, general_error@),
    {
        let mut trace: Vec<char> = Vec::new();
        push_str(&mut trace, "\nCaused by: ");
        let line = self.to_string();
        push_str(&mut trace, line.as_str());
        let mut buf = chars_of(general_error.reason.as_str());
        push_indented(&mut buf, &trace);
        let opt_span = match self.opt_span {
            Some(span) => Some(span),
            None => general_error.opt_span,
        };
        Error {
            reason: string_of(&buf),
            opt_span,
            kind: self.kind,
            origin: general_error.origin,
        }
    }
}

/// Adds context to the error of a result, and leaves a success alone.
pub trait ConcatErr {
    type OkType;

    /// Wraps the error of a failure in `err`; a success stays as it is.
    fn concat_err(self, err: Error) -> Result<Self::OkType, Error>;
}

impl<T> ConcatErr for Result<T, Error> {
    type OkType = T;

    fn concat_err(self, err: Error) -> (r: Result<T, Error>)
        ensures
            self matches Ok(v) ==> r == Ok::<T, Error>(v),
            self matches Err(e) ==> r matches Err(c) && c@ == chained(e@, err@),
    {
        match self {
            Ok(v) => Ok(v),
            Err(e) => Err(e.concat(err)),
        }
    }
}

} // verus!
