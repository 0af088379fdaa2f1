//! Pseudo-tokens and the tokenizer.
//!
//! The tokenizer goes through the source line from left to right. It skips
//! white space and then takes, in this order of preference: an identifier; a
//! dice literal, digits followed by `d` and more digits; a numeral; the
//! operator `>>`; any other single character. Numerals and identifiers
//! become expressions at once, and so does a dice literal, which becomes the
//! application of `make-dice` to the count and the size. Everything else is
//! a reserved token. Every token carries its span in bytes of the line.

use crate::error::{Error, ErrorKind, ErrorModel, Origin, Span};
use crate::symbols::{symbols_model, Symbol, SymbolModel};
use crate::text::{
    all_digits, digits_value, is_digit, is_digit_char, read_i32, same_text, string_of,
};
use vstd::prelude::*;
use vstd::utf8::{encode_scalar, encode_utf8};

verus! {

/// Mathematical model of a [`PTokenKind`].
pub enum PTokenKindModel {
    Reserved(Seq<char>),
    Expr(SymbolModel),
}

/// Mathematical model of a [`PToken`].
pub struct PTokenModel {
    pub kind: PTokenKindModel,
    pub span: Span,
}

/// A pseudo-token: a reserved token or an expression that is already
/// resolved, with the bytes of the line that it covers.
#[derive(Debug)]
pub struct PToken {
    pub kind: PTokenKind,
    pub span: Span,
}

/// What a pseudo-token is.
#[derive(Debug)]
pub enum PTokenKind {
    /// An operator or a punctuation mark.
    Reserved(String),
    /// A resolved expression.
    Expr(Symbol),
}

impl View for PTokenKind {
    type V = PTokenKindModel;

    open spec fn view(&self) -> PTokenKindModel {
        match self {
            PTokenKind::Reserved(k) => PTokenKindModel::Reserved(k@),
            PTokenKind::Expr(s) => PTokenKindModel::Expr(s@),
        }
    }
}

impl View for PToken {
    type V = PTokenModel;

    open spec fn view(&self) -> PTokenModel {
        PTokenModel { kind: self.kind@, span: self.span }
    }
}

/// The models of a sequence of pseudo-tokens, element by element.
pub open spec fn tokens_model(t: Seq<PToken>) -> Seq<PTokenModel> {
    Seq::new(t.len(), |i: int| t[i]@)
}

/// A failure of the front end: what went wrong, where in the line, and in
/// which component.
pub struct Failure {
    pub kind: ErrorKind,
    pub span: Option<Span>,
    pub origin: Origin,
}

/// What the error of a failure of the front end says.
pub open spec fn failure_text(kind: ErrorKind) -> Seq<char> {
    match kind {
        ErrorKind::BadNumeral => "numeral out of range"@,
        ErrorKind::UnmatchedClose => "unmatched closing bracket"@,
        ErrorKind::Unclosed => "unclosed bracket"@,
        ErrorKind::UnexpectedEnd => "unexpected end of expression"@,
        ErrorKind::Ambiguous => "ambiguous expression"@,
        ErrorKind::NestedAssign => "cannot nest assignments"@,
        ErrorKind::BadPattern => "the left side of an assignment is not a name"@,
        _ => "the line cannot be read"@,
    }
}

/// The error that reports a failure of the front end.
pub open spec fn failure_model(f: Failure) -> ErrorModel {
    ErrorModel { reason: failure_text(f.kind), opt_span: f.span, kind: f.kind, origin: f.origin }
}

/// Whether an error is the one that reports the given failure.
pub open spec fn reports(e: ErrorModel, f: Failure) -> bool {
    e == failure_model(f)
}

/// What the error of a failure of the front end says.
fn failure_words(kind: ErrorKind) -> (r: &'static str)
    ensures
        r@ == failure_text(kind),
{
    match kind {
        ErrorKind::BadNumeral => "numeral out of range",
        ErrorKind::UnmatchedClose => "unmatched closing bracket",
        ErrorKind::Unclosed => "unclosed bracket",
        ErrorKind::UnexpectedEnd => "unexpected end of expression",
        ErrorKind::Ambiguous => "ambiguous expression",
        ErrorKind::NestedAssign => "cannot nest assignments",
        ErrorKind::BadPattern => "the left side of an assignment is not a name",
        _ => "the line cannot be read",
    }
}

/// The error that reports a failure of the front end.
pub fn front_error(kind: ErrorKind, span: Option<Span>, origin: Origin) -> (e: Error)
    ensures
        reports(e@, Failure { kind, span, origin }),
{
    let reason = String::from_str(failure_words(kind));
    match span {
        Some(s) => Error::fail_at(s, kind, origin, reason),
        None => Error::fail(kind, origin, reason),
    }
}

/// Whether `c` is white space: the characters with the Unicode property
/// `White_Space`.
pub open spec fn is_space(c: char) -> bool {
    let u = c as u32;
    (0x09 <= u <= 0x0d) || u == 0x20 || u == 0x85 || u == 0xa0 || u == 0x1680 || (0x2000 <= u
        <= 0x200a) || u == 0x2028 || u == 0x2029 || u == 0x202f || u == 0x205f || u == 0x3000
}

/// Whether `c` can begin an identifier: an ASCII letter or the underscore.
pub open spec fn is_ident_start(c: char) -> bool {
    ('a' <= c <= 'z') || ('A' <= c <= 'Z') || c == '_'
}

/// Whether `c` can go on an identifier: an ASCII letter, the underscore or
/// the hyphen.
pub open spec fn is_ident_part(c: char) -> bool {
    is_ident_start(c) || c == '-'
}

/// The classes of characters that the tokenizer takes runs of.
#[derive(Clone, Copy, PartialEq, Eq, Structural)]
pub enum CharClass {
    Space,
    IdentPart,
    Digit,
}

/// Whether `c` belongs to the class.
pub open spec fn in_class(class: CharClass, c: char) -> bool {
    match class {
        CharClass::Space => is_space(c),
        CharClass::IdentPart => is_ident_part(c),
        CharClass::Digit => is_digit(c),
    }
}

/// The end of the run of characters of one class that begins at `i`: the
/// first index from `i` on that holds a character of another class, or the
/// length of the line.
pub open spec fn run_end(src: Seq<char>, i: int, class: CharClass) -> int
    decreases src.len() - i,
{
    if 0 <= i < src.len() && in_class(class, src[i]) {
        run_end(src, i + 1, class)
    } else {
        i
    }
}

/// The number of bytes that the first `i` characters of the line take in
/// UTF-8.
pub open spec fn byte_offset(src: Seq<char>, i: int) -> nat {
    encode_utf8(src.take(i)).len()
}

/// The span in bytes of the characters from `from` up to, not including,
/// `to`.
pub open spec fn span_between(src: Seq<char>, from: int, to: int) -> Span {
    (byte_offset(src, from) as usize, byte_offset(src, to) as usize)
}

/// The name that the dice literal applies.
pub open spec fn make_dice_name() -> Seq<char> {
    "make-dice"@
}

/// What the tokenizer finds at a position.
pub enum Scan {
    /// Nothing but white space is left.
    End,
    /// A token, and the position after it.
    Token(PTokenModel, int),
    /// A lexical error, and the position after the text that caused it.
    Bad(Failure, int),
}

/// The token of a numeral: the number, or a failure where it does not fit
/// the outcome type.
pub open spec fn numeral_scan(src: Seq<char>, from: int, to: int) -> Scan {
    let digits = src.subrange(from, to);
    if digits_value(digits) <= i32::MAX {
        Scan::Token(
            PTokenModel {
                kind: PTokenKindModel::Expr(SymbolModel::Num(digits_value(digits) as int)),
                span: span_between(src, from, to),
            },
            to,
        )
    } else {
        Scan::Bad(bad_numeral(src, from, to), to)
    }
}

/// The failure of a numeral that does not fit the outcome type.
pub open spec fn bad_numeral(src: Seq<char>, from: int, to: int) -> Failure {
    Failure {
        kind: ErrorKind::BadNumeral,
        span: Some(span_between(src, from, to)),
        origin: Origin::Tokenizer,
    }
}

/// The token of a dice literal whose count takes the characters from `from`
/// to `mid`, where the `d` stands, and whose size those after it up to `to`.
pub open spec fn dice_scan(src: Seq<char>, from: int, mid: int, to: int) -> Scan {
    let count = src.subrange(from, mid);
    let size = src.subrange(mid + 1, to);
    if digits_value(count) > i32::MAX {
        Scan::Bad(bad_numeral(src, from, mid), to)
    } else if digits_value(size) > i32::MAX {
        Scan::Bad(bad_numeral(src, mid + 1, to), to)
    } else {
        Scan::Token(
            PTokenModel {
                kind: PTokenKindModel::Expr(
                    SymbolModel::Apply {
                        target: Box::new(SymbolModel::Text(make_dice_name())),
                        args: seq![
                            SymbolModel::Num(digits_value(count) as int),
                            SymbolModel::Num(digits_value(size) as int),
                        ],
                    },
                ),
                span: span_between(src, from, to),
            },
            to,
        )
    }
}

/// What the tokenizer finds from position `pos` on.
pub open spec fn scan(src: Seq<char>, pos: int) -> Scan {
    let start = run_end(src, pos, CharClass::Space);
    if start < 0 || start >= src.len() {
        Scan::End
    } else if is_ident_start(src[start]) {
        let end = run_end(src, start + 1, CharClass::IdentPart);
        Scan::Token(
            PTokenModel {
                kind: PTokenKindModel::Expr(SymbolModel::Text(src.subrange(start, end))),
                span: span_between(src, start, end),
            },
            end,
        )
    } else if is_digit(src[start]) {
        let mid = run_end(src, start, CharClass::Digit);
        if mid + 1 < src.len() && src[mid] == 'd' && is_digit(src[mid + 1]) {
            dice_scan(src, start, mid, run_end(src, mid + 1, CharClass::Digit))
        } else {
            numeral_scan(src, start, mid)
        }
    } else if src[start] == '>' && start + 1 < src.len() && src[start + 1] == '>' {
        Scan::Token(
            PTokenModel {
                kind: PTokenKindModel::Reserved(src.subrange(start, start + 2)),
                span: span_between(src, start, start + 2),
            },
            start + 2,
        )
    } else {
        Scan::Token(
            PTokenModel {
                kind: PTokenKindModel::Reserved(src.subrange(start, start + 1)),
                span: span_between(src, start, start + 1),
            },
            start + 1,
        )
    }
}

/// The position after what the tokenizer finds: that of the scan, or the
/// given position where nothing is left.
pub open spec fn scan_next(src: Seq<char>, pos: int) -> int {
    match scan(src, pos) {
        Scan::End => pos,
        Scan::Token(_, next) => next,
        Scan::Bad(_, next) => next,
    }
}

/// A run ends at or after its beginning and within the line; all of its
/// characters are of the class and the one after it is not.
pub proof fn lemma_run_end(src: Seq<char>, i: int, class: CharClass)
    requires
        0 <= i <= src.len(),
    ensures
        i <= run_end(src, i, class) <= src.len(),
        forall|k: int| i <= k < run_end(src, i, class) ==> in_class(class, #[trigger] src[k]),
        run_end(src, i, class) < src.len() ==> !in_class(class, src[run_end(src, i, class)]),
    decreases src.len() - i,
{
    if i < src.len() && in_class(class, src[i]) {
        lemma_run_end(src, i + 1, class);
    }
}

/// A scan that finds something ends after where it began and within the
/// line.
pub proof fn lemma_scan_advances(src: Seq<char>, pos: int)
    requires
        0 <= pos <= src.len(),
    ensures
        !(scan(src, pos) is End) ==> pos < scan_next(src, pos) <= src.len(),
{
    let start = run_end(src, pos, CharClass::Space);
    lemma_run_end(src, pos, CharClass::Space);
    if start < src.len() {
        lemma_run_end(src, start + 1, CharClass::IdentPart);
        lemma_run_end(src, start, CharClass::Digit);
        let mid = run_end(src, start, CharClass::Digit);
        if mid + 1 < src.len() {
            lemma_run_end(src, mid + 1, CharClass::Digit);
        }
    }
}

/// The encoding of a text with one more character is longer by the bytes of
/// that character.
pub proof fn lemma_encode_push(s: Seq<char>, c: char)
    ensures
        encode_utf8(s.push(c)).len() == encode_utf8(s).len() + encode_scalar(c as u32).len(),
    decreases s.len(),
{
    if s.len() == 0 {
        assert(s.push(c).drop_first() =~= Seq::<char>::empty());
        assert(encode_utf8(Seq::<char>::empty()).len() == 0);
        assert(s.push(c)[0] == c);
    } else {
        lemma_encode_push(s.drop_first(), c);
        assert(s.push(c).drop_first() =~= s.drop_first().push(c));
        assert(s.push(c)[0] == s[0]);
    }
}

/// Byte offsets grow along the line.
pub proof fn lemma_offsets_grow(src: Seq<char>, i: int, j: int)
    requires
        0 <= i <= j <= src.len(),
    ensures
        byte_offset(src, i) <= byte_offset(src, j),
    decreases j - i,
{
    if i < j {
        lemma_offsets_grow(src, i, j - 1);
        assert(src.take(j) =~= src.take(j - 1).push(src[j - 1]));
        lemma_encode_push(src.take(j - 1), src[j - 1]);
    }
}

/// The number of bytes that a character takes in UTF-8.
fn char_width(c: char) -> (r: usize)
    ensures
        r == encode_scalar(c as u32).len(),
        1 <= r <= 4,
{
    let u = c as u32;
    proof {
        vstd::utf8::char_is_scalar(c);
    }
    if u < 0x80 {
        1
    } else if u < 0x800 {
        2
    } else if u < 0x10000 {
        3
    } else {
        4
    }
}

/// Whether `c` is white space.
pub fn is_space_char(c: char) -> (r: bool)
    ensures
        r == is_space(c),
{
    let u = c as u32;
    (0x09 <= u && u <= 0x0d) || u == 0x20 || u == 0x85 || u == 0xa0 || u == 0x1680 || (0x2000 <= u
        && u <= 0x200a) || u == 0x2028 || u == 0x2029 || u == 0x202f || u == 0x205f || u
        == 0x3000
}

/// Whether `c` can begin an identifier.
fn is_ident_start_char(c: char) -> (r: bool)
    ensures
        r == is_ident_start(c),
{
    ('a' <= c && c <= 'z') || ('A' <= c && c <= 'Z') || c == '_'
}

/// Whether `c` belongs to the class.
fn class_has(class: CharClass, c: char) -> (r: bool)
    ensures
        r == in_class(class, c),
{
    match class {
        CharClass::Space => is_space_char(c),
        CharClass::IdentPart => is_ident_start_char(c) || c == '-',
        CharClass::Digit => is_digit_char(c),
    }
}

/// Mathematical model of a [`TokenCaptureStream`]: the line and the position
/// in it, counted in characters, from which the next token is taken. The byte
/// offsets that a stream keeps beside them are those of the line
/// ([`byte_offset`]), so the model has no part of its own for them.
pub struct StreamModel {
    pub source: Seq<char>,
    pub idx: int,
}

/// The tokens of a source line, one after the other.
pub struct TokenCaptureStream {
    chars: Vec<char>,
    /// The byte offset of every character, and that of the end of the line.
    offsets: Vec<usize>,
    idx: usize,
}

impl View for TokenCaptureStream {
    type V = StreamModel;

    closed spec fn view(&self) -> StreamModel {
        StreamModel { source: self.chars@, idx: self.idx as int }
    }
}

/// The byte offsets of all positions of a line.
fn offsets_of(chars: &Vec<char>) -> (r: Vec<usize>)
    requires
        byte_offset(chars@, chars@.len() as int) <= usize::MAX,
    ensures
        r@.len() == chars@.len() + 1,
        forall|i: int| 0 <= i <= chars@.len() ==> #[trigger] r@[i] == byte_offset(chars@, i),
{
    let mut out: Vec<usize> = Vec::new();
    let mut offset: usize = 0;
    let mut i: usize = 0;
    proof {
        assert(chars@.take(0) =~= Seq::<char>::empty());
        assert(encode_utf8(Seq::<char>::empty()).len() == 0);
    }
    out.push(0);
    while i < chars.len()
        invariant
            i <= chars@.len(),
            out@.len() == i + 1,
            offset == byte_offset(chars@, i as int),
            byte_offset(chars@, chars@.len() as int) <= usize::MAX,
            forall|k: int| 0 <= k <= i ==> #[trigger] out@[k] == byte_offset(chars@, k),
        decreases chars@.len() - i,
    {
        proof {
            assert(chars@.take(i + 1) =~= chars@.take(i as int).push(chars@[i as int]));
            lemma_encode_push(chars@.take(i as int), chars@[i as int]);
            lemma_offsets_grow(chars@, i + 1, chars@.len() as int);
        }
        offset = offset + char_width(chars[i]);
        out.push(offset);
        i += 1;
    }
    out
}

impl TokenCaptureStream {
    /// What every stream keeps: its position lies within the line, and the
    /// byte offset of every position is at hand.
    #[verifier::type_invariant]
    spec fn well_formed(self) -> bool {
        &&& self.idx <= self.chars@.len()
        &&& self.offsets@.len() == self.chars@.len() + 1
        &&& forall|i: int|
            0 <= i <= self.chars@.len() ==> #[trigger] self.offsets@[i] == byte_offset(
                self.chars@,
                i,
            )
    }

    /// The stream of the tokens of `source`, at its beginning.
    pub fn new(source: &str) -> (r: Self)
        ensures
            r@.source == source@,
            r@.idx == 0,
    {
        let chars = crate::text::chars_of(source);
        // The number of its bytes fits a machine integer, and with it the
        // byte offset of every character.
        let limit = source.as_bytes().len();
        proof {
            assert(chars@.take(chars@.len() as int) == chars@);
            assert(byte_offset(chars@, chars@.len() as int) == limit);
        }
        let offsets = offsets_of(&chars);
        TokenCaptureStream { chars, offsets, idx: 0 }
    }

    /// The position of the stream, which lies within the line.
    pub fn position(&self) -> (r: usize)
        ensures
            r == self@.idx,
            0 <= self@.idx <= self@.source.len(),
    {
        proof {
            use_type_invariant(self);
        }
        self.idx
    }

    /// The end of the run of characters of one class from `from` on.
    fn run(&self, from: usize, class: CharClass) -> (r: usize)
        requires
            from <= self.chars@.len(),
        ensures
            r == run_end(self.chars@, from as int, class),
            from <= r <= self.chars@.len(),
    {
        let mut i = from;
        while i < self.chars.len() && class_has(class, self.chars[i])
            invariant
                from <= i <= self.chars@.len(),
                run_end(self.chars@, from as int, class) == run_end(self.chars@, i as int, class),
            decreases self.chars@.len() - i,
        {
            i += 1;
        }
        i
    }

    /// The byte span of the characters from `from` up to, not including,
    /// `to`.
    fn span(&self, from: usize, to: usize) -> (r: Span)
        requires
            from <= to <= self.chars@.len(),
        ensures
            r == span_between(self.chars@, from as int, to as int),
    {
        proof {
            use_type_invariant(self);
        }
        (self.offsets[from], self.offsets[to])
    }

    /// The characters from `from` up to, not including, `to`.
    fn slice(&self, from: usize, to: usize) -> (r: Vec<char>)
        requires
            from <= to <= self.chars@.len(),
        ensures
            r@ == self.chars@.subrange(from as int, to as int),
    {
        let mut out: Vec<char> = Vec::new();
        let mut i = from;
        while i < to
            invariant
                from <= i <= to <= self.chars@.len(),
                out@ == self.chars@.subrange(from as int, i as int),
            decreases to - i,
        {
            out.push(self.chars[i]);
            assert(self.chars@.subrange(from as int, i + 1) =~= self.chars@.subrange(
                from as int,
                i as int,
            ).push(self.chars@[i as int]));
            i += 1;
        }
        out
    }

    /// The number that the digits from `from` up to `to` write, if it fits
    /// the outcome type.
    fn number(&self, from: usize, to: usize) -> (r: Option<i32>)
        requires
            from <= to <= self.chars@.len(),
            forall|k: int| from <= k < to ==> is_digit(#[trigger] self.chars@[k]),
        ensures
            r is Some <==> digits_value(self.chars@.subrange(from as int, to as int)) <= i32::MAX,
            r matches Some(v) ==> v as int == digits_value(
                self.chars@.subrange(from as int, to as int),
            ),
    {
        let digits = self.slice(from, to);
        assert(all_digits(digits@)) by {
            assert forall|k: int| 0 <= k < digits@.len() implies is_digit(
                #[trigger] digits@[k],
            ) by {
                assert(digits@[k] == self.chars@[from + k]);
            }
        }
        read_i32(&digits)
    }

    /// The next token of the line, or the lexical error that stands in its
    /// place; nothing where only white space is left. The stream moves past
    /// what it has found.
    pub fn next(&mut self) -> (r: Option<Result<PToken, Error>>)
        ensures
            final(self)@.source == old(self)@.source,
            final(self)@.idx == scan_next(old(self)@.source, old(self)@.idx),
            match scan(old(self)@.source, old(self)@.idx) {
                Scan::End => r is None,
                Scan::Token(t, _) => r matches Some(Ok(token)) && token@ == t,
                Scan::Bad(f, _) => r matches Some(Err(e)) && reports(e@, f),
            },
    {
        proof {
            use_type_invariant(&*self);
        }
        let ghost src = self.chars@;
        let n = self.chars.len();
        let start = self.run(self.idx, CharClass::Space);
        if start >= n {
            return None;
        }
        let first = self.chars[start];
        if is_ident_start_char(first) {
            let end = self.run(start + 1, CharClass::IdentPart);
            let name = string_of(&self.slice(start, end));
            let span = self.span(start, end);
            self.idx = end;
            return Some(Ok(PToken { kind: PTokenKind::Expr(Symbol::Text(name)), span }));
        }
        if is_digit_char(first) {
            let mid = self.run(start, CharClass::Digit);
            proof {
                lemma_run_end(src, start as int, CharClass::Digit);
            }
            if mid < n && n - mid > 1 && self.chars[mid] == 'd' && is_digit_char(
                self.chars[mid + 1],
            ) {
                let end = self.run(mid + 1, CharClass::Digit);
                proof {
                    lemma_run_end(src, mid + 1, CharClass::Digit);
                }
                let count = self.number(start, mid);
                let size = self.number(mid + 1, end);
                let span = self.span(start, end);
                let count_span = self.span(start, mid);
                let size_span = self.span(mid + 1, end);
                self.idx = end;
                let count = match count {
                    Some(v) => v,
                    None => {
                        return Some(
                            Err(
                                front_error(
                                    ErrorKind::BadNumeral,
                                    Some(count_span),
                                    Origin::Tokenizer,
                                ),
                            ),
                        );
                    },
                };
                let size = match size {
                    Some(v) => v,
                    None => {
                        return Some(
                            Err(
                                front_error(
                                    ErrorKind::BadNumeral,
                                    Some(size_span),
                                    Origin::Tokenizer,
                                ),
                            ),
                        );
                    },
                };
                let mut args: Vec<Symbol> = Vec::new();
                args.push(Symbol::Num(count));
                args.push(Symbol::Num(size));
                let target = Symbol::Text(String::from_str("make-dice"));
                proof {
                    assert(target@ == SymbolModel::Text(make_dice_name()));
                    crate::symbols::lemma_symbols_model(args@);
                    assert(symbols_model(args@) =~= seq![
                        SymbolModel::Num(count as int),
                        SymbolModel::Num(size as int),
                    ]);
                }
                return Some(
                    Ok(
                        PToken {
                            kind: PTokenKind::Expr(
                                Symbol::Apply { target: Box::new(target), args },
                            ),
                            span,
                        },
                    ),
                );
            }
            let value = self.number(start, mid);
            let span = self.span(start, mid);
            self.idx = mid;
            return match value {
                Some(v) => Some(Ok(PToken { kind: PTokenKind::Expr(Symbol::Num(v)), span })),
                None => Some(
                    Err(
                        front_error(ErrorKind::BadNumeral, Some(span), Origin::Tokenizer),
                    ),
                ),
            };
        }
        if first == '>' && n - start > 1 && self.chars[start + 1] == '>' {
            let text = string_of(&self.slice(start, start + 2));
            let span = self.span(start, start + 2);
            self.idx = start + 2;
            return Some(Ok(PToken { kind: PTokenKind::Reserved(text), span }));
        }
        let text = string_of(&self.slice(start, start + 1));
        let span = self.span(start, start + 1);
        self.idx = start + 1;
        Some(Ok(PToken { kind: PTokenKind::Reserved(text), span }))
    }
}

/// The span from the first of the tokens to the last; none where there is
/// no token.
pub open spec fn span_of(t: Seq<PTokenModel>) -> Option<Span> {
    if t.len() == 0 {
        None
    } else {
        Some((t.first().span.0, t.last().span.1))
    }
}

/// The models of a part of a sequence are that part of the models.
pub proof fn lemma_tokens_model_subrange(t: Seq<PToken>, a: int, b: int)
    requires
        0 <= a <= b <= t.len(),
    ensures
        tokens_model(t.subrange(a, b)) == tokens_model(t).subrange(a, b),
{
    assert(tokens_model(t.subrange(a, b)) =~= tokens_model(t).subrange(a, b));
}

impl PToken {
    /// The pseudo-token of a resolved expression that covers the given span.
    pub fn from_symbol(symbol: Symbol, span: Span) -> (r: PToken)
        ensures
            r@ == (PTokenModel { kind: PTokenKindModel::Expr(symbol@), span }),
    {
        PToken { kind: PTokenKind::Expr(symbol), span }
    }

    /// Whether this is the reserved token `keyword`.
    pub fn is_reserved(&self, keyword: &str) -> (r: bool)
        ensures
            r == (self@.kind == PTokenKindModel::Reserved(keyword@)),
    {
        match &self.kind {
            PTokenKind::Reserved(k) => same_text(k.as_str(), keyword),
            PTokenKind::Expr(_) => false,
        }
    }

    /// The text of a reserved token.
    pub fn try_to_reserved(&self) -> (r: Option<&str>)
        ensures
            r is Some <==> self@.kind is Reserved,
            r matches Some(k) ==> self@.kind == PTokenKindModel::Reserved(k@),
    {
        match &self.kind {
            PTokenKind::Reserved(k) => Some(k.as_str()),
            PTokenKind::Expr(_) => None,
        }
    }

    /// The expression of a resolved token.
    pub fn try_to_expr(&self) -> (r: Option<&Symbol>)
        ensures
            r is Some <==> self@.kind is Expr,
            r matches Some(s) ==> self@.kind == PTokenKindModel::Expr(s@),
    {
        match &self.kind {
            PTokenKind::Reserved(_) => None,
            PTokenKind::Expr(symbol) => Some(symbol),
        }
    }
}

/// Something that may cover a span of the source line.
pub trait MaybeHasSpan {
    /// The span that is covered, if any.
    fn get_opt_span(&self) -> Option<Span>;
}

impl<'a> MaybeHasSpan for &'a [PToken] {
    /// The span from the first pseudo-token to the last, or none where
    /// there are no pseudo-tokens.
    fn get_opt_span(&self) -> (r: Option<Span>)
        ensures
            r == span_of(tokens_model(self@)),
    {
        if self.len() == 0 {
            None
        } else {
            Some((self[0].span.0, self[self.len() - 1].span.1))
        }
    }
}

} // verus!
