//! The parser. Brackets are resolved first: the tokens of a line are taken
//! one by one, and every group between `(` and `)` or between `[` and `]`
//! is parsed on its own as soon as it is closed and put back as one resolved
//! pseudo-token. What is left at each level is a flat list, which is parsed
//! by looking for the operator that binds loosest and splitting there.

use crate::env::Env;
use crate::error::{Error, ErrorKind, Origin, Span};
use crate::operations::{op_type, Op};
use crate::ptokens::{
    front_error, lemma_scan_advances, lemma_tokens_model_subrange, reports, scan, span_of,
    tokens_model, Failure, MaybeHasSpan, PToken, PTokenKind, PTokenKindModel, PTokenModel, Scan,
    TokenCaptureStream,
};
use crate::symbols::{
    lemma_symbols_model, lemma_symbols_model_push, symbols_model, FnVal, FnValModel, Symbol,
    SymbolModel,
};
use crate::text::same_text;
use crate::type_info::curried;
use vstd::prelude::*;

verus! {

/// The reserved tokens that the parser knows.
#[derive(Clone, Copy, PartialEq, Eq, Structural)]
pub enum Mark {
    Pipe,
    Plus,
    Minus,
    Times,
    Slash,
    Assign,
    Comma,
    Semicolon,
    Colon,
    OpenParen,
    CloseParen,
    OpenSquare,
    CloseSquare,
}

/// How a reserved token is written.
pub open spec fn mark_text(m: Mark) -> Seq<char> {
    match m {
        Mark::Pipe => ">>"@,
        Mark::Plus => "+"@,
        Mark::Minus => "-"@,
        Mark::Times => "*"@,
        Mark::Slash => "/"@,
        Mark::Assign => "="@,
        Mark::Comma => ","@,
        Mark::Semicolon => ";"@,
        Mark::Colon => ":"@,
        Mark::OpenParen => "("@,
        Mark::CloseParen => ")"@,
        Mark::OpenSquare => "["@,
        Mark::CloseSquare => "]"@,
    }
}

/// Whether a pseudo-token is the given reserved token.
pub open spec fn is_mark(t: PTokenModel, m: Mark) -> bool {
    t.kind == PTokenKindModel::Reserved(mark_text(m))
}

/// The groups of reserved tokens at which a list of pseudo-tokens is split.
#[derive(Clone, Copy, PartialEq, Eq, Structural)]
pub enum Tier {
    /// `>>`, which binds loosest.
    Pipe,
    /// `+` and `-`.
    Additive,
    /// `*` and `/`.
    Multiplicative,
    Assign,
    Comma,
    Semicolon,
}

/// Whether a pseudo-token is a reserved token of the tier.
pub open spec fn in_tier(t: PTokenModel, tier: Tier) -> bool {
    match tier {
        Tier::Pipe => is_mark(t, Mark::Pipe),
        Tier::Additive => is_mark(t, Mark::Plus) || is_mark(t, Mark::Minus),
        Tier::Multiplicative => is_mark(t, Mark::Times) || is_mark(t, Mark::Slash),
        Tier::Assign => is_mark(t, Mark::Assign),
        Tier::Comma => is_mark(t, Mark::Comma),
        Tier::Semicolon => is_mark(t, Mark::Semicolon),
    }
}

/// The index of the first token of the tier from `from` on, or the length of
/// the list where there is none.
pub open spec fn first_in(t: Seq<PTokenModel>, from: int, tier: Tier) -> int
    decreases t.len() - from,
{
    if from < 0 || from >= t.len() {
        t.len() as int
    } else if in_tier(t[from], tier) {
        from
    } else {
        first_in(t, from + 1, tier)
    }
}

/// The index of the last token of the tier before `upto`, or -1 where there
/// is none.
pub open spec fn last_in(t: Seq<PTokenModel>, upto: int, tier: Tier) -> int
    decreases upto,
{
    if upto <= 0 || upto > t.len() {
        -1
    } else if in_tier(t[upto - 1], tier) {
        upto - 1
    } else {
        last_in(t, upto - 1, tier)
    }
}

/// A failure of the expression parser.
pub open spec fn syntax(kind: ErrorKind, span: Option<Span>) -> Failure {
    Failure { kind, span, origin: Origin::Parser }
}

/// The function value of a native operation that has been applied to
/// nothing yet.
pub open spec fn native_fn(op: Op) -> SymbolModel {
    SymbolModel::Fn(FnValModel { ptr: op, type_: op_type(op), exprs: Seq::empty() })
}

/// The operation that an operator token stands for.
pub open spec fn operator(t: PTokenModel) -> Op {
    if is_mark(t, Mark::Plus) {
        Op::Add
    } else if is_mark(t, Mark::Minus) {
        Op::Sub
    } else if is_mark(t, Mark::Times) {
        Op::Mul
    } else {
        Op::Div
    }
}

/// The application of an operator to what stands left and right of it.
pub open spec fn binary(
    token: PTokenModel,
    left: Seq<PTokenModel>,
    right: Seq<PTokenModel>,
) -> Result<SymbolModel, Failure>
    decreases left.len() + right.len() + 1, 0int,
{
    match expr_of(left) {
        Err(f) => Err(f),
        Ok(lhs) => match expr_of(right) {
            Err(f) => Err(f),
            Ok(rhs) => Ok(
                SymbolModel::Apply {
                    target: Box::new(native_fn(operator(token))),
                    args: seq![lhs, rhs],
                },
            ),
        },
    }
}

/// Whether every pseudo-token is a resolved expression.
pub open spec fn all_exprs(t: Seq<PTokenModel>) -> bool {
    forall|i: int| 0 <= i < t.len() ==> (#[trigger] t[i]).kind is Expr
}

/// The expressions of pseudo-tokens that are all resolved.
pub open spec fn exprs_of(t: Seq<PTokenModel>) -> Seq<SymbolModel> {
    Seq::new(t.len(), |i: int| t[i].kind->Expr_0)
}

/// The name that stands for a die in front of its size.
pub open spec fn die_name() -> Seq<char> {
    "d"@
}

/// An application written as a chain of expressions: the first is applied
/// to the others. A `d` in front of one expression is a die of that size. A
/// list that holds a reserved token is ambiguous.
pub open spec fn chain_of(t: Seq<PTokenModel>) -> Result<SymbolModel, Failure> {
    if !all_exprs(t) {
        Err(syntax(ErrorKind::Ambiguous, span_of(t)))
    } else if t.len() == 2 && exprs_of(t)[0] == SymbolModel::Text(die_name()) {
        Ok(
            SymbolModel::Apply {
                target: Box::new(native_fn(Op::MakeDiceSingle)),
                args: seq![exprs_of(t)[1]],
            },
        )
    } else {
        Ok(
            SymbolModel::Apply {
                target: Box::new(exprs_of(t)[0]),
                args: exprs_of(t).skip(1),
            },
        )
    }
}

/// The expression that a flat list of pseudo-tokens writes.
///
/// No token at all is an error. A single resolved expression is itself.
/// Otherwise the list is split at the first `>>`, which applies what stands
/// right of it to what stands left of it; failing that at the last `+` or
/// `-`; failing that at the last `*` or `/`, where a `/` without a left
/// operand gives the function that divides by what stands right of it;
/// failing that the list is an application chain.
pub open spec fn expr_of(t: Seq<PTokenModel>) -> Result<SymbolModel, Failure>
    decreases t.len(), 1int,
{
    let pipe = first_in(t, 0, Tier::Pipe);
    let add = last_in(t, t.len() as int, Tier::Additive);
    let mul = last_in(t, t.len() as int, Tier::Multiplicative);
    if t.len() == 0 {
        Err(syntax(ErrorKind::UnexpectedEnd, None))
    } else if t.len() == 1 && t[0].kind is Expr {
        Ok(t[0].kind->Expr_0)
    } else if 0 <= pipe < t.len() {
        match expr_of(t.take(pipe)) {
            Err(f) => Err(f),
            Ok(lhs) => match expr_of(t.skip(pipe + 1)) {
                Err(f) => Err(f),
                Ok(rhs) => Ok(SymbolModel::Apply { target: Box::new(rhs), args: seq![lhs] }),
            },
        }
    } else if 0 <= add < t.len() {
        binary(t[add], t.take(add), t.skip(add + 1))
    } else if 0 < mul < t.len() || (mul == 0 && !is_mark(t[0], Mark::Slash)) {
        binary(t[mul], t.take(mul), t.skip(mul + 1))
    } else if mul == 0 {
        match expr_of(t.skip(1)) {
            Err(f) => Err(f),
            Ok(rhs) => Ok(
                SymbolModel::Fn(
                    FnValModel {
                        ptr: Op::DivBy,
                        type_: curried(op_type(Op::DivBy), 1),
                        exprs: seq![rhs],
                    },
                ),
            ),
        }
    } else {
        chain_of(t)
    }
}

/// The name that a pseudo-token writes, where it is the reference to a
/// name.
pub open spec fn name_of(t: PTokenModel) -> Option<Seq<char>> {
    match t.kind {
        PTokenKindModel::Expr(SymbolModel::Text(name)) => Some(name),
        _ => None,
    }
}

/// The name and the declared type that the left side of an assignment
/// writes: a name, or a name, a colon and the name of a type.
pub open spec fn pattern_of(t: Seq<PTokenModel>) -> Result<
    (Seq<char>, Option<Seq<char>>),
    Failure,
> {
    if t.len() == 1 && name_of(t[0]) is Some {
        Ok((name_of(t[0])->Some_0, None))
    } else if t.len() == 3 && name_of(t[0]) is Some && is_mark(t[1], Mark::Colon) && name_of(
        t[2],
    ) is Some {
        Ok((name_of(t[0])->Some_0, Some(name_of(t[2])->Some_0)))
    } else {
        Err(syntax(ErrorKind::BadPattern, span_of(t)))
    }
}

/// The statement that a flat list of pseudo-tokens writes: an expression
/// where it holds no `=`, an assignment where it holds one, and an error at
/// the second where it holds more.
pub open spec fn statement_of(t: Seq<PTokenModel>) -> Result<SymbolModel, Failure> {
    let first = first_in(t, 0, Tier::Assign);
    let second = first_in(t, first + 1, Tier::Assign);
    if !(0 <= first < t.len()) {
        expr_of(t)
    } else if 0 <= second < t.len() {
        Err(syntax(ErrorKind::NestedAssign, Some(t[second].span)))
    } else {
        match pattern_of(t.take(first)) {
            Err(f) => Err(f),
            Ok((name, def_type)) => match expr_of(t.skip(first + 1)) {
                Err(f) => Err(f),
                Ok(expr) => Ok(SymbolModel::Assigner { name, def_type, expr: Box::new(expr) }),
            },
        }
    }
}

/// The elements that the pseudo-tokens from `from` on write, separated by
/// commas, after the elements `acc` that stand before them.
pub open spec fn elements_of(t: Seq<PTokenModel>, from: int, acc: Seq<SymbolModel>) -> Result<
    Seq<SymbolModel>,
    Failure,
>
    decreases t.len() - from,
{
    let comma = first_in(t, from, Tier::Comma);
    if from < 0 || from > t.len() || comma < from || comma > t.len() {
        Ok(acc)
    } else {
        match expr_of(t.subrange(from, comma)) {
            Err(f) => Err(f),
            Ok(e) => if comma >= t.len() {
                Ok(acc.push(e))
            } else {
                elements_of(t, comma + 1, acc.push(e))
            },
        }
    }
}

/// The name that the repetition form of a sequence applies.
pub open spec fn repeat_name() -> Seq<char> {
    "repeat"@
}

/// The sequence that the pseudo-tokens between square brackets write: its
/// elements, separated by commas; or one element and, after a semicolon, how
/// often it is repeated, which is the application of `repeat` to both.
pub open spec fn sequence_of(t: Seq<PTokenModel>) -> Result<SymbolModel, Failure> {
    let semi = first_in(t, 0, Tier::Semicolon);
    if t.len() == 0 {
        Ok(SymbolModel::Sequence(Seq::empty()))
    } else if !(0 <= semi < t.len()) {
        match elements_of(t, 0, Seq::empty()) {
            Err(f) => Err(f),
            Ok(items) => Ok(SymbolModel::Sequence(items)),
        }
    } else if first_in(t, semi + 1, Tier::Semicolon) < t.len() || first_in(t, 0, Tier::Comma)
        < t.len() {
        Err(syntax(ErrorKind::Ambiguous, span_of(t)))
    } else {
        match expr_of(t.take(semi)) {
            Err(f) => Err(f),
            Ok(item) => match expr_of(t.skip(semi + 1)) {
                Err(f) => Err(f),
                Ok(count) => Ok(
                    SymbolModel::Apply {
                        target: Box::new(SymbolModel::Text(repeat_name())),
                        args: seq![item, count],
                    },
                ),
            },
        }
    }
}

/// The first token of a tier from `from` on lies at or after `from`, and
/// no token before it is of the tier.
pub proof fn lemma_first_in(t: Seq<PTokenModel>, from: int, tier: Tier)
    requires
        0 <= from <= t.len(),
    ensures
        from <= first_in(t, from, tier) <= t.len(),
        first_in(t, from, tier) < t.len() ==> in_tier(t[first_in(t, from, tier)], tier),
        forall|k: int| from <= k < first_in(t, from, tier) ==> !in_tier(#[trigger] t[k], tier),
    decreases t.len() - from,
{
    if from < t.len() && !in_tier(t[from], tier) {
        lemma_first_in(t, from + 1, tier);
    }
}

/// The last token of a tier before `upto` lies before `upto`, and no token
/// after it is of the tier.
pub proof fn lemma_last_in(t: Seq<PTokenModel>, upto: int, tier: Tier)
    requires
        0 <= upto <= t.len(),
    ensures
        -1 <= last_in(t, upto, tier) < upto,
        last_in(t, upto, tier) >= 0 ==> in_tier(t[last_in(t, upto, tier)], tier),
        forall|k: int| last_in(t, upto, tier) < k < upto ==> !in_tier(#[trigger] t[k], tier),
    decreases upto,
{
    if upto > 0 && !in_tier(t[upto - 1], tier) {
        lemma_last_in(t, upto - 1, tier);
    }
}

/// Whether the result of a parser is what the grammar gives.
pub open spec fn parse_result(
    r: Result<Symbol, Error>,
    want: Result<SymbolModel, Failure>,
) -> bool {
    match want {
        Ok(s) => r matches Ok(symbol) && symbol@ == s,
        Err(f) => r matches Err(e) && reports(e@, f),
    }
}

/// How a reserved token is written.
fn mark_str(m: Mark) -> (r: &'static str)
    ensures
        r@ == mark_text(m),
{
    match m {
        Mark::Pipe => ">>",
        Mark::Plus => "+",
        Mark::Minus => "-",
        Mark::Times => "*",
        Mark::Slash => "/",
        Mark::Assign => "=",
        Mark::Comma => ",",
        Mark::Semicolon => ";",
        Mark::Colon => ":",
        Mark::OpenParen => "(",
        Mark::CloseParen => ")",
        Mark::OpenSquare => "[",
        Mark::CloseSquare => "]",
    }
}

/// Whether a pseudo-token is the given reserved token.
fn has_mark(t: &PToken, m: Mark) -> (r: bool)
    ensures
        r == is_mark(t@, m),
{
    t.is_reserved(mark_str(m))
}

/// Whether a pseudo-token is a reserved token of the tier.
fn has_tier(t: &PToken, tier: Tier) -> (r: bool)
    ensures
        r == in_tier(t@, tier),
{
    match tier {
        Tier::Pipe => has_mark(t, Mark::Pipe),
        Tier::Additive => has_mark(t, Mark::Plus) || has_mark(t, Mark::Minus),
        Tier::Multiplicative => has_mark(t, Mark::Times) || has_mark(t, Mark::Slash),
        Tier::Assign => has_mark(t, Mark::Assign),
        Tier::Comma => has_mark(t, Mark::Comma),
        Tier::Semicolon => has_mark(t, Mark::Semicolon),
    }
}

/// The index of the first token of the tier from `from` on, or the length
/// of the list.
fn find_first(t: &[PToken], from: usize, tier: Tier) -> (r: usize)
    requires
        from <= t@.len(),
    ensures
        r == first_in(tokens_model(t@), from as int, tier),
        from <= r <= t@.len(),
{
    let ghost m = tokens_model(t@);
    let mut i = from;
    while i < t.len() && !has_tier(&t[i], tier)
        invariant
            from <= i <= t@.len(),
            m == tokens_model(t@),
            first_in(m, from as int, tier) == first_in(m, i as int, tier),
        decreases t@.len() - i,
    {
        i += 1;
    }
    i
}

/// The index of the last token of the tier.
fn find_last(t: &[PToken], tier: Tier) -> (r: Option<usize>)
    ensures
        match r {
            Some(i) => i == last_in(tokens_model(t@), t@.len() as int, tier) && i < t@.len(),
            None => last_in(tokens_model(t@), t@.len() as int, tier) == -1,
        },
{
    let ghost m = tokens_model(t@);
    let mut i = t.len();
    while i > 0
        invariant
            i <= t@.len(),
            m == tokens_model(t@),
            last_in(m, t@.len() as int, tier) == last_in(m, i as int, tier),
        decreases i,
    {
        if has_tier(&t[i - 1], tier) {
            return Some(i - 1);
        }
        i -= 1;
    }
    None
}

/// The function value of a native operation that has been applied to
/// nothing yet.
pub fn native(op: Op) -> (r: Symbol)
    ensures
        r@ == native_fn(op),
{
    let f = FnVal { ptr: op, type_: op.signature(), exprs: Vec::new() };
    proof {
        lemma_symbols_model(f.exprs@);
        assert(symbols_model(f.exprs@) =~= Seq::<SymbolModel>::empty());
    }
    Symbol::Fn(f)
}

/// The operation that an operator token stands for.
fn operator_of(t: &PToken) -> (r: Op)
    ensures
        r == operator(t@),
{
    if has_mark(t, Mark::Plus) {
        Op::Add
    } else if has_mark(t, Mark::Minus) {
        Op::Sub
    } else if has_mark(t, Mark::Times) {
        Op::Mul
    } else {
        Op::Div
    }
}

/// The list of two symbols.
fn pair(a: Symbol, b: Symbol) -> (r: Vec<Symbol>)
    ensures
        symbols_model(r@) == seq![a@, b@],
{
    let mut v: Vec<Symbol> = Vec::new();
    v.push(a);
    v.push(b);
    proof {
        lemma_symbols_model(v@);
        assert(symbols_model(v@) =~= seq![a@, b@]);
    }
    v
}

/// The list of one symbol.
fn single(a: Symbol) -> (r: Vec<Symbol>)
    ensures
        symbols_model(r@) == seq![a@],
{
    let mut v: Vec<Symbol> = Vec::new();
    v.push(a);
    proof {
        lemma_symbols_model(v@);
        assert(symbols_model(v@) =~= seq![a@]);
    }
    v
}

/// Parses what stands left and right of an operator and applies the
/// operator to both.
fn parse_binary(token: &PToken, left: &[PToken], right: &[PToken]) -> (r: Result<Symbol, Error>)
    ensures
        parse_result(r, binary(token@, tokens_model(left@), tokens_model(right@))),
    decreases left@.len() + right@.len() + 1, 0int,
{
    let lhs = match parse_expr(left) {
        Ok(s) => s,
        Err(e) => {
            return Err(e);
        },
    };
    let rhs = match parse_expr(right) {
        Ok(s) => s,
        Err(e) => {
            return Err(e);
        },
    };
    let target = native(operator_of(token));
    Ok(Symbol::Apply { target: Box::new(target), args: pair(lhs, rhs) })
}

/// Parses a list without operators as an application chain.
fn parse_chain(t: &[PToken]) -> (r: Result<Symbol, Error>)
    requires
        t@.len() > 0,
    ensures
        parse_result(r, chain_of(tokens_model(t@))),
{
    let ghost m = tokens_model(t@);
    let mut items: Vec<Symbol> = Vec::new();
    let mut i: usize = 0;
    while i < t.len()
        invariant
            i <= t@.len(),
            m == tokens_model(t@),
            items@.len() == i,
            forall|k: int|
                0 <= k < i ==> (#[trigger] m[k]).kind == PTokenKindModel::Expr(items@[k]@),
        decreases t@.len() - i,
    {
        match t[i].try_to_expr() {
            Some(s) => {
                items.push(s.clone());
            },
            None => {
                proof {
                    assert(!(m[i as int].kind is Expr));
                }
                return Err(
                    front_error(
                        ErrorKind::Ambiguous,
                        t.get_opt_span(),
                        Origin::Parser),
                );
            },
        }
        i += 1;
    }
    proof {
        lemma_symbols_model(items@);
        assert(symbols_model(items@) =~= exprs_of(m));
    }
    let is_die = t.len() == 2 && match &items[0] {
        Symbol::Text(name) => same_text(name.as_str(), "d"),
        _ => false,
    };
    if is_die {
        let size = items.pop().unwrap();
        Ok(Symbol::Apply { target: Box::new(native(Op::MakeDiceSingle)), args: single(size) })
    } else {
        let ghost all = items@;
        let target = items.remove(0);
        proof {
            lemma_symbols_model(items@);
            lemma_symbols_model(all);
            assert(items@ =~= all.skip(1));
            assert(symbols_model(items@) =~= exprs_of(m).skip(1));
        }
        Ok(Symbol::Apply { target: Box::new(target), args: items })
    }
}

/// Parses a flat list of pseudo-tokens as an expression.
pub fn parse_expr(t: &[PToken]) -> (r: Result<Symbol, Error>)
    ensures
        parse_result(r, expr_of(tokens_model(t@))),
    decreases t@.len(), 1int,
{
    let ghost m = tokens_model(t@);
    let n = t.len();
    if n == 0 {
        return Err(
            front_error(
                ErrorKind::UnexpectedEnd,
                None,
                Origin::Parser),
        );
    }
    if n == 1 {
        match t[0].try_to_expr() {
            Some(s) => {
                return Ok(s.clone());
            },
            None => {},
        }
    }
    proof {
        lemma_first_in(m, 0, Tier::Pipe);
        lemma_last_in(m, n as int, Tier::Additive);
        lemma_last_in(m, n as int, Tier::Multiplicative);
    }
    let pipe = find_first(t, 0, Tier::Pipe);
    if pipe < n {
        proof {
            lemma_tokens_model_subrange(t@, 0, pipe as int);
            lemma_tokens_model_subrange(t@, pipe + 1, n as int);
            assert(m.take(pipe as int) =~= m.subrange(0, pipe as int));
            assert(m.skip(pipe + 1) =~= m.subrange(pipe + 1, n as int));
        }
        let lhs = match parse_expr(&t[0..pipe]) {
            Ok(s) => s,
            Err(e) => {
                return Err(e);
            },
        };
        let rhs = match parse_expr(&t[pipe + 1..n]) {
            Ok(s) => s,
            Err(e) => {
                return Err(e);
            },
        };
        return Ok(Symbol::Apply { target: Box::new(rhs), args: single(lhs) });
    }
    match find_last(t, Tier::Additive) {
        Some(i) => {
            proof {
                lemma_tokens_model_subrange(t@, 0, i as int);
                lemma_tokens_model_subrange(t@, i + 1, n as int);
                assert(m.take(i as int) =~= m.subrange(0, i as int));
                assert(m.skip(i + 1) =~= m.subrange(i + 1, n as int));
            }
            return parse_binary(&t[i], &t[0..i], &t[i + 1..n]);
        },
        None => {},
    }
    match find_last(t, Tier::Multiplicative) {
        Some(i) => {
            proof {
                lemma_tokens_model_subrange(t@, 0, i as int);
                lemma_tokens_model_subrange(t@, i + 1, n as int);
                assert(m.take(i as int) =~= m.subrange(0, i as int));
                assert(m.skip(i + 1) =~= m.subrange(i + 1, n as int));
            }
            if i == 0 && has_mark(&t[0], Mark::Slash) {
                let rhs = match parse_expr(&t[1..n]) {
                    Ok(s) => s,
                    Err(e) => {
                        return Err(e);
                    },
                };
                let f = FnVal {
                    ptr: Op::DivBy,
                    type_: Op::DivBy.signature().curry(1),
                    exprs: single(rhs),
                };
                return Ok(Symbol::Fn(f));
            }
            return parse_binary(&t[i], &t[0..i], &t[i + 1..n]);
        },
        None => {},
    }
    parse_chain(t)
}

/// The tokens of one level of nesting, the position after them, and the
/// byte at which the bracket that closed the level ends.
pub struct Group {
    pub tokens: Seq<PTokenModel>,
    pub next: int,
    pub close_end: usize,
}

/// The bracket that closes what the given token opens.
pub open spec fn closing(t: PTokenModel) -> Option<Mark> {
    if is_mark(t, Mark::OpenParen) {
        Some(Mark::CloseParen)
    } else if is_mark(t, Mark::OpenSquare) {
        Some(Mark::CloseSquare)
    } else {
        None
    }
}

/// The closing bracket that the given token is.
pub open spec fn closer_mark(t: PTokenModel) -> Option<Mark> {
    if is_mark(t, Mark::CloseParen) {
        Some(Mark::CloseParen)
    } else if is_mark(t, Mark::CloseSquare) {
        Some(Mark::CloseSquare)
    } else {
        None
    }
}

/// A failure of the resolution of brackets.
pub open spec fn bracket_failure(kind: ErrorKind, span: Span) -> Failure {
    Failure { kind, span: Some(span), origin: Origin::Brackets }
}

/// What a closed group stands for: between square brackets a sequence;
/// between parentheses an expression, and `Nil` where nothing stands between
/// them.
pub open spec fn resolved(closer: Mark, tokens: Seq<PTokenModel>) -> Result<SymbolModel, Failure> {
    if closer == Mark::CloseSquare {
        sequence_of(tokens)
    } else if tokens.len() == 0 {
        Ok(SymbolModel::Nil)
    } else {
        expr_of(tokens)
    }
}

/// The pseudo-tokens of one level of nesting, from position `pos` of the
/// line on, after the pseudo-tokens `acc` that the level holds already.
///
/// Tokens are taken one by one. An opening bracket starts a group, which is
/// collected up to its closing bracket, parsed, and put in as one resolved
/// pseudo-token that spans both brackets. A closing bracket ends the level
/// if it is the one that `closer` awaits, and is unmatched otherwise. The end
/// of the line ends the outermost level, which awaits no bracket; inside a
/// group it leaves the bracket at `open` unclosed. The first failure, of the
/// tokenizer, of a bracket or of the parser, ends everything.
///
/// A scan always moves forward; the tests on positions only let the
/// definition show that it ends.
pub open spec fn group_of(
    src: Seq<char>,
    pos: int,
    closer: Option<Mark>,
    open: Span,
    acc: Seq<PTokenModel>,
) -> Result<Group, Failure>
    decreases src.len() - pos,
{
    match scan(src, pos) {
        Scan::End => match closer {
            None => Ok(Group { tokens: acc, next: pos, close_end: 0 }),
            Some(_) => Err(bracket_failure(ErrorKind::Unclosed, open)),
        },
        Scan::Bad(f, _) => Err(f),
        Scan::Token(t, next) => if next <= pos || next > src.len() {
            Err(bracket_failure(ErrorKind::Unclosed, open))
        } else {
            match closing(t) {
                Some(c) => match group_of(src, next, Some(c), t.span, Seq::empty()) {
                    Err(f) => Err(f),
                    Ok(inner) => match resolved(c, inner.tokens) {
                        Err(f) => Err(f),
                        Ok(symbol) => if inner.next <= pos || inner.next > src.len() {
                            Err(bracket_failure(ErrorKind::Unclosed, open))
                        } else {
                            group_of(
                                src,
                                inner.next,
                                closer,
                                open,
                                acc.push(
                                    PTokenModel {
                                        kind: PTokenKindModel::Expr(symbol),
                                        span: (t.span.0, inner.close_end),
                                    },
                                ),
                            )
                        },
                    },
                },
                None => match closer_mark(t) {
                    Some(c) => if closer == Some(c) {
                        Ok(Group { tokens: acc, next, close_end: t.span.1 })
                    } else {
                        Err(bracket_failure(ErrorKind::UnmatchedClose, t.span))
                    },
                    None => group_of(src, next, closer, open, acc.push(t)),
                },
            }
        },
    }
}

/// The statement that a source line writes.
pub open spec fn line_of(src: Seq<char>) -> Result<SymbolModel, Failure> {
    match group_of(src, 0, None, (0, 0), Seq::empty()) {
        Err(f) => Err(f),
        Ok(g) => statement_of(g.tokens),
    }
}

/// A level ends at or after the position where it began, and within the
/// line.
pub proof fn lemma_group_advances(
    src: Seq<char>,
    pos: int,
    closer: Option<Mark>,
    open: Span,
    acc: Seq<PTokenModel>,
)
    requires
        0 <= pos <= src.len(),
    ensures
        group_of(src, pos, closer, open, acc) matches Ok(g) ==> pos <= g.next <= src.len(),
    decreases src.len() - pos,
{
    lemma_scan_advances(src, pos);
    match scan(src, pos) {
        Scan::Token(t, next) => {
            match closing(t) {
                Some(c) => {
                    lemma_group_advances(src, next, Some(c), t.span, Seq::empty());
                    match group_of(src, next, Some(c), t.span, Seq::empty()) {
                        Ok(inner) => {
                            match resolved(c, inner.tokens) {
                                Ok(symbol) => {
                                    lemma_group_advances(
                                        src,
                                        inner.next,
                                        closer,
                                        open,
                                        acc.push(
                                            PTokenModel {
                                                kind: PTokenKindModel::Expr(symbol),
                                                span: (t.span.0, inner.close_end),
                                            },
                                        ),
                                    );
                                },
                                _ => {},
                            }
                        },
                        _ => {},
                    }
                },
                None => {
                    if closer_mark(t) is None {
                        lemma_group_advances(src, next, closer, open, acc.push(t));
                    }
                },
            }
        },
        _ => {},
    }
}

/// Parses the left side of an assignment.
fn parse_pattern(t: &[PToken]) -> (r: Result<(String, Option<String>), Error>)
    ensures
        match pattern_of(tokens_model(t@)) {
            Ok((name, def_type)) => r matches Ok((n, d)) && n@ == name && match def_type {
                None => d is None,
                Some(a) => d matches Some(text) && text@ == a,
            },
            Err(f) => r matches Err(e) && reports(e@, f),
        },
{
    let ghost m = tokens_model(t@);
    let name = if t.len() == 1 || t.len() == 3 {
        match &t[0].kind {
            PTokenKind::Expr(Symbol::Text(name)) => Some(name.clone()),
            _ => None,
        }
    } else {
        None
    };
    let annotation = if t.len() == 3 && has_mark(&t[1], Mark::Colon) {
        match &t[2].kind {
            PTokenKind::Expr(Symbol::Text(a)) => Some(a.clone()),
            _ => None,
        }
    } else {
        None
    };
    let bad = front_error(
        ErrorKind::BadPattern,
        t.get_opt_span(),
        Origin::Parser);
    match name {
        None => Err(bad),
        Some(n) => {
            if t.len() == 1 {
                Ok((n, None))
            } else {
                match annotation {
                    Some(a) => Ok((n, Some(a))),
                    None => Err(bad),
                }
            }
        },
    }
}

/// Parses a flat list of pseudo-tokens as a statement: an assignment or an
/// expression.
pub fn parse_statement(t: &[PToken]) -> (r: Result<Symbol, Error>)
    ensures
        parse_result(r, statement_of(tokens_model(t@))),
{
    let ghost m = tokens_model(t@);
    let n = t.len();
    let first = find_first(t, 0, Tier::Assign);
    if first >= n {
        return parse_expr(t);
    }
    let second = find_first(t, first + 1, Tier::Assign);
    if second < n {
        return Err(
            front_error(
                ErrorKind::NestedAssign,
                Some(t[second].span),
                Origin::Parser),
        );
    }
    proof {
        lemma_tokens_model_subrange(t@, 0, first as int);
        lemma_tokens_model_subrange(t@, first + 1, n as int);
        assert(m.take(first as int) =~= m.subrange(0, first as int));
        assert(m.skip(first + 1) =~= m.subrange(first + 1, n as int));
    }
    let (name, def_type) = match parse_pattern(&t[0..first]) {
        Ok(p) => p,
        Err(e) => {
            return Err(e);
        },
    };
    let expr = match parse_expr(&t[first + 1..n]) {
        Ok(s) => s,
        Err(e) => {
            return Err(e);
        },
    };
    Ok(Symbol::Assigner { name, def_type, expr: Box::new(expr) })
}

/// Parses the pseudo-tokens between square brackets as a sequence.
pub fn parse_sequence(t: &[PToken]) -> (r: Result<Symbol, Error>)
    ensures
        parse_result(r, sequence_of(tokens_model(t@))),
{
    let ghost m = tokens_model(t@);
    let n = t.len();
    if n == 0 {
        let items: Vec<Symbol> = Vec::new();
        proof {
            lemma_symbols_model(items@);
            assert(symbols_model(items@) =~= Seq::<SymbolModel>::empty());
        }
        return Ok(Symbol::Sequence(items));
    }
    let semi = find_first(t, 0, Tier::Semicolon);
    if semi >= n {
        let mut items: Vec<Symbol> = Vec::new();
        let mut from: usize = 0;
        proof {
            lemma_symbols_model(items@);
            assert(symbols_model(items@) =~= Seq::<SymbolModel>::empty());
        }
        loop
            invariant
                from <= n,
                0 < n == t@.len(),
                m == tokens_model(t@),
                first_in(m, 0, Tier::Semicolon) >= n,
                elements_of(m, 0, Seq::empty()) == elements_of(
                    m,
                    from as int,
                    symbols_model(items@),
                ),
            decreases n - from,
        {
            let comma = find_first(t, from, Tier::Comma);
            proof {
                lemma_tokens_model_subrange(t@, from as int, comma as int);
            }
            match parse_expr(&t[from..comma]) {
                Ok(e) => {
                    proof {
                        lemma_symbols_model_push(items@, e);
                    }
                    items.push(e);
                },
                Err(e) => {
                    return Err(e);
                },
            }
            if comma >= n {
                return Ok(Symbol::Sequence(items));
            }
            from = comma + 1;
        }
    }
    if find_first(t, semi + 1, Tier::Semicolon) < n || find_first(t, 0, Tier::Comma) < n {
        return Err(
            front_error(
                ErrorKind::Ambiguous,
                t.get_opt_span(),
                Origin::Parser),
        );
    }
    proof {
        lemma_tokens_model_subrange(t@, 0, semi as int);
        lemma_tokens_model_subrange(t@, semi + 1, n as int);
        assert(m.take(semi as int) =~= m.subrange(0, semi as int));
        assert(m.skip(semi + 1) =~= m.subrange(semi + 1, n as int));
    }
    let item = match parse_expr(&t[0..semi]) {
        Ok(s) => s,
        Err(e) => {
            return Err(e);
        },
    };
    let count = match parse_expr(&t[semi + 1..n]) {
        Ok(s) => s,
        Err(e) => {
            return Err(e);
        },
    };
    let target = Symbol::Text(String::from_str("repeat"));
    assert(target@ == SymbolModel::Text(repeat_name()));
    Ok(Symbol::Apply { target: Box::new(target), args: pair(item, count) })
}

/// The bracket that closes what the given token opens.
fn closing_of(t: &PToken) -> (r: Option<Mark>)
    ensures
        r == closing(t@),
{
    if has_mark(t, Mark::OpenParen) {
        Some(Mark::CloseParen)
    } else if has_mark(t, Mark::OpenSquare) {
        Some(Mark::CloseSquare)
    } else {
        None
    }
}

/// The closing bracket that the given token is.
fn closer_of(t: &PToken) -> (r: Option<Mark>)
    ensures
        r == closer_mark(t@),
{
    if has_mark(t, Mark::CloseParen) {
        Some(Mark::CloseParen)
    } else if has_mark(t, Mark::CloseSquare) {
        Some(Mark::CloseSquare)
    } else {
        None
    }
}

/// Whether `a` holds the mark `b`.
fn same_mark(a: Option<Mark>, b: Mark) -> (r: bool)
    ensures
        r == (a == Some(b)),
{
    match a {
        Some(m) => m == b,
        None => false,
    }
}

/// The models of a longer list are those of the shorter one and the model
/// of the pseudo-token put after it.
pub proof fn lemma_tokens_model_push(t: Seq<PToken>, x: PToken)
    ensures
        tokens_model(t.push(x)) == tokens_model(t).push(x@),
{
    assert(tokens_model(t.push(x)) =~= tokens_model(t).push(x@));
}

/// What a closed group stands for.
fn close_group(closer: Mark, inner: &Vec<PToken>) -> (r: Result<Symbol, Error>)
    ensures
        parse_result(r, resolved(closer, tokens_model(inner@))),
{
    if closer == Mark::CloseSquare {
        parse_sequence(inner.as_slice())
    } else if inner.len() == 0 {
        Ok(Symbol::Nil)
    } else {
        parse_expr(inner.as_slice())
    }
}

/// The error of a bracket that is never closed.
fn unclosed(open: Span) -> (e: Error)
    ensures
        reports(e@, bracket_failure(ErrorKind::Unclosed, open)),
{
    front_error(ErrorKind::Unclosed, Some(open), Origin::Brackets)
}

/// The error of a closing bracket that closes nothing.
fn unmatched(at: Span) -> (e: Error)
    ensures
        reports(e@, bracket_failure(ErrorKind::UnmatchedClose, at)),
{
    front_error(
        ErrorKind::UnmatchedClose,
        Some(at),
        Origin::Brackets)
}

/// Collects the pseudo-tokens of one level of nesting from the stream, up to
/// the closing bracket that `closer` names or, where it names none, to the
/// end of the line. Gives them with the byte at which the closing bracket
/// ends.
pub fn resolve(stream: &mut TokenCaptureStream, closer: Option<Mark>, open: Span) -> (r: Result<
    (Vec<PToken>, usize),
    Error,
>)
    ensures
        final(stream)@.source == old(stream)@.source,
        match group_of(old(stream)@.source, old(stream)@.idx, closer, open, Seq::empty()) {
            Ok(g) => r matches Ok((tokens, close_end)) && tokens_model(tokens@) == g.tokens
                && close_end == g.close_end && final(stream)@.idx == g.next,
            Err(f) => r matches Err(e) && reports(e@, f),
        },
    decreases old(stream)@.source.len() - old(stream)@.idx,
{
    let ghost src = stream@.source;
    let ghost start = stream@.idx;
    // The position of a stream lies within its line.
    let begin = stream.position();
    let mut acc: Vec<PToken> = Vec::new();
    proof {
        assert(tokens_model(acc@) =~= Seq::<PTokenModel>::empty());
    }
    loop
        invariant
            stream@.source == src,
            src == old(stream)@.source,
            start == old(stream)@.idx,
            start <= stream@.idx <= src.len(),
            group_of(src, start, closer, open, Seq::empty()) == group_of(
                src,
                stream@.idx,
                closer,
                open,
                tokens_model(acc@),
            ),
        decreases src.len() - stream@.idx,
    {
        let pos = stream.position();
        let ghost held = tokens_model(acc@);
        let ghost goal = group_of(src, pos as int, closer, open, held);
        proof {
            lemma_scan_advances(src, pos as int);
        }
        let token = match stream.next() {
            None => {
                return match closer {
                    None => Ok((acc, 0)),
                    Some(_) => Err(unclosed(open)),
                };
            },
            Some(Err(e)) => {
                return Err(e);
            },
            Some(Ok(token)) => token,
        };
        let ghost next = stream@.idx;
        assert(scan(src, pos as int) == Scan::Token(token@, next));
        match closing_of(&token) {
            Some(c) => {
                proof {
                    lemma_group_advances(src, next, Some(c), token.span, Seq::empty());
                }
                let ghost nested = group_of(src, next, Some(c), token.span, Seq::empty());
                let (inner, close_end) = match resolve(stream, Some(c), token.span) {
                    Ok(g) => g,
                    Err(e) => {
                        assert(goal is Err && goal->Err_0 == nested->Err_0);
                        return Err(e);
                    },
                };
                let symbol = match close_group(c, &inner) {
                    Ok(s) => s,
                    Err(e) => {
                        assert(goal is Err && goal->Err_0 == resolved(
                            c,
                            nested->Ok_0.tokens,
                        )->Err_0);
                        return Err(e);
                    },
                };
                let resolved = PToken::from_symbol(symbol, (token.span.0, close_end));
                proof {
                    lemma_tokens_model_push(acc@, resolved);
                    assert(goal == group_of(
                        src,
                        nested->Ok_0.next,
                        closer,
                        open,
                        held.push(resolved@),
                    ));
                }
                acc.push(resolved);
            },
            None => {
                match closer_of(&token) {
                    Some(c) => {
                        if same_mark(closer, c) {
                            assert(goal == Ok::<Group, Failure>(
                                Group { tokens: held, next, close_end: token.span.1 },
                            ));
                            return Ok((acc, token.span.1));
                        }
                        assert(goal == Err::<Group, Failure>(
                            bracket_failure(ErrorKind::UnmatchedClose, token.span),
                        ));
                        return Err(unmatched(token.span));
                    },
                    None => {
                        proof {
                            lemma_tokens_model_push(acc@, token);
                            assert(goal == group_of(src, next, closer, open, held.push(token@)));
                        }
                        acc.push(token);
                    },
                }
            },
        }
    }
}

/// Parses a source line as a statement. The environment is not consulted.
pub fn parse_line(src: &str, _env: &Env) -> (r: Result<Symbol, Error>)
    ensures
        parse_result(r, line_of(src@)),
{
    let mut stream = TokenCaptureStream::new(src);
    match resolve(&mut stream, None, (0, 0)) {
        Ok((tokens, _)) => parse_statement(tokens.as_slice()),
        Err(e) => Err(e),
    }
}

/// A bracket that the line never closes is reported at the bracket itself:
/// where only white space is left inside a group, the failure is of the
/// kind `Unclosed` and its span is that of the opening bracket. A closing
/// bracket other than the one that is awaited is reported as unmatched at
/// its own span.
pub proof fn law_brackets(
    src: Seq<char>,
    pos: int,
    closer: Option<Mark>,
    open: Span,
    acc: Seq<PTokenModel>,
)
    requires
        0 <= pos <= src.len(),
    ensures
        scan(src, pos) is End && closer is Some ==> group_of(src, pos, closer, open, acc) == Err::<
            Group,
            Failure,
        >(bracket_failure(ErrorKind::Unclosed, open)),
        scan(src, pos) matches Scan::Token(t, _) ==> (closer_mark(t) is Some && closer
            != closer_mark(t) ==> group_of(src, pos, closer, open, acc) == Err::<Group, Failure>(
            bracket_failure(ErrorKind::UnmatchedClose, t.span),
        )),
{
    lemma_scan_advances(src, pos);
    match scan(src, pos) {
        Scan::Token(t, _) => {
            if closer_mark(t) is Some {
                lemma_marks_differ(Mark::OpenParen, Mark::CloseParen);
                lemma_marks_differ(Mark::OpenParen, Mark::CloseSquare);
                lemma_marks_differ(Mark::OpenSquare, Mark::CloseParen);
                lemma_marks_differ(Mark::OpenSquare, Mark::CloseSquare);
            }
        },
        _ => {},
    }
}

/// The first character of a reserved token.
pub open spec fn mark_char(m: Mark) -> char {
    match m {
        Mark::Pipe => '>',
        Mark::Plus => '+',
        Mark::Minus => '-',
        Mark::Times => '*',
        Mark::Slash => '/',
        Mark::Assign => '=',
        Mark::Comma => ',',
        Mark::Semicolon => ';',
        Mark::Colon => ':',
        Mark::OpenParen => '(',
        Mark::CloseParen => ')',
        Mark::OpenSquare => '[',
        Mark::CloseSquare => ']',
    }
}

/// Different reserved tokens are written differently.
pub proof fn lemma_marks_differ(a: Mark, b: Mark)
    ensures
        mark_text(a).len() > 0,
        mark_text(a)[0] == mark_char(a),
        a != b ==> mark_text(a) != mark_text(b),
{
    reveal_strlit(">>");
    reveal_strlit("+");
    reveal_strlit("-");
    reveal_strlit("*");
    reveal_strlit("/");
    reveal_strlit("=");
    reveal_strlit(",");
    reveal_strlit(";");
    reveal_strlit(":");
    reveal_strlit("(");
    reveal_strlit(")");
    reveal_strlit("[");
    reveal_strlit("]");
    assert(mark_text(a)[0] == mark_char(a));
    assert(mark_text(b)[0] == mark_char(b));
}

/// The pseudo-token of a resolved expression.
pub open spec fn expr_token(s: SymbolModel, span: Span) -> PTokenModel {
    PTokenModel { kind: PTokenKindModel::Expr(s), span }
}

/// The pseudo-token of a reserved token.
pub open spec fn mark_token(m: Mark, span: Span) -> PTokenModel {
    PTokenModel { kind: PTokenKindModel::Reserved(mark_text(m)), span }
}

/// The application of a native operation to two operands.
pub open spec fn applied(m: Mark, lhs: SymbolModel, rhs: SymbolModel) -> SymbolModel {
    SymbolModel::Apply {
        target: Box::new(native_fn(operator(mark_token(m, (0, 0))))),
        args: seq![lhs, rhs],
    }
}

/// Whether the mark is `+` or `-`.
pub open spec fn additive(m: Mark) -> bool {
    m == Mark::Plus || m == Mark::Minus
}

/// Whether the mark is `*` or `/`.
pub open spec fn multiplicative(m: Mark) -> bool {
    m == Mark::Times || m == Mark::Slash
}

/// What a token of an operator and a token of an expression are to the
/// tiers.
proof fn lemma_tiers(m: Mark, s: SymbolModel, span: Span)
    ensures
        in_tier(mark_token(m, span), Tier::Pipe) <==> m == Mark::Pipe,
        in_tier(mark_token(m, span), Tier::Additive) <==> additive(m),
        in_tier(mark_token(m, span), Tier::Multiplicative) <==> multiplicative(m),
        operator(mark_token(m, span)) == operator(mark_token(m, (0, 0))),
        forall|tier: Tier| !in_tier(expr_token(s, span), tier),
{
    lemma_marks_differ(m, Mark::Pipe);
    lemma_marks_differ(m, Mark::Plus);
    lemma_marks_differ(m, Mark::Minus);
    lemma_marks_differ(m, Mark::Times);
    lemma_marks_differ(m, Mark::Slash);
}

/// A single resolved expression between two operators: what the parser
/// makes of `x first y second z`.
///
/// Operators of one tier associate to the left: `x - y - z` is
/// `(x - y) - z`. The multiplicative operators bind tighter than the
/// additive ones on either side: `x * y + z` is `(x * y) + z` and
/// `x + y * z` is `x + (y * z)`.
pub proof fn law_operators(
    x: SymbolModel,
    y: SymbolModel,
    z: SymbolModel,
    first: Mark,
    second: Mark,
    spans: Seq<Span>,
)
    requires
        spans.len() == 5,
        additive(first) || multiplicative(first),
        additive(second) || multiplicative(second),
    ensures
        ({
            let t = seq![
                expr_token(x, spans[0]),
                mark_token(first, spans[1]),
                expr_token(y, spans[2]),
                mark_token(second, spans[3]),
                expr_token(z, spans[4]),
            ];
            expr_of(t) == Ok::<SymbolModel, Failure>(
                if additive(first) && multiplicative(second) {
                    applied(first, x, applied(second, y, z))
                } else {
                    applied(second, applied(first, x, y), z)
                },
            )
        }),
{
    let t = seq![
        expr_token(x, spans[0]),
        mark_token(first, spans[1]),
        expr_token(y, spans[2]),
        mark_token(second, spans[3]),
        expr_token(z, spans[4]),
    ];
    lemma_tiers(first, x, spans[1]);
    lemma_tiers(second, x, spans[3]);
    lemma_tiers(first, x, spans[0]);
    lemma_tiers(first, y, spans[2]);
    lemma_tiers(first, z, spans[4]);
    reveal_with_fuel(first_in, 6);
    reveal_with_fuel(last_in, 6);
    assert(first_in(t, 0, Tier::Pipe) == 5);
    let left3 = seq![expr_token(x, spans[0]), mark_token(first, spans[1]), expr_token(y, spans[2])];
    let right3 = seq![
        expr_token(y, spans[2]),
        mark_token(second, spans[3]),
        expr_token(z, spans[4]),
    ];
    let only_x = seq![expr_token(x, spans[0])];
    let only_y = seq![expr_token(y, spans[2])];
    let only_z = seq![expr_token(z, spans[4])];
    assert(t.take(3) =~= left3);
    assert(t.skip(4) =~= only_z);
    assert(t.take(1) =~= only_x);
    assert(t.skip(2) =~= right3);
    assert(left3.take(1) =~= only_x);
    assert(left3.skip(2) =~= only_y);
    assert(right3.take(1) =~= only_y);
    assert(right3.skip(2) =~= only_z);
    assert(expr_of(only_x) == Ok::<SymbolModel, Failure>(x));
    assert(expr_of(only_y) == Ok::<SymbolModel, Failure>(y));
    assert(expr_of(only_z) == Ok::<SymbolModel, Failure>(z));
    assert(first_in(left3, 0, Tier::Pipe) == 3);
    assert(first_in(right3, 0, Tier::Pipe) == 3);
    if additive(first) && multiplicative(second) {
        assert(last_in(t, 5, Tier::Additive) == 1);
        assert(last_in(right3, 3, Tier::Additive) == -1);
        assert(last_in(right3, 3, Tier::Multiplicative) == 1);
        assert(expr_of(right3) == binary(right3[1], only_y, only_z));
        assert(expr_of(t) == binary(t[1], only_x, right3));
    } else if additive(second) {
        assert(last_in(t, 5, Tier::Additive) == 3);
        if additive(first) {
            assert(last_in(left3, 3, Tier::Additive) == 1);
        } else {
            assert(last_in(left3, 3, Tier::Additive) == -1);
            assert(last_in(left3, 3, Tier::Multiplicative) == 1);
        }
        assert(expr_of(left3) == binary(left3[1], only_x, only_y));
        assert(expr_of(t) == binary(t[3], left3, only_z));
    } else {
        assert(last_in(t, 5, Tier::Additive) == -1);
        assert(last_in(t, 5, Tier::Multiplicative) == 3);
        assert(last_in(left3, 3, Tier::Additive) == -1);
        assert(last_in(left3, 3, Tier::Multiplicative) == 1);
        assert(expr_of(left3) == binary(left3[1], only_x, only_y));
        assert(expr_of(t) == binary(t[3], left3, only_z));
    }
}

} // verus!
