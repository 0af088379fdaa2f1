//! The native operations that function values of the language point to.

use crate::distr::{
    combined, decides, failed_on, failed_pair, first_failure, hist_text,
    lemma_first_failure_fails, lemma_some_failure, lemma_total_single, point, stack_fits, stacked,
    stat_text, table_text, total_weight, uniform, Distr, DistrModel, KeyType, WEIGHT_LIMIT,
};
use crate::env::{lines_of, Env, EnvModel};
use crate::eval::MAX_DEPTH;
use crate::error::{chained, Error, ErrorKind, ErrorModel, Origin};
use crate::symbols::{
    as_distr, as_num, lemma_symbols_model, not_a_distr, repr_text, symbols_model, Symbol,
    SymbolModel,
};
use crate::text::{int_digits, push_int, push_str, string_of};
use crate::type_info::{FnType, FnTypeModel, Type, TypeModel};
use crate::walk::walk_of;
use vstd::prelude::*;

verus! {

/// A native operation.
#[derive(Debug, Clone, Copy, PartialEq, Eq, Structural)]
pub enum Op {
    Mul,
    Div,
    /// Division with the operands swapped: the first argument divides the
    /// second.
    DivBy,
    Add,
    Sub,
    StatView,
    HistView,
    TableView,
    MakeDice,
    MakeDiceSingle,
    /// Puts out a listing of its argument for inspection.
    Debug,
    GreaterOrEqual,
    Greater,
    LessOrEqual,
    Less,
    Equal,
    NotEqual,
}

/// The name of a native operation.
pub open spec fn op_name(op: Op) -> Seq<char> {
    match op {
        Op::Mul => "mul"@,
        Op::Div => "div"@,
        Op::DivBy => "div-by"@,
        Op::Add => "add"@,
        Op::Sub => "sub"@,
        Op::StatView => "stats"@,
        Op::HistView => "hist"@,
        Op::TableView => "table"@,
        Op::MakeDice => "make-dice"@,
        Op::MakeDiceSingle => "d"@,
        Op::Debug => "debug"@,
        Op::GreaterOrEqual => "greater-than-or-equal"@,
        Op::Greater => "greater-than"@,
        Op::LessOrEqual => "less-than-or-equal"@,
        Op::Less => "less-than"@,
        Op::Equal => "equals"@,
        Op::NotEqual => "not-equals"@,
    }
}

/// How many arguments a native operation takes.
pub open spec fn op_arity(op: Op) -> nat {
    match op {
        Op::StatView | Op::HistView | Op::TableView | Op::MakeDiceSingle | Op::Debug => 1,
        _ => 2,
    }
}

impl Op {
    /// The name of the operation.
    pub fn name(&self) -> (r: &'static str)
        ensures
            r@ == op_name(*self),
    {
        match self {
            Op::Mul => "mul",
            Op::Div => "div",
            Op::DivBy => "div-by",
            Op::Add => "add",
            Op::Sub => "sub",
            Op::StatView => "stats",
            Op::HistView => "hist",
            Op::TableView => "table",
            Op::MakeDice => "make-dice",
            Op::MakeDiceSingle => "d",
            Op::Debug => "debug",
            Op::GreaterOrEqual => "greater-than-or-equal",
            Op::Greater => "greater-than",
            Op::LessOrEqual => "less-than-or-equal",
            Op::Less => "less-than",
            Op::Equal => "equals",
            Op::NotEqual => "not-equals",
        }
    }

    /// How many arguments the operation takes.
    pub fn arity(&self) -> (r: usize)
        ensures
            r == op_arity(*self),
    {
        match self {
            Op::StatView | Op::HistView | Op::TableView | Op::MakeDiceSingle | Op::Debug => 1,
            _ => 2,
        }
    }
}

/// Appends the name of an operation to `buf`.
pub fn push_op_name(buf: &mut Vec<char>, op: Op)
    ensures
        final(buf)@ == old(buf)@ + op_name(op),
{
    push_str(buf, op.name());
}

/// The signature of a native operation.
pub open spec fn op_type(op: Op) -> FnTypeModel {
    match op {
        Op::StatView | Op::HistView | Op::TableView => FnTypeModel {
            in_types: seq![TypeModel::Distr],
            out_type: Box::new(TypeModel::Nil),
        },
        Op::MakeDice => FnTypeModel {
            in_types: seq![TypeModel::Num, TypeModel::Num],
            out_type: Box::new(TypeModel::Distr),
        },
        Op::MakeDiceSingle => FnTypeModel {
            in_types: seq![TypeModel::Num],
            out_type: Box::new(TypeModel::Distr),
        },
        Op::Debug => FnTypeModel {
            in_types: seq![TypeModel::Any],
            out_type: Box::new(TypeModel::Any),
        },
        _ => FnTypeModel {
            in_types: seq![TypeModel::Distr, TypeModel::Distr],
            out_type: Box::new(TypeModel::Distr),
        },
    }
}

/// Whether the operation works on pairs of outcomes: arithmetic and the
/// comparisons.
pub open spec fn is_arithmetic(op: Op) -> bool {
    !(op is StatView || op is HistView || op is TableView || op is MakeDice || op
        is MakeDiceSingle || op is Debug)
}

/// One where the statement holds and zero where it does not.
pub open spec fn indicator(holds: bool) -> int {
    if holds {
        1
    } else {
        0
    }
}

/// What an operation makes of two outcomes. Division is exact division;
/// `DivBy` divides the second operand by the first. A comparison gives one
/// where it holds and zero where it does not, so that the weight of the
/// outcome one in the combination tells how likely it is to hold.
pub open spec fn arith_value(op: Op, x: int, y: int) -> int {
    match op {
        Op::Mul => x * y,
        Op::Div => x / y,
        Op::DivBy => y / x,
        Op::Sub => x - y,
        Op::GreaterOrEqual => indicator(x >= y),
        Op::Greater => indicator(x > y),
        Op::LessOrEqual => indicator(x <= y),
        Op::Less => indicator(x < y),
        Op::Equal => indicator(x == y),
        Op::NotEqual => indicator(x != y),
        _ => x + y,
    }
}

/// Why an exact division of `x` by `y` fails, if it does: the divisor is
/// zero, a remainder is left, or the quotient is beyond the outcome type.
pub open spec fn division_fault(x: int, y: int) -> Option<ErrorKind> {
    if y == 0 {
        Some(ErrorKind::ZeroDivision)
    } else if x % y != 0 {
        Some(ErrorKind::InexactDivision)
    } else if x / y < i32::MIN || x / y > i32::MAX {
        Some(ErrorKind::Overflow)
    } else {
        None
    }
}

/// Why an arithmetic operation fails on two outcomes, if it does: a division
/// fails as exact division does, the others where the result is beyond the
/// outcome type.
pub open spec fn arith_fault(op: Op, x: int, y: int) -> Option<ErrorKind> {
    match op {
        Op::Div => division_fault(x, y),
        Op::DivBy => division_fault(y, x),
        _ => if arith_value(op, x, y) < i32::MIN || arith_value(op, x, y) > i32::MAX {
            Some(ErrorKind::Overflow)
        } else {
            None
        },
    }
}

/// An arithmetic operation as a function of two outcomes.
pub open spec fn arith_fn(op: Op) -> spec_fn(int, int) -> int {
    |x: int, y: int| arith_value(op, x, y)
}

/// The pairs of outcomes on which an arithmetic operation fails.
pub open spec fn arith_fails(op: Op) -> spec_fn(int, int) -> bool {
    |x: int, y: int| arith_fault(op, x, y) is Some
}

/// An error of the evaluator: it has no span.
pub open spec fn evaluator_fault(kind: ErrorKind, reason: Seq<char>) -> ErrorModel {
    ErrorModel { reason, opt_span: None, kind, origin: Origin::Evaluator }
}

/// How the two operands of a failed operation are named in its error.
pub open spec fn operands_text(x: int, y: int) -> Seq<char> {
    " (operands "@ + int_digits(x) + " and "@ + int_digits(y) + ")"@
}

/// What the error of a failed division says went wrong.
pub open spec fn division_words(kind: ErrorKind) -> Seq<char> {
    match kind {
        ErrorKind::ZeroDivision => "zero division error"@,
        ErrorKind::InexactDivision => "division leaves a remainder"@,
        _ => "quotient out of range"@,
    }
}

/// The error of the division of `x` by `y` where it fails: it says what
/// went wrong and names the dividend and the divisor.
pub open spec fn division_error(x: int, y: int) -> ErrorModel {
    evaluator_fault(
        division_fault(x, y)->Some_0,
        division_words(division_fault(x, y)->Some_0) + operands_text(x, y),
    )
}

/// The error of an arithmetic operation on two outcomes where it fails: it
/// names both operands, for a division the dividend first.
pub open spec fn pair_error(op: Op, x: int, y: int) -> ErrorModel {
    match op {
        Op::Div => division_error(x, y),
        Op::DivBy => division_error(y, x),
        _ => evaluator_fault(ErrorKind::Overflow, "result out of range"@ + operands_text(x, y)),
    }
}

/// The context that the evaluator puts around the error of a combination.
pub open spec fn arith_context() -> ErrorModel {
    evaluator_fault(ErrorKind::Context, "arithmetic failed"@)
}

/// The error of an arithmetic operation on two distributions that fails on
/// the outcomes `x` and `y`: the error of the operation on the two, wrapped
/// in the context of the combination, which names both outcomes, and in that
/// of the evaluator.
pub open spec fn arith_error_on(op: Op, x: int, y: int) -> ErrorModel {
    chained(chained(pair_error(op, x, y), failed_pair(x, y)), arith_context())
}

/// The error for weights whose product is beyond the limit of weights.
pub open spec fn weights_overflow() -> ErrorModel {
    evaluator_fault(ErrorKind::Overflow, "the weights of the combination are out of range"@)
}

/// The result of an arithmetic operation on two distributions. It fails with
/// `Overflow` where the product of the total weights is beyond the limit of
/// weights, and else with the error of the first pair of outcomes on which the
/// operation fails, which names the two outcomes. Otherwise it is the
/// combination of the two under the operation.
pub open spec fn arith_result(op: Op, a: DistrModel, b: DistrModel) -> Result<
    SymbolModel,
    ErrorModel,
> {
    if total_weight(a) * total_weight(b) > WEIGHT_LIMIT {
        Err(weights_overflow())
    } else {
        match first_failure(a, b, arith_fails(op), a.len() as int) {
            Some((i, j)) => Err(arith_error_on(op, a[i].0, b[j].0)),
            None => Ok(SymbolModel::Distr(combined(a, b, arith_fn(op)))),
        }
    }
}

/// What evaluation gives: a value or an error, and the environment it
/// leaves.
pub struct Outcome {
    pub value: Result<SymbolModel, ErrorModel>,
    pub env: EnvModel,
}

/// An outcome that leaves the output with one more line.
pub open spec fn shown(env: EnvModel, line: Seq<char>) -> Outcome {
    Outcome {
        value: Ok(SymbolModel::Nil),
        env: EnvModel { vars: env.vars, output: env.output.push(line) },
    }
}

/// The error for a native operation that is handed more or fewer arguments
/// than it takes.
pub open spec fn wrong_arity() -> ErrorModel {
    evaluator_fault(ErrorKind::Arity, "wrong number of arguments for a native operation"@)
}

/// The error for dice whose sum cannot be held.
pub open spec fn dice_overflow() -> ErrorModel {
    evaluator_fault(
        ErrorKind::Overflow,
        "the dice do not fit: their sum or their weight is out of range"@,
    )
}

/// What a native operation gives on evaluated arguments.
///
/// Handed a number of arguments other than it takes, it fails with `Arity`.
/// Arithmetic takes two distributions, numbers standing for their certain
/// value. A view takes a distribution, puts its rendering out as a line and
/// gives `Nil`. The dice take numbers, distributions with a single outcome
/// standing for it. `Debug` takes anything, puts its listing out line by
/// line and gives `Nil`.
pub open spec fn native_result(op: Op, args: Seq<SymbolModel>, env: EnvModel) -> Outcome {
    if args.len() != op_arity(op) {
        Outcome { value: Err(wrong_arity()), env }
    } else {
        match op {
            Op::StatView | Op::HistView | Op::TableView => match as_distr(args[0]) {
                None => Outcome { value: Err(not_a_distr(args[0])), env },
                Some(d) => shown(
                    env,
                    match op {
                        Op::StatView => stat_text(d),
                        Op::HistView => hist_text(d),
                        _ => table_text(d),
                    },
                ),
            },
            Op::MakeDice => match as_num(args[0]) {
                Err(e) => Outcome { value: Err(e), env },
                Ok(k) => match as_num(args[1]) {
                    Err(e) => Outcome { value: Err(e), env },
                    Ok(n) => if stack_fits(k, n) {
                        Outcome { value: Ok(SymbolModel::Distr(stacked(k, n))), env }
                    } else {
                        Outcome { value: Err(dice_overflow()), env }
                    },
                },
            },
            Op::MakeDiceSingle => match as_num(args[0]) {
                Err(e) => Outcome { value: Err(e), env },
                Ok(n) => Outcome { value: Ok(SymbolModel::Distr(uniform(n))), env },
            },
            Op::Debug => Outcome {
                value: Ok(SymbolModel::Nil),
                env: EnvModel {
                    vars: env.vars,
                    output: env.output + walk_of(args[0], env.vars, 0, MAX_DEPTH as nat),
                },
            },
            _ => match as_distr(args[0]) {
                None => Outcome { value: Err(not_a_distr(args[0])), env },
                Some(a) => match as_distr(args[1]) {
                    None => Outcome { value: Err(not_a_distr(args[1])), env },
                    Some(b) => Outcome { value: arith_result(op, a, b), env },
                },
            },
        }
    }
}

/// The sign that stands between the operands of an operation, for those
/// that are written between their operands.
pub open spec fn op_sign(op: Op) -> Seq<char> {
    match op {
        Op::Mul => " * "@,
        Op::Div | Op::DivBy => " / "@,
        Op::Sub => " - "@,
        Op::GreaterOrEqual => " >= "@,
        Op::Greater => " > "@,
        Op::LessOrEqual => " <= "@,
        Op::Less => " < "@,
        Op::Equal => " == "@,
        Op::NotEqual => " != "@,
        _ => " + "@,
    }
}

/// How the application of an operation to arguments is written: arithmetic
/// and comparisons between their operands and in parentheses, `DivBy` with
/// its operands changed round; a view as its name before its argument; dice
/// as count, `d` and size.
pub open spec fn op_text(op: Op, args: Seq<SymbolModel>) -> Seq<char> {
    match op {
        Op::StatView | Op::HistView | Op::TableView | Op::Debug => op_name(op) + " "@ + repr_text(
            args[0],
        ),
        Op::MakeDice => repr_text(args[0]) + "d"@ + repr_text(args[1]),
        Op::MakeDiceSingle => "d"@ + repr_text(args[0]),
        Op::DivBy => "("@ + repr_text(args[1]) + op_sign(op) + repr_text(args[0]) + ")"@,
        _ => "("@ + repr_text(args[0]) + op_sign(op) + repr_text(args[1]) + ")"@,
    }
}

/// Whether the result of an evaluation is what the rules give.
pub open spec fn value_result(
    r: Result<Symbol, Error>,
    want: Result<SymbolModel, ErrorModel>,
) -> bool {
    match want {
        Ok(v) => r matches Ok(s) && s@ == v,
        Err(m) => r matches Err(e) && e@ == m,
    }
}

/// An error of the evaluator on two operands: the reason is `what`,
/// followed by both operands.
fn arith_error(kind: ErrorKind, what: &str, x: KeyType, y: KeyType) -> (e: Error)
    ensures
        e@ == evaluator_fault(kind, what@ + operands_text(x as int, y as int)),
{
    let mut buf: Vec<char> = Vec::new();
    push_str(&mut buf, what);
    push_str(&mut buf, " (operands ");
    push_int(&mut buf, x as i128);
    push_str(&mut buf, " and ");
    push_int(&mut buf, y as i128);
    push_str(&mut buf, ")");
    assert(buf@ =~= what@ + operands_text(x as int, y as int));
    Error::fail(kind, Origin::Evaluator, string_of(&buf))
}

/// The exact quotient of `x` by `y`.
fn divide(x: KeyType, y: KeyType) -> (r: Result<KeyType, Error>)
    ensures
        match division_fault(x as int, y as int) {
            None => r matches Ok(z) && z as int == x as int / y as int,
            Some(_) => r matches Err(e) && e@ == division_error(x as int, y as int),
        },
{
    if y == 0 {
        return Err(arith_error(ErrorKind::ZeroDivision, "zero division error", x, y));
    }
    match x.checked_rem_euclid(y) {
        None => {
            assert(x as int % y as int == 0);
            assert(x as int / y as int > i32::MAX);
            Err(arith_error(ErrorKind::Overflow, "quotient out of range", x, y))
        },
        Some(rem) => {
            if rem != 0 {
                return Err(
                    arith_error(ErrorKind::InexactDivision, "division leaves a remainder", x, y),
                );
            }
            match x.checked_div_euclid(y) {
                Some(q) => Ok(q),
                None => Err(arith_error(ErrorKind::Overflow, "quotient out of range", x, y)),
            }
        },
    }
}

/// One where the statement holds and zero where it does not.
fn truth(holds: bool) -> (r: KeyType)
    ensures
        r == indicator(holds),
{
    if holds {
        1
    } else {
        0
    }
}

/// An arithmetic operation on two outcomes.
pub fn arith(op: Op, x: KeyType, y: KeyType) -> (r: Result<KeyType, Error>)
    requires
        is_arithmetic(op),
    ensures
        match arith_fault(op, x as int, y as int) {
            None => r matches Ok(z) && z as int == arith_value(op, x as int, y as int),
            Some(_) => r matches Err(e) && e@ == pair_error(op, x as int, y as int),
        },
{
    let checked = match op {
        Op::Div => {
            return divide(x, y);
        },
        Op::DivBy => {
            return divide(y, x);
        },
        Op::Mul => x.checked_mul(y),
        Op::Sub => x.checked_sub(y),
        Op::GreaterOrEqual => Some(truth(x >= y)),
        Op::Greater => Some(truth(x > y)),
        Op::LessOrEqual => Some(truth(x <= y)),
        Op::Less => Some(truth(x < y)),
        Op::Equal => Some(truth(x == y)),
        Op::NotEqual => Some(truth(x != y)),
        _ => x.checked_add(y),
    };
    match checked {
        Some(z) => Ok(z),
        None => Err(arith_error(ErrorKind::Overflow, "result out of range", x, y)),
    }
}

/// An arithmetic operation on two distributions.
pub fn arith_distr(op: Op, a: &Distr, b: &Distr) -> (r: Result<Symbol, Error>)
    requires
        is_arithmetic(op),
    ensures
        value_result(r, arith_result(op, a@, b@)),
{
    let ta = a.total();
    let tb = b.total();
    let n = a.len();
    let m = b.len();
    let fits = match ta.checked_mul(tb) {
        Some(product) => product <= WEIGHT_LIMIT,
        None => false,
    };
    if !fits {
        return Err(
            Error::fail(
                ErrorKind::Overflow,
                Origin::Evaluator,
                String::from_str("the weights of the combination are out of range"),
            ),
        );
    }
    let step = |x: KeyType, y: KeyType| -> (res: Result<KeyType, Error>)
        ensures
            match arith_fault(op, x as int, y as int) {
                None => res matches Ok(z) && z as int == arith_value(op, x as int, y as int),
                Some(_) => res matches Err(e) && e@ == pair_error(op, x as int, y as int),
            },
        { arith(op, x, y) };
    let r = a.combine_fallible_op(b, step);
    proof {
        assert(decides(step, arith_fn(op), arith_fails(op), a@, b@));
        if first_failure(a@, b@, arith_fails(op), a@.len() as int) is Some {
            lemma_first_failure_fails(a@, b@, arith_fails(op), a@.len() as int);
            let (i, j) = first_failure(a@, b@, arith_fails(op), a@.len() as int)->Some_0;
            let e = r->Err_0;
            assert(failed_on(step, a@, b@, i, j, e@));
            let cause = choose|cause: Error| #[trigger]
                call_ensures(
                    step,
                    (a@[i].0 as i32, b@[j].0 as i32),
                    Err::<KeyType, Error>(cause),
                ) && e@ == chained(cause@, failed_pair(a@[i].0, b@[j].0));
            assert(cause@ == pair_error(op, a@[i].0, b@[j].0));
        }
    }
    match r {
        Ok(d) => Ok(Symbol::Distr(d)),
        Err(e) => Err(
            e.concat(
                Error::fail(
                    ErrorKind::Context,
                    Origin::Evaluator,
                    String::from_str("arithmetic failed"),
                ),
            ),
        ),
    }
}

impl Op {
    /// The signature of the operation.
    pub fn signature(&self) -> (r: FnType)
        ensures
            r@ == op_type(*self),
    {
        let mut in_types: Vec<Type> = Vec::new();
        let out = match self {
            Op::StatView | Op::HistView | Op::TableView => {
                in_types.push(Type::Distr);
                Type::Nil
            },
            Op::MakeDice => {
                in_types.push(Type::Num);
                in_types.push(Type::Num);
                Type::Distr
            },
            Op::MakeDiceSingle => {
                in_types.push(Type::Num);
                Type::Distr
            },
            Op::Debug => {
                in_types.push(Type::Any);
                Type::Any
            },
            _ => {
                in_types.push(Type::Distr);
                in_types.push(Type::Distr);
                Type::Distr
            },
        };
        let r = FnType::new(in_types, out);
        assert(r@.in_types =~= op_type(*self).in_types);
        r
    }

    /// The sign that stands between the operands of the operation.
    fn sign(&self) -> (r: &'static str)
        ensures
            r@ == op_sign(*self),
    {
        match self {
            Op::Mul => " * ",
            Op::Div | Op::DivBy => " / ",
            Op::Sub => " - ",
            Op::GreaterOrEqual => " >= ",
            Op::Greater => " > ",
            Op::LessOrEqual => " <= ",
            Op::Less => " < ",
            Op::Equal => " == ",
            Op::NotEqual => " != ",
            _ => " + ",
        }
    }

    /// How the application of the operation to the arguments is written.
    pub fn repr(&self, args: &Vec<Symbol>) -> (r: String)
        requires
            args@.len() >= op_arity(*self),
        ensures
            r@ == op_text(*self, symbols_model(args@)),
    {
        proof {
            lemma_symbols_model(args@);
        }
        let mut buf: Vec<char> = Vec::new();
        match self {
            Op::StatView | Op::HistView | Op::TableView | Op::Debug => {
                push_str(&mut buf, self.name());
                push_str(&mut buf, " ");
                push_str(&mut buf, args[0].repr().as_str());
            },
            Op::MakeDice => {
                push_str(&mut buf, args[0].repr().as_str());
                push_str(&mut buf, "d");
                push_str(&mut buf, args[1].repr().as_str());
            },
            Op::MakeDiceSingle => {
                push_str(&mut buf, "d");
                push_str(&mut buf, args[0].repr().as_str());
            },
            Op::DivBy => {
                push_str(&mut buf, "(");
                push_str(&mut buf, args[1].repr().as_str());
                push_str(&mut buf, self.sign());
                push_str(&mut buf, args[0].repr().as_str());
                push_str(&mut buf, ")");
            },
            _ => {
                push_str(&mut buf, "(");
                push_str(&mut buf, args[0].repr().as_str());
                push_str(&mut buf, self.sign());
                push_str(&mut buf, args[1].repr().as_str());
                push_str(&mut buf, ")");
            },
        }
        string_of(&buf)
    }

    /// The operation on evaluated arguments: the value and, for the views,
    /// a line put out in the environment.
    pub fn eval(&self, args: Vec<Symbol>, env: &mut Env) -> (r: Result<Symbol, Error>)
        ensures
            value_result(r, native_result(*self, symbols_model(args@), old(env)@).value),
            final(env)@ == native_result(*self, symbols_model(args@), old(env)@).env,
    {
        proof {
            lemma_symbols_model(args@);
        }
        if args.len() != self.arity() {
            return Err(
                Error::fail(
                    ErrorKind::Arity,
                    Origin::Evaluator,
                    String::from_str("wrong number of arguments for a native operation"),
                ),
            );
        }
        match self {
            Op::StatView | Op::HistView | Op::TableView => {
                let d = match args[0].try_to_distr() {
                    Ok(d) => d,
                    Err(e) => {
                        return Err(e);
                    },
                };
                let line = match self {
                    Op::StatView => d.stat_view(),
                    Op::HistView => d.hist_view(),
                    _ => d.table_view(),
                };
                env.emit(line);
                Ok(Symbol::Nil)
            },
            Op::Debug => {
                let lines = args[0].walk(env, 0);
                let ghost before = env@;
                let mut i: usize = 0;
                while i < lines.len()
                    invariant
                        i <= lines@.len(),
                        env@.vars == before.vars,
                        env@.output == before.output + lines_of(lines@).take(i as int),
                    decreases lines@.len() - i,
                {
                    env.emit(lines[i].clone());
                    assert(lines_of(lines@).take(i + 1) =~= lines_of(lines@).take(i as int).push(
                        lines@[i as int]@,
                    ));
                    i += 1;
                }
                assert(lines_of(lines@).take(lines@.len() as int) =~= lines_of(lines@));
                Ok(Symbol::Nil)
            },
            Op::MakeDice => {
                let k = match args[0].try_to_num() {
                    Ok(k) => k,
                    Err(e) => {
                        return Err(e);
                    },
                };
                let n = match args[1].try_to_num() {
                    Ok(n) => n,
                    Err(e) => {
                        return Err(e);
                    },
                };
                if Distr::dice_fit(k, n) {
                    Ok(Symbol::Distr(Distr::stacked_unifs(k, n)))
                } else {
                    Err(
                        Error::fail(
                            ErrorKind::Overflow,
                            Origin::Evaluator,
                            String::from_str(
                                "the dice do not fit: their sum or their weight is out of range",
                            ),
                        ),
                    )
                }
            },
            Op::MakeDiceSingle => {
                let n = match args[0].try_to_num() {
                    Ok(n) => n,
                    Err(e) => {
                        return Err(e);
                    },
                };
                Ok(Symbol::Distr(Distr::unif(n)))
            },
            _ => {
                let a = match args[0].try_to_distr() {
                    Ok(d) => d,
                    Err(e) => {
                        return Err(e);
                    },
                };
                let b = match args[1].try_to_distr() {
                    Ok(d) => d,
                    Err(e) => {
                        return Err(e);
                    },
                };
                arith_distr(*self, &a, &b)
            },
        }
    }
}

/// Division by a distribution that has the outcome zero fails, whatever is
/// divided, as long as it has an outcome at all; and a number divided by
/// zero fails with an error of kind `ZeroDivision` that names the number and
/// the zero.
pub proof fn law_division_by_zero(a: DistrModel, b: DistrModel, x: int)
    requires
        a.len() > 0,
        exists|j: int| 0 <= j < b.len() && (#[trigger] b[j]).0 == 0,
    ensures
        arith_result(Op::Div, a, b) is Err,
        arith_result(Op::Div, point(x), point(0)) == Err::<SymbolModel, ErrorModel>(
            arith_error_on(Op::Div, x, 0),
        ),
        arith_error_on(Op::Div, x, 0).kind == ErrorKind::ZeroDivision,
{
    let fails = arith_fails(Op::Div);
    let j = choose|j: int| 0 <= j < b.len() && (#[trigger] b[j]).0 == 0;
    assert(fails(a[0].0, b[j].0));
    lemma_some_failure(a, b, fails, 0, j, a.len() as int);
    let px = point(x);
    let pz = point(0);
    assert(fails(px[0].0, pz[0].0));
    lemma_some_failure(px, pz, fails, 0, 0, 1);
    lemma_first_failure_fails(px, pz, fails, 1);
    lemma_total_single((x, 1nat));
    lemma_total_single((0int, 1nat));
}

/// Arithmetic on two numbers. It fails exactly where the operation fails on
/// the two, with an error that names both, and else gives the certain value
/// of what the operation makes of them: 6 divided by 3 is the certain 2, and
/// 7 divided by 2 fails with an error that names 7 and 2.
pub proof fn law_arithmetic_on_numbers(op: Op, x: int, y: int)
    requires
        is_arithmetic(op),
    ensures
        arith_result(op, point(x), point(y)) == match arith_fault(op, x, y) {
            Some(_) => Err::<SymbolModel, ErrorModel>(arith_error_on(op, x, y)),
            None => Ok(SymbolModel::Distr(point(arith_value(op, x, y)))),
        },
        arith_fault(op, x, y) matches Some(kind) ==> arith_error_on(op, x, y).kind == kind
            && arith_error_on(op, x, y).reason == arith_context().reason + crate::error::indented(
            "\nCaused by: "@ + crate::error::error_text(
                chained(pair_error(op, x, y), failed_pair(x, y)),
            ),
        ) && failed_pair(x, y).reason == "no result for the outcomes "@ + int_digits(x) + " and "@
            + int_digits(y),
{
    let fails = arith_fails(op);
    let px = point(x);
    let py = point(y);
    lemma_total_single((x, 1nat));
    lemma_total_single((y, 1nat));
    assert(total_weight(px) * total_weight(py) == 1) by (nonlinear_arith)
        requires
            total_weight(px) == 1,
            total_weight(py) == 1,
    ;
    if arith_fault(op, x, y) is Some {
        assert(fails(px[0].0, py[0].0));
        lemma_some_failure(px, py, fails, 0, 0, 1);
        lemma_first_failure_fails(px, py, fails, 1);
    } else {
        assert forall|i: int, j: int| 0 <= i < px.len() && 0 <= j < py.len() implies !fails(
            px[i].0,
            py[j].0,
        ) by {}
        crate::distr::lemma_no_failure(px, py, fails, 1);
        crate::distr::lemma_combined_point(x, y, arith_fn(op));
    }
}

} // verus!
