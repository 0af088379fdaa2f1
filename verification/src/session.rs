//! One line in, one value or error out: the whole way from the source line
//! to the value.

use crate::env::{Env, EnvModel};
use crate::error::{chained, ConcatErr, Error, ErrorKind, ErrorModel, Origin};
use crate::eval::{eval_of, MAX_DEPTH};
use crate::operations::{value_result, Outcome};
use crate::parse::{line_of, parse_line};
use crate::ptokens::failure_model;
use crate::symbols::{Symbol, SymbolModel};
use crate::typing::type_of;
use vstd::prelude::*;

verus! {

/// The context that the session puts around an error of the type checker
/// or of the evaluator.
pub open spec fn session_context(reason: Seq<char>) -> ErrorModel {
    ErrorModel { reason, opt_span: None, kind: ErrorKind::Context, origin: Origin::Session }
}

/// What a parsed statement gives in an environment: it is type-checked and
/// then evaluated. An error of either step is wrapped in the context of the
/// step: it keeps its reason as a trace and its kind, and its origin is the
/// session. A statement that does not type-check leaves the environment as
/// it was.
pub open spec fn checked_of(ast: SymbolModel, env: EnvModel) -> Outcome {
    match type_of(ast, env.vars) {
        Err(e) => Outcome {
            value: Err(chained(e, session_context("type checker failed"@))),
            env,
        },
        Ok(_) => {
            let o = eval_of(ast, env, MAX_DEPTH as nat);
            match o.value {
                Err(e) => Outcome {
                    value: Err(chained(e, session_context("evaluator failed"@))),
                    env: o.env,
                },
                Ok(_) => o,
            }
        },
    }
}

/// The context that is put around an error of the type checker or of the
/// evaluator.
fn context(reason: &str) -> (e: Error)
    ensures
        e@ == session_context(reason@),
{
    Error::fail(ErrorKind::Context, Origin::Session, String::from_str(reason))
}

/// Takes a line of input to its value: parses it, checks its type and
/// evaluates it in the environment.
///
/// An error of the parser comes out as it is, with its span, and leaves the
/// environment as it was. An error of the type checker or of the evaluator
/// comes out wrapped in the context in which it arose: it keeps its kind and
/// its reason, which names what it is about, and its origin is the session.
pub fn parse_analyze_evaluate(line: &str, env: &mut Env) -> (r: Result<Symbol, Error>)
    ensures
        match line_of(line@) {
            Err(f) => r matches Err(e) && e@ == failure_model(f) && final(env)@ == old(env)@,
            Ok(ast) => value_result(r, checked_of(ast, old(env)@).value) && final(env)@
                == checked_of(ast, old(env)@).env,
        },
{
    let ast = match parse_line(line, env) {
        Ok(ast) => ast,
        Err(e) => {
            return Err(e);
        },
    };
    match ast.type_check(env).concat_err(context("type checker failed")) {
        Ok(_) => {},
        Err(e) => {
            return Err(e);
        },
    }
    ast.eval(env).concat_err(context("evaluator failed"))
}

} // verus!
