//! The type checker: a read-only walk over a syntax tree that gives its type
//! or the first type error, and predicts what evaluation will do with
//! functions that are given fewer arguments than they await.

use crate::env::Env;
use crate::error::{Error, ErrorKind, ErrorModel, Origin};
use crate::symbols::{repr_text, Symbol, SymbolModel};
use crate::text::{int_digits, push_int, push_str, string_of};
use crate::type_info::{
    coercible, curried, lemma_fn_type_view, named_type, type_text, types_model, Type, TypeModel,
};
use vstd::prelude::*;

verus! {

/// The bindings of an environment: each bound name with its value and type.
pub type Vars = Map<Seq<char>, (SymbolModel, TypeModel)>;

/// An error of the type checker: it has no span.
pub open spec fn type_fault(kind: ErrorKind, reason: Seq<char>) -> ErrorModel {
    ErrorModel { reason, opt_span: None, kind, origin: Origin::TypeChecker }
}

/// The error for a function that is applied to more arguments than it
/// awaits: it shows the function and names both counts.
pub open spec fn oversupplied(target: Seq<char>, awaited: nat, given: nat) -> ErrorModel {
    type_fault(
        ErrorKind::TooManyArgs,
        "too many arguments applied to function ("@ + target + (" expected "@ + int_digits(
            awaited as int,
        ) + ", gave it "@ + int_digits(given as int) + ")"@),
    )
}

/// The error for an argument whose type cannot be coerced to the type that
/// the function expects at its position: it shows the function and names the
/// position and both types.
pub open spec fn mismatch(
    target: Seq<char>,
    position: int,
    expected: TypeModel,
    found: TypeModel,
) -> ErrorModel {
    type_fault(
        ErrorKind::Signature,
        "incorrect signature for function `"@ + target + ("` at position "@ + int_digits(position)
            + ": expected type "@ + type_text(expected) + ", found type "@ + type_text(found)),
    )
}

/// The error for the application of something that is no function: it
/// shows what was applied and names its type.
pub open spec fn not_applicable(target: Seq<char>, found: TypeModel) -> ErrorModel {
    type_fault(
        ErrorKind::NotAFunction,
        "not a function: "@ + target + (", found type "@ + type_text(found)),
    )
}

/// The error for a name without a binding: it names the name.
pub open spec fn unbound(name: Seq<char>) -> ErrorModel {
    type_fault(ErrorKind::Unbound, "no binding in current namespace for "@ + name)
}

/// The error for an annotation that names no type: it shows the annotation.
pub open spec fn invalid_type(annotation: Seq<char>) -> ErrorModel {
    type_fault(ErrorKind::InvalidType, "invalid type: "@ + annotation)
}

/// The error for a value whose type cannot be coerced to the annotated
/// type: it names both types.
pub open spec fn annotation_mismatch(annotation: Seq<char>, concrete: TypeModel) -> ErrorModel {
    type_fault(
        ErrorKind::Annotation,
        "annotated type "@ + annotation + (" does not match concrete type "@ + type_text(
            concrete,
        )),
    )
}

/// The first type error among the first `n` of the given symbols.
pub open spec fn first_fault(v: Seq<SymbolModel>, vars: Vars, n: int) -> Option<ErrorModel>
    decreases v, n,
{
    if n <= 0 || n > v.len() {
        None
    } else {
        match first_fault(v, vars, n - 1) {
            Some(e) => Some(e),
            None => match type_of(v[n - 1], vars) {
                Err(e) => Some(e),
                Ok(_) => None,
            },
        }
    }
}

/// The first fault among the first `n` arguments of an application of the
/// function that is written `target`: a type error of the argument, or a
/// type that cannot be coerced to the type that the function expects at that
/// position.
pub open spec fn args_fault(
    args: Seq<SymbolModel>,
    expected: Seq<TypeModel>,
    target: Seq<char>,
    vars: Vars,
    n: int,
) -> Option<ErrorModel>
    decreases args, n,
{
    if n <= 0 || n > args.len() {
        None
    } else {
        match args_fault(args, expected, target, vars, n - 1) {
            Some(e) => Some(e),
            None => match type_of(args[n - 1], vars) {
                Err(e) => Some(e),
                Ok(found) => if coercible(found, expected[n - 1]) {
                    None
                } else {
                    Some(mismatch(target, n - 1, expected[n - 1], found))
                },
            },
        }
    }
}

/// The type of a symbol under the given bindings, or the first type error.
///
/// A literal has its own type and a function value the type it carries. A
/// name has the type it is bound with, and is an error where it has no
/// binding. A sequence, once its elements are checked, is a sequence of
/// anything. An application of something of type `Any` is of type `Any`; an
/// application of a function checks each argument against the input at its
/// position, and has the output type where all inputs are supplied and the
/// curried function type where some are left. An assignment checks its
/// expression, and against the declared type where there is one, and is
/// itself of type `Nil`.
pub open spec fn type_of(s: SymbolModel, vars: Vars) -> Result<TypeModel, ErrorModel>
    decreases s, 0int,
{
    match s {
        SymbolModel::Nil => Ok(TypeModel::Nil),
        SymbolModel::Num(_) => Ok(TypeModel::Num),
        SymbolModel::Distr(_) => Ok(TypeModel::Distr),
        SymbolModel::Fn(f) => Ok(TypeModel::Fn(f.type_)),
        SymbolModel::Sequence(v) => match first_fault(v, vars, v.len() as int) {
            Some(e) => Err(e),
            None => Ok(TypeModel::Sequence(Box::new(TypeModel::Any))),
        },
        SymbolModel::Apply { target, args } => match type_of(*target, vars) {
            Err(e) => Err(e),
            Ok(TypeModel::Any) => Ok(TypeModel::Any),
            Ok(TypeModel::Fn(f)) => if args.len() > f.in_types.len() {
                Err(oversupplied(repr_text(*target), f.in_types.len(), args.len()))
            } else {
                match args_fault(args, f.in_types, repr_text(*target), vars, args.len() as int) {
                    Some(e) => Err(e),
                    None => if args.len() < f.in_types.len() {
                        Ok(TypeModel::Fn(curried(f, args.len() as int)))
                    } else {
                        Ok(*f.out_type)
                    },
                }
            },
            Ok(other) => Err(not_applicable(repr_text(*target), other)),
        },
        SymbolModel::Text(name) => if vars.contains_key(name) {
            Ok(vars[name].1)
        } else {
            Err(unbound(name))
        },
        SymbolModel::Assigner { name, def_type, expr } => match type_of(*expr, vars) {
            Err(e) => Err(e),
            Ok(concrete) => match def_type {
                None => Ok(TypeModel::Nil),
                Some(t) => match named_type(t) {
                    None => Err(invalid_type(t)),
                    Some(declared) => if coercible(concrete, declared) {
                        Ok(TypeModel::Nil)
                    } else {
                        Err(annotation_mismatch(t, concrete))
                    },
                },
            },
        },
    }
}

/// Whether the result of the type checker is what the typing rules give.
pub open spec fn type_result(r: Result<Type, Error>, want: Result<TypeModel, ErrorModel>) -> bool {
    match want {
        Ok(t) => r matches Ok(ty) && ty@ == t,
        Err(m) => r matches Err(e) && e@ == m,
    }
}

/// An error of the type checker. The reason is `lead`, followed by `subject`
/// and by `tail`.
fn type_error(kind: ErrorKind, lead: &str, subject: &str, tail: &str) -> (e: Error)
    ensures
        e@ == type_fault(kind, lead@ + subject@ + tail@),
{
    let mut buf: Vec<char> = Vec::new();
    push_str(&mut buf, lead);
    push_str(&mut buf, subject);
    push_str(&mut buf, tail);
    assert(buf@ =~= lead@ + subject@ + tail@);
    Error::fail(kind, Origin::TypeChecker, string_of(&buf))
}

/// An error of the type checker. The reason is `lead`, followed by
/// `subject`.
fn type_error_about(kind: ErrorKind, lead: &str, subject: &str) -> (e: Error)
    ensures
        e@ == type_fault(kind, lead@ + subject@),
{
    let mut buf: Vec<char> = Vec::new();
    push_str(&mut buf, lead);
    push_str(&mut buf, subject);
    assert(buf@ =~= lead@ + subject@);
    Error::fail(kind, Origin::TypeChecker, string_of(&buf))
}

/// Checks the types of the symbols of a list from left to right.
fn check_all(v: &Vec<Symbol>, env: &Env) -> (r: Result<(), Error>)
    ensures
        match first_fault(crate::symbols::symbols_model(v@), env@.vars, v@.len() as int) {
            None => r is Ok,
            Some(m) => r matches Err(e) && e@ == m,
        },
    decreases v, 0nat,
{
    let ghost m = crate::symbols::symbols_model(v@);
    let mut i: usize = 0;
    while i < v.len()
        invariant
            i <= v.len(),
            m == crate::symbols::symbols_model(v@),
            m.len() == v@.len(),
            first_fault(m, env@.vars, i as int) is None,
        decreases v.len() - i,
    {
        proof {
            crate::symbols::lemma_symbols_model(v@);
        }
        match check(&v[i], env) {
            Ok(_) => {},
            Err(e) => {
                proof {
                    lemma_first_fault_stays(m, env@.vars, i + 1, v@.len() as int);
                }
                return Err(e);
            },
        }
        i += 1;
    }
    Ok(())
}

/// Once a fault is found it stays the first however far the search goes on.
pub proof fn lemma_first_fault_stays(v: Seq<SymbolModel>, vars: Vars, i: int, n: int)
    requires
        0 <= i <= n <= v.len(),
        first_fault(v, vars, i) is Some,
    ensures
        first_fault(v, vars, n) == first_fault(v, vars, i),
    decreases n - i,
{
    if i < n {
        lemma_first_fault_stays(v, vars, i, n - 1);
    }
}

/// Once a fault is found it stays the first however far the search goes on.
pub proof fn lemma_args_fault_stays(
    args: Seq<SymbolModel>,
    expected: Seq<TypeModel>,
    target: Seq<char>,
    vars: Vars,
    i: int,
    n: int,
)
    requires
        0 <= i <= n <= args.len(),
        args_fault(args, expected, target, vars, i) is Some,
    ensures
        args_fault(args, expected, target, vars, n) == args_fault(args, expected, target, vars, i),
    decreases n - i,
{
    if i < n {
        lemma_args_fault_stays(args, expected, target, vars, i, n - 1);
    }
}

/// Checks the arguments of an application against the inputs that the
/// function expects.
fn check_args(args: &Vec<Symbol>, expected: &Vec<Type>, target: &str, env: &Env) -> (r: Result<
    (),
    Error,
>)
    requires
        args@.len() <= expected@.len(),
    ensures
        match args_fault(
            crate::symbols::symbols_model(args@),
            types_model(expected@),
            target@,
            env@.vars,
            args@.len() as int,
        ) {
            None => r is Ok,
            Some(m) => r matches Err(e) && e@ == m,
        },
    decreases args, 0nat,
{
    let ghost m = crate::symbols::symbols_model(args@);
    let ghost want = types_model(expected@);
    let mut i: usize = 0;
    while i < args.len()
        invariant
            i <= args.len(),
            args@.len() <= expected@.len(),
            m == crate::symbols::symbols_model(args@),
            want == types_model(expected@),
            m.len() == args@.len(),
            args_fault(m, want, target@, env@.vars, i as int) is None,
        decreases args.len() - i,
    {
        proof {
            crate::symbols::lemma_symbols_model(args@);
        }
        let fault = match check(&args[i], env) {
            Ok(found) => {
                if found.coercible_to(&expected[i]) {
                    None
                } else {
                    let mut tail: Vec<char> = Vec::new();
                    push_str(&mut tail, "` at position ");
                    push_int(&mut tail, i as i128);
                    push_str(&mut tail, ": expected type ");
                    push_str(&mut tail, expected[i].to_string().as_str());
                    push_str(&mut tail, ", found type ");
                    push_str(&mut tail, found.to_string().as_str());
                    assert(tail@ =~= "` at position "@ + int_digits(i as int)
                        + ": expected type "@ + type_text(expected@[i as int]@)
                        + ", found type "@ + type_text(found@));
                    assert(want[i as int] == expected@[i as int]@);
                    Some(
                        type_error(
                            ErrorKind::Signature,
                            "incorrect signature for function `",
                            target,
                            string_of(&tail).as_str(),
                        ),
                    )
                }
            },
            Err(e) => Some(e),
        };
        match fault {
            None => {},
            Some(e) => {
                proof {
                    lemma_args_fault_stays(
                        m,
                        want,
                        target@,
                        env@.vars,
                        i + 1,
                        args@.len() as int,
                    );
                }
                return Err(e);
            },
        }
        i += 1;
    }
    Ok(())
}

/// The type of a symbol in the environment, or the first type error.
fn check(s: &Symbol, env: &Env) -> (r: Result<Type, Error>)
    ensures
        type_result(r, type_of(s@, env@.vars)),
    decreases s,
{
    match s {
        Symbol::Nil => Ok(Type::Nil),
        Symbol::Num(_) => Ok(Type::Num),
        Symbol::Distr(_) => Ok(Type::Distr),
        Symbol::Fn(f) => {
            let t = f.type_.clone();
            proof {
                lemma_fn_type_view(t);
            }
            Ok(Type::Fn(t))
        },
        Symbol::Sequence(v) => {
            proof {
                crate::symbols::lemma_symbols_model(v@);
            }
            match check_all(v, env) {
                Ok(_) => {
                    let inner = Type::Any;
                    assert(inner@ == TypeModel::Any);
                    Ok(Type::Sequence(Box::new(inner)))
                },
                Err(e) => Err(e),
            }
        },
        Symbol::Apply { target, args } => {
            let type_ = match check(target, env) {
                Ok(t) => t,
                Err(e) => {
                    return Err(e);
                },
            };
            match type_ {
                Type::Any => Ok(Type::Any),
                Type::Fn(fn_type) => {
                    proof {
                        lemma_fn_type_view(fn_type);
                        crate::symbols::lemma_symbols_model(args@);
                    }
                    if args.len() > fn_type.in_types.len() {
                        let mut tail: Vec<char> = Vec::new();
                        push_str(&mut tail, " expected ");
                        push_int(&mut tail, fn_type.in_types.len() as i128);
                        push_str(&mut tail, ", gave it ");
                        push_int(&mut tail, args.len() as i128);
                        push_str(&mut tail, ")");
                        assert(tail@ =~= " expected "@ + int_digits(
                            fn_type.in_types@.len() as int,
                        ) + ", gave it "@ + int_digits(args@.len() as int) + ")"@);
                        return Err(
                            type_error(
                                ErrorKind::TooManyArgs,
                                "too many arguments applied to function (",
                                target.repr().as_str(),
                                string_of(&tail).as_str(),
                            ),
                        );
                    }
                    match check_args(args, &fn_type.in_types, target.repr().as_str(), env) {
                        Ok(_) => {},
                        Err(e) => {
                            return Err(e);
                        },
                    }
                    if args.len() < fn_type.in_types.len() {
                        let rest = fn_type.curry(args.len());
                        proof {
                            lemma_fn_type_view(rest);
                        }
                        Ok(Type::Fn(rest))
                    } else {
                        Ok(*fn_type.out_type)
                    }
                },
                other => {
                    let mut tail: Vec<char> = Vec::new();
                    push_str(&mut tail, ", found type ");
                    push_str(&mut tail, other.to_string().as_str());
                    assert(tail@ =~= ", found type "@ + type_text(other@));
                    Err(
                        type_error(
                            ErrorKind::NotAFunction,
                            "not a function: ",
                            target.repr().as_str(),
                            string_of(&tail).as_str(),
                        ),
                    )
                },
            }
        },
        Symbol::Text(name) => {
            match env.lookup_var(name.as_str()) {
                Some((_, type_)) => Ok(type_.clone()),
                None => {
                    Err(
                        type_error_about(
                            ErrorKind::Unbound,
                            "no binding in current namespace for ",
                            name.as_str(),
                        ),
                    )
                },
            }
        },
        Symbol::Assigner { name: _, def_type, expr } => {
            let concrete = match check(expr, env) {
                Ok(t) => t,
                Err(e) => {
                    return Err(e);
                },
            };
            match def_type {
                None => Ok(Type::Nil),
                Some(annotation) => {
                    match Type::try_from(annotation.as_str()) {
                        None => {
                            Err(
                                type_error_about(
                                    ErrorKind::InvalidType,
                                    "invalid type: ",
                                    annotation.as_str(),
                                ),
                            )
                        },
                        Some(declared) => {
                            if concrete.coercible_to(&declared) {
                                Ok(Type::Nil)
                            } else {
                                let mut tail: Vec<char> = Vec::new();
                                push_str(&mut tail, " does not match concrete type ");
                                push_str(&mut tail, concrete.to_string().as_str());
                                assert(tail@ =~= " does not match concrete type "@ + type_text(
                                    concrete@,
                                ));
                                Err(
                                    type_error(
                                        ErrorKind::Annotation,
                                        "annotated type ",
                                        annotation.as_str(),
                                        string_of(&tail).as_str(),
                                    ),
                                )
                            }
                        },
                    }
                },
            }
        },
    }
}

impl Symbol {
    /// The type of the symbol in the environment, or the first type error.
    /// The environment is read only.
    pub fn type_check(&self, env: &Env) -> (r: Result<Type, Error>)
        ensures
            type_result(r, type_of(self@, env@.vars)),
    {
        check(self, env)
    }
}

} // verus!
