//! The evaluator: a walk over a syntax tree that gives a value, applies
//! functions, curries those that are given fewer arguments than they await,
//! and binds names in the environment.
//!
//! Arguments of a function are kept unevaluated until the last one arrives,
//! and names in them are looked up when they are evaluated. A function can
//! therefore come to evaluate itself without end; evaluation counts how deep
//! it nests and gives up with an error at a limit.

use crate::env::{Env, EnvModel};
use crate::error::{chained, Error, ErrorKind, ErrorModel, Origin};
use crate::operations::{evaluator_fault, native_result, value_result, Op, Outcome};
use crate::symbols::{
    copy_symbols, fn_val_text, lemma_symbols_model, lemma_symbols_model_push, repr_text,
    symbols_model, FnVal, FnValModel, Symbol, SymbolModel,
};
use crate::text::{int_digits, push_int, push_str, string_of};
use crate::type_info::{curried, lemma_fn_type_view, TypeModel};
use crate::typing::type_of;
use vstd::prelude::*;

verus! {

/// How deep evaluation may nest when no other limit is given.
pub const MAX_DEPTH: usize = 512;

/// What the evaluation of a list gives: the values or the first error, and
/// the environment it leaves.
pub struct ListOutcome {
    pub values: Result<Seq<SymbolModel>, ErrorModel>,
    pub env: EnvModel,
}

/// How many assignments a symbol is nested in at its top: an assignment
/// evaluates its expression without nesting deeper.
pub open spec fn assign_height(s: SymbolModel) -> nat
    decreases s,
{
    match s {
        SymbolModel::Assigner { name, def_type, expr } => 1 + assign_height(*expr),
        _ => 0,
    }
}

/// The error for an evaluation that nests deeper than the limit: it shows
/// the symbol at which it gave up.
pub open spec fn too_deep(s: SymbolModel) -> ErrorModel {
    evaluator_fault(ErrorKind::Depth, "evaluation nests too deep at "@ + repr_text(s))
}

/// The error for the application of a value that is no function value: it
/// shows the value.
pub open spec fn not_a_function(value: SymbolModel) -> ErrorModel {
    evaluator_fault(ErrorKind::NotAFunction, "not a function: "@ + repr_text(value))
}

/// The error for a name without a binding: it names the name.
pub open spec fn no_binding(name: Seq<char>) -> ErrorModel {
    evaluator_fault(ErrorKind::Unbound, "no binding in current namespace for "@ + name)
}

/// The context that an assignment puts around the type error of its value.
pub open spec fn untyped_value() -> ErrorModel {
    evaluator_fault(ErrorKind::Context, "the value has no type"@)
}

/// The error for a function value that is given more arguments than it
/// awaits: it shows the function value and names both counts.
pub open spec fn oversupply(f: FnValModel, given: nat) -> ErrorModel {
    evaluator_fault(ErrorKind::TooManyArgs, oversupply_text(f, given))
}

/// The evaluation of the first `n` symbols of a list, from left to right,
/// each in the environment that the one before it has left. The first error
/// ends it.
pub open spec fn eval_all(v: Seq<SymbolModel>, env: EnvModel, depth: nat, n: int) -> ListOutcome
    decreases depth, 1int, n,
{
    if n <= 0 || n > v.len() {
        ListOutcome { values: Ok(Seq::empty()), env }
    } else {
        let before = eval_all(v, env, depth, n - 1);
        match before.values {
            Err(_) => before,
            Ok(values) => {
                let o = eval_of(v[n - 1], before.env, depth);
                match o.value {
                    Err(e) => ListOutcome { values: Err(e), env: o.env },
                    Ok(x) => ListOutcome { values: Ok(values.push(x)), env: o.env },
                }
            },
        }
    }
}

/// What a native operation gives on arguments that are complete but not
/// yet evaluated: they are evaluated from left to right, and the operation is
/// carried out on the values.
pub open spec fn complete_of(ptr: Op, all: Seq<SymbolModel>, env: EnvModel, depth: nat) -> Outcome
    decreases depth, 2int, 0int,
{
    let evaluated = eval_all(all, env, depth, all.len() as int);
    match evaluated.values {
        Err(e) => Outcome { value: Err(e), env: evaluated.env },
        Ok(values) => native_result(ptr, values, evaluated.env),
    }
}

/// The application of a function value to arguments.
///
/// With fewer arguments than it awaits, the result is a function value with
/// the same operation, the curried type, and the new arguments, unevaluated,
/// after those it held. With as many as it awaits, all arguments are
/// evaluated from left to right, those it held first, and the operation is
/// carried out on the values. With more, it fails with `TooManyArgs`.
pub open spec fn apply_of(
    f: FnValModel,
    args: Seq<SymbolModel>,
    env: EnvModel,
    depth: nat,
) -> Outcome
    decreases depth, 3int, 0int,
{
    if args.len() < f.type_.in_types.len() {
        Outcome {
            value: Ok(
                SymbolModel::Fn(
                    FnValModel {
                        ptr: f.ptr,
                        type_: curried(f.type_, args.len() as int),
                        exprs: f.exprs + args,
                    },
                ),
            ),
            env,
        }
    } else if args.len() == f.type_.in_types.len() {
        complete_of(f.ptr, f.exprs + args, env, depth)
    } else {
        Outcome { value: Err(oversupply(f, args.len())), env }
    }
}

/// The evaluation of a symbol in an environment, nesting no deeper than
/// `depth`.
///
/// Literals and function values stand for themselves. A name gives the value
/// it is bound to and fails with `Unbound` where it has none. A sequence
/// gives the sequence of its evaluated elements. An application evaluates its
/// target, which has to give a function value, and applies that to the
/// arguments. An assignment evaluates its expression, at the same depth as
/// itself, derives the type of the value, binds the name to both and gives
/// `Nil`; the other bindings stay as the expression has left them.
pub open spec fn eval_of(s: SymbolModel, env: EnvModel, depth: nat) -> Outcome
    decreases depth, 0int, assign_height(s),
{
    if depth == 0 {
        Outcome { value: Err(too_deep(s)), env }
    } else {
        let inner = (depth - 1) as nat;
        match s {
            SymbolModel::Nil | SymbolModel::Num(_) | SymbolModel::Distr(_) | SymbolModel::Fn(
                _,
            ) => Outcome { value: Ok(s), env },
            SymbolModel::Sequence(v) => {
                let all = eval_all(v, env, inner, v.len() as int);
                match all.values {
                    Err(e) => Outcome { value: Err(e), env: all.env },
                    Ok(values) => Outcome {
                        value: Ok(SymbolModel::Sequence(values)),
                        env: all.env,
                    },
                }
            },
            SymbolModel::Apply { target, args } => {
                let o = eval_of(*target, env, inner);
                match o.value {
                    Err(_) => o,
                    Ok(SymbolModel::Fn(f)) => apply_of(f, args, o.env, inner),
                    Ok(other) => Outcome { value: Err(not_a_function(other)), env: o.env },
                }
            },
            SymbolModel::Text(name) => if env.vars.contains_key(name) {
                Outcome { value: Ok(env.vars[name].0), env }
            } else {
                Outcome { value: Err(no_binding(name)), env }
            },
            SymbolModel::Assigner { name, def_type, expr } => {
                let o = eval_of(*expr, env, depth);
                match o.value {
                    Err(_) => o,
                    Ok(value) => match type_of(value, o.env.vars) {
                        Err(e) => Outcome { value: Err(chained(e, untyped_value())), env: o.env },
                        Ok(t) => Outcome {
                            value: Ok(SymbolModel::Nil),
                            env: EnvModel {
                                vars: o.env.vars.insert(name, (value, t)),
                                output: o.env.output,
                            },
                        },
                    },
                }
            },
        }
    }
}

/// The reason of the error for a function value that is given more
/// arguments than it awaits: it shows the function value and names how many
/// arguments it awaits and how many it was given.
pub open spec fn oversupply_text(f: FnValModel, given: nat) -> Seq<char> {
    "function was applied too many arguments: "@ + (fn_val_text(f) + " expected "@ + int_digits(
        f.type_.in_types.len() as int,
    ) + " more, was given "@ + int_digits(given as int))
}

/// Once the evaluation of a list has failed it stays as it is however far it
/// is taken.
pub proof fn lemma_eval_all_stays(v: Seq<SymbolModel>, env: EnvModel, depth: nat, i: int, n: int)
    requires
        0 <= i <= n <= v.len(),
        eval_all(v, env, depth, i).values is Err,
    ensures
        eval_all(v, env, depth, n) == eval_all(v, env, depth, i),
    decreases n - i,
{
    if i < n {
        lemma_eval_all_stays(v, env, depth, i, n - 1);
    }
}

/// An error of the evaluator. The reason is `lead`, followed by `subject`.
fn eval_error(kind: ErrorKind, lead: &str, subject: &str) -> (e: Error)
    ensures
        e@ == evaluator_fault(kind, lead@ + subject@),
{
    let mut buf: Vec<char> = Vec::new();
    push_str(&mut buf, lead);
    push_str(&mut buf, subject);
    Error::fail(kind, Origin::Evaluator, string_of(&buf))
}

/// Evaluates the symbols of a list from left to right.
fn eval_list(v: &Vec<Symbol>, env: &mut Env, depth: usize) -> (r: Result<Vec<Symbol>, Error>)
    ensures
        match eval_all(symbols_model(v@), old(env)@, depth as nat, v@.len() as int).values {
            Ok(values) => r matches Ok(out) && symbols_model(out@) == values,
            Err(m) => r matches Err(e) && e@ == m,
        },
        final(env)@ == eval_all(symbols_model(v@), old(env)@, depth as nat, v@.len() as int).env,
    decreases depth, 1nat, v.len(),
{
    let ghost m = symbols_model(v@);
    let ghost start = env@;
    let mut out: Vec<Symbol> = Vec::new();
    let mut i: usize = 0;
    proof {
        lemma_symbols_model(v@);
        assert(symbols_model(out@) =~= Seq::<SymbolModel>::empty());
    }
    while i < v.len()
        invariant
            i <= v.len(),
            start == old(env)@,
            m == symbols_model(v@),
            m.len() == v@.len(),
            forall|k: int| 0 <= k < v@.len() ==> #[trigger] m[k] == v@[k]@,
            eval_all(m, start, depth as nat, i as int).values == Ok::<
                Seq<SymbolModel>,
                ErrorModel,
            >(symbols_model(out@)),
            eval_all(m, start, depth as nat, i as int).env == env@,
        decreases v.len() - i,
    {
        let ghost before = eval_all(m, start, depth as nat, i as int);
        let ghost o = eval_of(m[i as int], before.env, depth as nat);
        match eval_within(&v[i], env, depth) {
            Ok(x) => {
                proof {
                    lemma_symbols_model_push(out@, x);
                    assert(eval_all(m, start, depth as nat, i + 1) == (ListOutcome {
                        values: Ok(before.values->Ok_0.push(x@)),
                        env: o.env,
                    }));
                }
                out.push(x);
            },
            Err(e) => {
                proof {
                    assert(eval_all(m, start, depth as nat, i + 1) == (ListOutcome {
                        values: Err(o.value->Err_0),
                        env: o.env,
                    }));
                    lemma_eval_all_stays(m, start, depth as nat, i + 1, v@.len() as int);
                }
                return Err(e);
            },
        }
        i += 1;
    }
    Ok(out)
}

/// Applies a function value to arguments, nesting no deeper than `depth`.
fn apply_within(f: &FnVal, args: &[Symbol], env: &mut Env, depth: usize) -> (r: Result<
    Symbol,
    Error,
>)
    ensures
        value_result(r, apply_of(f@, symbols_model(args@), old(env)@, depth as nat).value),
        final(env)@ == apply_of(f@, symbols_model(args@), old(env)@, depth as nat).env,
    decreases depth, 2nat, 0nat,
{
    let given = args.len();
    let awaited = f.type_.in_types.len();
    proof {
        lemma_fn_type_view(f.type_);
        lemma_symbols_model(args@);
        lemma_symbols_model(f.exprs@);
    }
    if given > awaited {
        let mut tail: Vec<char> = Vec::new();
        push_str(&mut tail, f.repr().as_str());
        push_str(&mut tail, " expected ");
        push_int(&mut tail, awaited as i128);
        push_str(&mut tail, " more, was given ");
        push_int(&mut tail, given as i128);
        assert(tail@ =~= fn_val_text(f@) + " expected "@ + int_digits(awaited as int)
            + " more, was given "@ + int_digits(given as int));
        return Err(
            eval_error(
                ErrorKind::TooManyArgs,
                "function was applied too many arguments: ",
                string_of(&tail).as_str(),
            ),
        );
    }
    let mut new_exprs = copy_symbols(&f.exprs);
    let mut i: usize = 0;
    proof {
        lemma_symbols_model(new_exprs@);
        assert(symbols_model(new_exprs@).len() == symbols_model(f.exprs@).len());
        assert forall|k: int| 0 <= k < f.exprs@.len() implies (#[trigger] new_exprs@[k])@
            == f.exprs@[k]@ by {
            assert(symbols_model(new_exprs@)[k] == symbols_model(f.exprs@)[k]);
        }
    }
    while i < given
        invariant
            i <= given,
            given == args@.len(),
            new_exprs@.len() == f.exprs@.len() + i,
            forall|k: int| 0 <= k < f.exprs@.len() ==> (#[trigger] new_exprs@[k])@ == f.exprs@[k]@,
            forall|k: int| 0 <= k < i ==> (#[trigger] new_exprs@[f.exprs@.len() + k])@ == args@[k]@,
        decreases given - i,
    {
        proof {
            lemma_symbols_model(new_exprs@);
        }
        new_exprs.push(args[i].clone());
        i += 1;
    }
    proof {
        lemma_symbols_model(new_exprs@);
        let held = f.exprs@.len() as int;
        let joint = f@.exprs + symbols_model(args@);
        assert(symbols_model(new_exprs@).len() == joint.len());
        assert forall|k: int| 0 <= k < joint.len() implies symbols_model(new_exprs@)[k]
            == joint[k] by {
            if k >= held {
                assert(new_exprs@[held + (k - held)]@ == args@[k - held]@);
            } else {
                assert(new_exprs@[k]@ == f.exprs@[k]@);
            }
        }
        assert(symbols_model(new_exprs@) =~= joint);
    }
    if given < awaited {
        let rest = FnVal { ptr: f.ptr, type_: f.type_.curry(given), exprs: new_exprs };
        Ok(Symbol::Fn(rest))
    } else {
        match eval_list(&new_exprs, env, depth) {
            Ok(values) => f.ptr.eval(values, env),
            Err(e) => Err(e),
        }
    }
}

/// Evaluates a symbol, nesting no deeper than `depth`.
pub fn eval_within(s: &Symbol, env: &mut Env, depth: usize) -> (r: Result<Symbol, Error>)
    ensures
        value_result(r, eval_of(s@, old(env)@, depth as nat).value),
        final(env)@ == eval_of(s@, old(env)@, depth as nat).env,
    decreases depth, 0nat, assign_height(s@),
{
    if depth == 0 {
        return Err(
            eval_error(ErrorKind::Depth, "evaluation nests too deep at ", s.repr().as_str()),
        );
    }
    match s {
        Symbol::Nil | Symbol::Num(_) | Symbol::Distr(_) | Symbol::Fn(_) => Ok(s.clone()),
        Symbol::Sequence(v) => {
            proof {
                lemma_symbols_model(v@);
            }
            match eval_list(v, env, depth - 1) {
                Ok(values) => Ok(Symbol::Sequence(values)),
                Err(e) => Err(e),
            }
        },
        Symbol::Apply { target, args } => {
            let func = match eval_within(target, env, depth - 1) {
                Ok(f) => f,
                Err(e) => {
                    return Err(e);
                },
            };
            match func {
                Symbol::Fn(fn_val) => apply_within(&fn_val, args.as_slice(), env, depth - 1),
                other => {
                    Err(
                        eval_error(
                            ErrorKind::NotAFunction,
                            "not a function: ",
                            other.repr().as_str(),
                        ),
                    )
                },
            }
        },
        Symbol::Text(name) => {
            match env.lookup_var(name.as_str()) {
                Some((value, _)) => Ok(value.clone()),
                None => {
                    Err(
                        eval_error(
                            ErrorKind::Unbound,
                            "no binding in current namespace for ",
                            name.as_str(),
                        ),
                    )
                },
            }
        },
        Symbol::Assigner { name, def_type: _, expr } => {
            let value = match eval_within(expr, env, depth) {
                Ok(v) => v,
                Err(e) => {
                    return Err(e);
                },
            };
            let type_ = match value.type_check(env) {
                Ok(t) => t,
                Err(e) => {
                    return Err(
                        e.concat(
                            Error::fail(
                                ErrorKind::Context,
                                Origin::Evaluator,
                                String::from_str("the value has no type"),
                            ),
                        ),
                    );
                },
            };
            env.bind_var(name.clone(), value, type_);
            Ok(Symbol::Nil)
        },
    }
}

impl FnVal {
    /// Applies the function value to arguments, nesting no deeper than the
    /// default limit: it curries where arguments are left to come, and
    /// evaluates all arguments and carries out the operation where they are
    /// complete. Given more arguments than it awaits, it fails with an error
    /// that names both counts.
    pub fn apply(&self, args: &[Symbol], env: &mut Env) -> (r: Result<Symbol, Error>)
        ensures
            value_result(
                r,
                apply_of(self@, symbols_model(args@), old(env)@, MAX_DEPTH as nat).value,
            ),
            final(env)@ == apply_of(self@, symbols_model(args@), old(env)@, MAX_DEPTH as nat).env,
    {
        apply_within(self, args, env, MAX_DEPTH)
    }
}

impl Symbol {
    /// Evaluates the symbol in the environment, nesting no deeper than the
    /// default limit. Assignments bind names in the environment and views
    /// put lines out in it.
    pub fn eval(&self, env: &mut Env) -> (r: Result<Symbol, Error>)
        ensures
            value_result(r, eval_of(self@, old(env)@, MAX_DEPTH as nat).value),
            final(env)@ == eval_of(self@, old(env)@, MAX_DEPTH as nat).env,
    {
        eval_within(self, env, MAX_DEPTH)
    }
}

/// Currying is not observable. A function value that is given fewer
/// arguments than it awaits gives a function value that awaits that many
/// fewer inputs and leaves the environment alone; applying that to further
/// arguments, no more than it still awaits, gives what applying the first
/// function to all arguments at once gives. With more arguments than are
/// awaited both fail, each with the error that names its own counts.
pub proof fn law_currying(
    f: FnValModel,
    first: Seq<SymbolModel>,
    rest: Seq<SymbolModel>,
    env: EnvModel,
    depth: nat,
)
    requires
        first.len() < f.type_.in_types.len(),
    ensures
        apply_of(f, first, env, depth).env == env,
        apply_of(f, first, env, depth).value matches Ok(SymbolModel::Fn(g))
            && g.type_.in_types.len() == f.type_.in_types.len() - first.len()
            && g.type_.out_type == f.type_.out_type && if rest.len() <= g.type_.in_types.len() {
            apply_of(g, rest, env, depth) == apply_of(f, first + rest, env, depth)
        } else {
            apply_of(g, rest, env, depth) == (Outcome {
                value: Err(oversupply(g, rest.len())),
                env,
            }) && apply_of(f, first + rest, env, depth) == (Outcome {
                value: Err(oversupply(f, (first + rest).len())),
                env,
            })
        },
{
    lemma_curry_first(f, first, env, depth);
    let g = curried_val(f, first);
    if rest.len() < g.type_.in_types.len() {
        lemma_curry_fewer(f, first, rest, env, depth);
    } else if rest.len() == g.type_.in_types.len() {
        lemma_curry_exact(f, first, rest, env, depth);
    } else {
        lemma_curry_more(f, first, rest, env, depth);
    }
}

/// The function value that is left when `f` is given the arguments `first`,
/// fewer than it awaits.
pub open spec fn curried_val(f: FnValModel, first: Seq<SymbolModel>) -> FnValModel {
    FnValModel { ptr: f.ptr, type_: curried(f.type_, first.len() as int), exprs: f.exprs + first }
}

/// Fewer arguments than are awaited give the curried function value.
proof fn lemma_curry_first(f: FnValModel, first: Seq<SymbolModel>, env: EnvModel, depth: nat)
    requires
        first.len() < f.type_.in_types.len(),
    ensures
        apply_of(f, first, env, depth) == (Outcome {
            value: Ok(SymbolModel::Fn(curried_val(f, first))),
            env,
        }),
        curried_val(f, first).type_.in_types.len() == f.type_.in_types.len() - first.len(),
{
}

/// Currying twice is currying once.
proof fn lemma_curry_fewer(
    f: FnValModel,
    first: Seq<SymbolModel>,
    rest: Seq<SymbolModel>,
    env: EnvModel,
    depth: nat,
)
    requires
        first.len() + rest.len() < f.type_.in_types.len(),
    ensures
        apply_of(curried_val(f, first), rest, env, depth) == apply_of(f, first + rest, env, depth),
{
    let g = curried_val(f, first);
    let all = first + rest;
    assert(g.exprs + rest =~= f.exprs + all);
    assert(curried(g.type_, rest.len() as int).in_types =~= curried(
        f.type_,
        all.len() as int,
    ).in_types);
    assert(curried_val(g, rest) == curried_val(f, all));
    lemma_curry_first(g, rest, env, depth);
    lemma_curry_first(f, all, env, depth);
}

/// The last arguments complete what the first have begun.
proof fn lemma_curry_exact(
    f: FnValModel,
    first: Seq<SymbolModel>,
    rest: Seq<SymbolModel>,
    env: EnvModel,
    depth: nat,
)
    requires
        first.len() + rest.len() == f.type_.in_types.len(),
    ensures
        apply_of(curried_val(f, first), rest, env, depth) == apply_of(f, first + rest, env, depth),
{
    let g = curried_val(f, first);
    let all = first + rest;
    assert(g.exprs + rest =~= f.exprs + all);
    assert(g.type_.in_types.len() == rest.len());
    assert(apply_of(g, rest, env, depth) == complete_of(g.ptr, g.exprs + rest, env, depth));
    assert(apply_of(f, all, env, depth) == complete_of(f.ptr, f.exprs + all, env, depth));
}

/// More arguments than are awaited fail either way.
proof fn lemma_curry_more(
    f: FnValModel,
    first: Seq<SymbolModel>,
    rest: Seq<SymbolModel>,
    env: EnvModel,
    depth: nat,
)
    requires
        first.len() < f.type_.in_types.len(),
        first.len() + rest.len() > f.type_.in_types.len(),
    ensures
        apply_of(curried_val(f, first), rest, env, depth) == (Outcome {
            value: Err(oversupply(curried_val(f, first), rest.len())),
            env,
        }),
        apply_of(f, first + rest, env, depth) == (Outcome {
            value: Err(oversupply(f, (first + rest).len())),
            env,
        }),
{
    let g = curried_val(f, first);
    assert(g.type_.in_types.len() == f.type_.in_types.len() - first.len());
}

/// An assignment is seen by the next reading of the name. An assignment
/// succeeds exactly where its expression gives a value, at the same depth,
/// and the value has a type. It then gives `Nil`, and in the environment that
/// it leaves the name is bound to the value and its type, whatever it was
/// bound to before; every other name is bound as the expression has left it,
/// and none is removed; the output is as the expression has left it.
/// Evaluating the name there gives the value.
pub proof fn law_assignment(
    name: Seq<char>,
    def_type: Option<Seq<char>>,
    expr: SymbolModel,
    env: EnvModel,
    depth: nat,
    later: nat,
)
    requires
        later > 0,
    ensures
        ({
            let whole = eval_of(
                SymbolModel::Assigner { name, def_type, expr: Box::new(expr) },
                env,
                depth,
            );
            let inner = eval_of(expr, env, depth);
            &&& whole.value is Ok <==> inner.value is Ok && type_of(
                inner.value->Ok_0,
                inner.env.vars,
            ) is Ok
            &&& whole.value is Ok ==> {
                let bound = inner.value->Ok_0;
                let type_ = type_of(bound, inner.env.vars)->Ok_0;
                &&& whole.value == Ok::<SymbolModel, ErrorModel>(SymbolModel::Nil)
                &&& whole.env.vars.contains_key(name)
                &&& whole.env.vars[name] == (bound, type_)
                &&& forall|other: Seq<char>|
                    other != name ==> (whole.env.vars.contains_key(other)
                        <==> inner.env.vars.contains_key(other)) && whole.env.vars[other]
                        == inner.env.vars[other]
                &&& whole.env.output == inner.env.output
                &&& eval_of(SymbolModel::Text(name), whole.env, later).value == Ok::<
                    SymbolModel,
                    ErrorModel,
                >(bound)
            }
        }),
{
}

/// The type checker foresees what evaluation makes of a function that is
/// given fewer arguments than it awaits: where such an application has a
/// type, evaluating it gives a function value of exactly that type.
pub proof fn law_curried_type(
    f: FnValModel,
    args: Seq<SymbolModel>,
    env: EnvModel,
    depth: nat,
)
    requires
        depth >= 2,
        args.len() < f.type_.in_types.len(),
        type_of(
            SymbolModel::Apply { target: Box::new(SymbolModel::Fn(f)), args },
            env.vars,
        ) is Ok,
    ensures
        eval_of(
            SymbolModel::Apply { target: Box::new(SymbolModel::Fn(f)), args },
            env,
            depth,
        ).value matches Ok(SymbolModel::Fn(g)) && type_of(
            SymbolModel::Apply { target: Box::new(SymbolModel::Fn(f)), args },
            env.vars,
        ) == Ok::<TypeModel, ErrorModel>(TypeModel::Fn(g.type_)),
{
    let target = SymbolModel::Fn(f);
    let whole = SymbolModel::Apply { target: Box::new(target), args };
    let inner = (depth - 1) as nat;
    let g = FnValModel {
        ptr: f.ptr,
        type_: curried(f.type_, args.len() as int),
        exprs: f.exprs + args,
    };
    assert(eval_of(target, env, inner) == Outcome { value: Ok(target), env });
    assert(apply_of(f, args, env, inner) == Outcome { value: Ok(SymbolModel::Fn(g)), env });
    assert(eval_of(whole, env, depth) == apply_of(f, args, env, inner));
    assert(type_of(target, env.vars) == Ok::<TypeModel, ErrorModel>(TypeModel::Fn(f.type_)));
    assert(type_of(whole, env.vars) == Ok::<TypeModel, ErrorModel>(TypeModel::Fn(g.type_)));
}

} // verus!
