//! The built-in names: the bindings that a session starts with.

use crate::env::{Env, EnvModel};
use crate::operations::{op_name, op_type, Op};
use crate::parse::native_fn;
use crate::type_info::TypeModel;
use vstd::prelude::*;

verus! {

/// The environment after a native operation is bound under its name.
pub open spec fn with_builtin(env: EnvModel, op: Op) -> EnvModel {
    EnvModel {
        vars: env.vars.insert(op_name(op), (native_fn(op), TypeModel::Fn(op_type(op)))),
        output: env.output,
    }
}

/// The environment after the operations are bound, one after the other.
pub open spec fn with_builtins(env: EnvModel, ops: Seq<Op>) -> EnvModel
    decreases ops.len(),
{
    if ops.len() == 0 {
        env
    } else {
        with_builtin(with_builtins(env, ops.drop_last()), ops.last())
    }
}

/// The operations of arithmetic.
pub open spec fn arithmetic_ops() -> Seq<Op> {
    seq![Op::Mul, Op::Div, Op::Sub, Op::Add]
}

/// The operations on dice and the views.
pub open spec fn dice_ops() -> Seq<Op> {
    seq![Op::MakeDice, Op::TableView, Op::HistView, Op::StatView]
}

/// The comparisons.
pub open spec fn comparison_ops() -> Seq<Op> {
    seq![
        Op::GreaterOrEqual,
        Op::Greater,
        Op::LessOrEqual,
        Op::Less,
        Op::Equal,
        Op::NotEqual,
    ]
}

impl Env {
    /// Binds a native operation under its name, with its signature as its
    /// type.
    pub fn bind_builtin(&mut self, op: Op) -> (r: &mut Env)
        ensures
            r@ == with_builtin(old(self)@, op),
            *final(self) == *final(r),
    {
        self.bind_fn_var(String::from_str(op.name()), op, op.signature())
    }

    /// Binds `mul`, `div`, `sub` and `add`.
    pub fn import_arithmetic(&mut self) -> (r: &mut Env)
        ensures
            r@ == with_builtins(old(self)@, arithmetic_ops()),
            *final(self) == *final(r),
    {
        proof {
            reveal_with_fuel(with_builtins, 5);
            lemma_prefixes(arithmetic_ops());
        }
        self.bind_builtin(Op::Mul);
        self.bind_builtin(Op::Div);
        self.bind_builtin(Op::Sub);
        self.bind_builtin(Op::Add)
    }

    /// Binds `make-dice` and the views `table`, `hist` and `stats`.
    pub fn import_dice(&mut self) -> (r: &mut Env)
        ensures
            r@ == with_builtins(old(self)@, dice_ops()),
            *final(self) == *final(r),
    {
        proof {
            reveal_with_fuel(with_builtins, 5);
            lemma_prefixes(dice_ops());
        }
        self.bind_builtin(Op::MakeDice);
        self.bind_builtin(Op::TableView);
        self.bind_builtin(Op::HistView);
        self.bind_builtin(Op::StatView)
    }

    /// Binds the comparisons `greater-than-or-equal`, `greater-than`,
    /// `less-than-or-equal`, `less-than`, `equals` and `not-equals`.
    pub fn import_comparisons(&mut self) -> (r: &mut Env)
        ensures
            r@ == with_builtins(old(self)@, comparison_ops()),
            *final(self) == *final(r),
    {
        proof {
            reveal_with_fuel(with_builtins, 7);
            lemma_prefixes(comparison_ops());
        }
        self.bind_builtin(Op::GreaterOrEqual);
        self.bind_builtin(Op::Greater);
        self.bind_builtin(Op::LessOrEqual);
        self.bind_builtin(Op::Less);
        self.bind_builtin(Op::Equal);
        self.bind_builtin(Op::NotEqual)
    }
}

/// Dropping the last of a list written out leaves the list of the others.
proof fn lemma_prefixes(ops: Seq<Op>)
    ensures
        ops.len() >= 1 ==> ops.drop_last() == ops.take(ops.len() - 1),
        ops.len() == 4 ==> ops.drop_last() == seq![ops[0], ops[1], ops[2]] && seq![
            ops[0],
            ops[1],
            ops[2],
        ].drop_last() == seq![ops[0], ops[1]] && seq![ops[0], ops[1]].drop_last() == seq![ops[0]]
            && seq![ops[0]].drop_last() == Seq::<Op>::empty(),
        ops.len() == 6 ==> ops.drop_last() == seq![ops[0], ops[1], ops[2], ops[3], ops[4]] && seq![
            ops[0],
            ops[1],
            ops[2],
            ops[3],
            ops[4],
        ].drop_last() == seq![ops[0], ops[1], ops[2], ops[3]] && seq![
            ops[0],
            ops[1],
            ops[2],
            ops[3],
        ].drop_last() == seq![ops[0], ops[1], ops[2]] && seq![ops[0], ops[1], ops[2]].drop_last()
            == seq![ops[0], ops[1]] && seq![ops[0], ops[1]].drop_last() == seq![ops[0]] && seq![
            ops[0],
        ].drop_last() == Seq::<Op>::empty(),
{
}

} // verus!
