//! The environment: the table that binds names to values with their types,
//! and the lines that evaluation has put out for display.

use crate::operations::Op;
use crate::symbols::{repr_text, FnVal, FnValModel, Symbol, SymbolModel};
use crate::text::same_text;
use crate::type_info::{type_text, FnType, Type, TypeModel};
use crate::util::{row_model, shaped, Table};
use vstd::prelude::*;

verus! {

/// Mathematical model of an [`Env`]: each bound name with its value and
/// its type, and the lines put out so far, oldest first.
pub struct EnvModel {
    pub vars: Map<Seq<char>, (SymbolModel, TypeModel)>,
    pub output: Seq<Seq<char>>,
}

/// One binding of a name.
#[derive(Debug)]
pub struct Binding {
    pub name: String,
    pub value: Symbol,
    pub type_: Type,
}

/// The environment of a session.
#[derive(Debug)]
pub struct Env {
    bindings: Vec<Binding>,
    output: Vec<String>,
}

/// The map that a list of bindings stands for; a later binding of a name
/// overrides an earlier one.
pub open spec fn vars_of(b: Seq<Binding>) -> Map<Seq<char>, (SymbolModel, TypeModel)>
    decreases b.len(),
{
    if b.len() == 0 {
        Map::empty()
    } else {
        vars_of(b.drop_last()).insert(b.last().name@, (b.last().value@, b.last().type_@))
    }
}

/// Whether no name is bound twice.
pub open spec fn distinct_names(b: Seq<Binding>) -> bool {
    forall|i: int, j: int| 0 <= i < j < b.len() ==> b[i].name@ != b[j].name@
}

/// The texts of a list of lines.
pub open spec fn lines_of(lines: Seq<String>) -> Seq<Seq<char>> {
    Seq::new(lines.len(), |i: int| lines[i]@)
}

/// The heading of the table of bindings.
pub open spec fn heading() -> Seq<Seq<char>> {
    seq!["Name"@, "Type"@, "Value"@]
}

/// The row of a binding in the table of bindings: the name, how its type is
/// written and how its value is written.
pub open spec fn listing(name: Seq<char>, bound: (SymbolModel, TypeModel)) -> Seq<Seq<char>> {
    seq![name, type_text(bound.1), repr_text(bound.0)]
}

/// A name is bound exactly when some binding holds it.
proof fn lemma_vars_dom(b: Seq<Binding>, name: Seq<char>)
    ensures
        vars_of(b).contains_key(name) <==> exists|i: int|
            0 <= i < b.len() && (#[trigger] b[i]).name@ == name,
    decreases b.len(),
{
    if b.len() > 0 {
        let rest = b.drop_last();
        lemma_vars_dom(rest, name);
        if vars_of(b).contains_key(name) {
            if b.last().name@ == name {
                assert(b[b.len() - 1].name@ == name);
            } else {
                let i = choose|i: int| 0 <= i < rest.len() && (#[trigger] rest[i]).name@ == name;
                assert(b[i].name@ == name);
            }
        }
        if exists|i: int| 0 <= i < b.len() && (#[trigger] b[i]).name@ == name {
            let i = choose|i: int| 0 <= i < b.len() && (#[trigger] b[i]).name@ == name;
            if i < rest.len() {
                assert(rest[i].name@ == name);
            }
        }
    }
}

/// Where no name is bound twice, each binding is what the map holds for its
/// name.
proof fn lemma_vars_lookup(b: Seq<Binding>, i: int)
    requires
        distinct_names(b),
        0 <= i < b.len(),
    ensures
        vars_of(b).contains_key(b[i].name@),
        vars_of(b)[b[i].name@] == (b[i].value@, b[i].type_@),
    decreases b.len(),
{
    let rest = b.drop_last();
    if i < b.len() - 1 {
        assert(distinct_names(rest)) by {
            assert forall|p: int, q: int| 0 <= p < q < rest.len() implies rest[p].name@
                != rest[q].name@ by {
                assert(b[p].name@ != b[q].name@);
            }
        }
        lemma_vars_lookup(rest, i);
        assert(b[i].name@ != b[b.len() - 1].name@);
        assert(rest[i] == b[i]);
    }
}

/// Replacing the binding of a name binds the name anew and leaves the others
/// alone.
proof fn lemma_vars_update(b: Seq<Binding>, i: int, e: Binding)
    requires
        distinct_names(b),
        0 <= i < b.len(),
        e.name@ == b[i].name@,
    ensures
        distinct_names(b.update(i, e)),
        vars_of(b.update(i, e)) == vars_of(b).insert(e.name@, (e.value@, e.type_@)),
    decreases b.len(),
{
    let r = b.update(i, e);
    assert forall|p: int, q: int| 0 <= p < q < r.len() implies r[p].name@ != r[q].name@ by {
        assert(b[p].name@ != b[q].name@);
    }
    let rest = b.drop_last();
    if i == b.len() - 1 {
        assert(r.drop_last() == rest);
        assert(vars_of(r) =~= vars_of(b).insert(e.name@, (e.value@, e.type_@)));
    } else {
        assert(distinct_names(rest)) by {
            assert forall|p: int, q: int| 0 <= p < q < rest.len() implies rest[p].name@
                != rest[q].name@ by {
                assert(b[p].name@ != b[q].name@);
            }
        }
        lemma_vars_update(rest, i, e);
        assert(r.drop_last() == rest.update(i, e));
        assert(r.last() == b.last());
        assert(b[i].name@ != b[b.len() - 1].name@);
        assert(vars_of(r) =~= vars_of(b).insert(e.name@, (e.value@, e.type_@)));
    }
}

impl View for Env {
    type V = EnvModel;

    closed spec fn view(&self) -> EnvModel {
        EnvModel { vars: vars_of(self.bindings@), output: lines_of(self.output@) }
    }
}

impl Env {
    /// What every environment keeps: no name is bound twice.
    #[verifier::type_invariant]
    spec fn well_formed(self) -> bool {
        distinct_names(self.bindings@)
    }

    /// The environment without any binding or output.
    pub fn new() -> (r: Env)
        ensures
            r@.vars == Map::<Seq<char>, (SymbolModel, TypeModel)>::empty(),
            r@.output == Seq::<Seq<char>>::empty(),
    {
        let r = Env { bindings: Vec::new(), output: Vec::new() };
        assert(r@.output =~= Seq::<Seq<char>>::empty());
        r
    }

    /// The index of the binding of `name`.
    fn find(&self, name: &str) -> (r: Option<usize>)
        ensures
            r matches Some(i) ==> i < self.bindings@.len() && self.bindings@[i as int].name@
                == name@,
            r is None ==> forall|i: int|
                0 <= i < self.bindings@.len() ==> (#[trigger] self.bindings@[i]).name@ != name@,
    {
        let mut i: usize = 0;
        while i < self.bindings.len()
            invariant
                i <= self.bindings.len(),
                forall|k: int| 0 <= k < i ==> (#[trigger] self.bindings@[k]).name@ != name@,
            decreases self.bindings.len() - i,
        {
            if same_text(self.bindings[i].name.as_str(), name) {
                return Some(i);
            }
            i += 1;
        }
        None
    }

    /// Binds `name` to a value and its type. An earlier binding of the name
    /// is overwritten.
    pub fn bind_var(&mut self, name: String, value: Symbol, type_: Type) -> (r: &mut Env)
        ensures
            r@.vars == old(self)@.vars.insert(name@, (value@, type_@)),
            r@.output == old(self)@.output,
            *final(self) == *final(r),
    {
        proof {
            use_type_invariant(&*self);
        }
        let found = self.find(name.as_str());
        let mut bindings: Vec<Binding> = Vec::new();
        std::mem::swap(&mut bindings, &mut self.bindings);
        let ghost before = bindings@;
        let entry = Binding { name, value, type_ };
        match found {
            Some(i) => {
                proof {
                    lemma_vars_update(before, i as int, entry);
                }
                bindings[i] = entry;
            },
            None => {
                proof {
                    assert(before.push(entry).drop_last() == before);
                    assert forall|p: int, q: int|
                        0 <= p < q < before.push(entry).len() implies before.push(entry)[p].name@
                        != before.push(entry)[q].name@ by {
                        if q < before.len() {
                            assert(before[p].name@ != before[q].name@);
                        } else {
                            assert(before[p].name@ != name@);
                        }
                    }
                }
                bindings.push(entry);
            },
        }
        self.bindings = bindings;
        self
    }

    /// Binds `name` to the function value of a native operation that has
    /// been applied to nothing yet.
    pub fn bind_fn_var(&mut self, name: String, ptr: Op, type_: FnType) -> (r: &mut Env)
        ensures
            r@.vars == old(self)@.vars.insert(
                name@,
                (
                    SymbolModel::Fn(FnValModel { ptr, type_: type_@, exprs: Seq::empty() }),
                    TypeModel::Fn(type_@),
                ),
            ),
            r@.output == old(self)@.output,
            *final(self) == *final(r),
    {
        let value = FnVal { ptr, type_: type_.clone(), exprs: Vec::new() };
        proof {
            crate::type_info::lemma_fn_type_view(type_);
            assert(value@.exprs =~= Seq::<SymbolModel>::empty());
        }
        self.bind_var(name, Symbol::Fn(value), Type::Fn(type_))
    }

    /// The value and the type that `name` is bound to.
    pub fn lookup_var(&self, name: &str) -> (r: Option<(&Symbol, &Type)>)
        ensures
            r is Some <==> self@.vars.contains_key(name@),
            r matches Some((value, type_)) ==> self@.vars[name@] == (value@, type_@),
    {
        proof {
            use_type_invariant(self);
            lemma_vars_dom(self.bindings@, name@);
        }
        match self.find(name) {
            Some(i) => {
                proof {
                    lemma_vars_lookup(self.bindings@, i as int);
                }
                Some((&self.bindings[i].value, &self.bindings[i].type_))
            },
            None => None,
        }
    }

    /// The bindings as a table with the columns `Name`, `Type` and `Value`:
    /// under the heading one row for every bound name.
    pub fn table(&self) -> (r: Table)
        ensures
            shaped(r@),
            r@.n_cols == 3,
            r@.data[0] == heading(),
            forall|k: int|
                1 <= k < r@.data.len() ==> self@.vars.contains_key((#[trigger] r@.data[k])[0])
                    && r@.data[k] == listing(r@.data[k][0], self@.vars[r@.data[k][0]]),
            forall|name: Seq<char>|
                self@.vars.contains_key(name) ==> exists|k: int|
                    1 <= k < r@.data.len() && (#[trigger] r@.data[k])[0] == name,
    {
        proof {
            use_type_invariant(self);
        }
        let mut head: Vec<String> = Vec::new();
        head.push(String::from_str("Name"));
        head.push(String::from_str("Type"));
        head.push(String::from_str("Value"));
        assert(row_model(head@) =~= heading());
        let mut table = Table::new(head);
        let mut i: usize = 0;
        while i < self.bindings.len()
            invariant
                i <= self.bindings@.len(),
                distinct_names(self.bindings@),
                shaped(table@),
                table@.n_cols == 3,
                table@.data.len() == i + 1,
                table@.data[0] == heading(),
                forall|k: int|
                    1 <= k <= i ==> #[trigger] table@.data[k] == listing(
                        self.bindings@[k - 1].name@,
                        (self.bindings@[k - 1].value@, self.bindings@[k - 1].type_@),
                    ),
            decreases self.bindings@.len() - i,
        {
            let b = &self.bindings[i];
            let mut row: Vec<String> = Vec::new();
            row.push(b.name.clone());
            row.push(b.type_.to_string());
            row.push(b.value.repr());
            assert(row_model(row@) =~= listing(b.name@, (b.value@, b.type_@)));
            table.add_row(row);
            i += 1;
        }
        proof {
            assert forall|k: int| 1 <= k < table@.data.len() implies self@.vars.contains_key(
                (#[trigger] table@.data[k])[0],
            ) && table@.data[k] == listing(table@.data[k][0], self@.vars[table@.data[k][0]]) by {
                lemma_vars_lookup(self.bindings@, k - 1);
            }
            assert forall|name: Seq<char>| self@.vars.contains_key(name) implies exists|k: int|
                1 <= k < table@.data.len() && (#[trigger] table@.data[k])[0] == name by {
                lemma_vars_dom(self.bindings@, name);
                let j = choose|j: int|
                    0 <= j < self.bindings@.len() && (#[trigger] self.bindings@[j]).name@ == name;
                assert(table@.data[j + 1][0] == name);
            }
        }
        table
    }

    /// Puts out a line for display.
    pub fn emit(&mut self, line: String)
        ensures
            final(self)@.vars == old(self)@.vars,
            final(self)@.output == old(self)@.output.push(line@),
    {
        proof {
            use_type_invariant(&*self);
        }
        let mut output: Vec<String> = Vec::new();
        std::mem::swap(&mut output, &mut self.output);
        output.push(line);
        self.output = output;
        assert(self@.output =~= old(self)@.output.push(line@));
    }

    /// Hands over the lines put out so far, oldest first, and forgets them.
    pub fn take_output(&mut self) -> (r: Vec<String>)
        ensures
            final(self)@.vars == old(self)@.vars,
            final(self)@.output == Seq::<Seq<char>>::empty(),
            lines_of(r@) == old(self)@.output,
    {
        proof {
            use_type_invariant(&*self);
        }
        let mut output: Vec<String> = Vec::new();
        std::mem::swap(&mut output, &mut self.output);
        assert(self@.output =~= Seq::<Seq<char>>::empty());
        output
    }
}

} // verus!
