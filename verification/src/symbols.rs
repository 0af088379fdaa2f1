//! The syntax tree: literals, sequences, function values, applications,
//! assignments and references to names.

use crate::distr::{point, scalar_of, stat_text, Distr, DistrModel, KeyType};
use crate::error::{Error, ErrorKind, ErrorModel, Origin};
use crate::operations::{op_name, push_op_name, Op};
use crate::text::{int_digits, push_int, push_str, string_of};
use crate::type_info::{fn_type_text, joined, FnType, FnTypeModel};
use vstd::prelude::*;

verus! {

/// Mathematical model of a [`Symbol`].
pub enum SymbolModel {
    Nil,
    Text(Seq<char>),
    Num(int),
    Distr(DistrModel),
    Sequence(Seq<SymbolModel>),
    Fn(FnValModel),
    Apply { target: Box<SymbolModel>, args: Seq<SymbolModel> },
    Assigner { name: Seq<char>, def_type: Option<Seq<char>>, expr: Box<SymbolModel> },
}

/// Mathematical model of a [`FnVal`].
pub struct FnValModel {
    pub ptr: Op,
    pub type_: FnTypeModel,
    pub exprs: Seq<SymbolModel>,
}

/// A node of the syntax tree, and at the same time a value: evaluation turns
/// a tree into a tree that stands for itself.
#[derive(Debug)]
pub enum Symbol {
    Nil,
    /// A reference to a name.
    Text(String),
    Num(KeyType),
    Distr(Distr),
    Sequence(Vec<Symbol>),
    Fn(FnVal),
    /// The application of `target`, which evaluates to a function value, to
    /// arguments, which may be fewer than it awaits.
    Apply { target: Box<Symbol>, args: Vec<Symbol> },
    /// The binding of a name, with the name of a type where one is declared.
    Assigner { name: String, def_type: Option<String>, expr: Box<Symbol> },
}

/// A function value: the native operation, the types of the inputs it still
/// awaits with the type of its result, and the arguments that earlier
/// applications have supplied, unevaluated.
#[derive(Debug)]
pub struct FnVal {
    pub ptr: Op,
    pub type_: FnType,
    pub exprs: Vec<Symbol>,
}

/// The model of a symbol.
pub open spec fn symbol_model(s: Symbol) -> SymbolModel
    decreases s,
{
    match s {
        Symbol::Nil => SymbolModel::Nil,
        Symbol::Text(t) => SymbolModel::Text(t@),
        Symbol::Num(n) => SymbolModel::Num(n as int),
        Symbol::Distr(d) => SymbolModel::Distr(d@),
        Symbol::Sequence(v) => SymbolModel::Sequence(symbols_model(v@)),
        Symbol::Fn(f) => SymbolModel::Fn(
            FnValModel { ptr: f.ptr, type_: f.type_@, exprs: symbols_model(f.exprs@) },
        ),
        Symbol::Apply { target, args } => SymbolModel::Apply {
            target: Box::new(symbol_model(*target)),
            args: symbols_model(args@),
        },
        Symbol::Assigner { name, def_type, expr } => SymbolModel::Assigner {
            name: name@,
            def_type: match def_type {
                Some(t) => Some(t@),
                None => None,
            },
            expr: Box::new(symbol_model(*expr)),
        },
    }
}

/// The models of a sequence of symbols, element by element.
pub open spec fn symbols_model(v: Seq<Symbol>) -> Seq<SymbolModel>
    decreases v,
{
    Seq::new(
        v.len(),
        |i: int|
            if 0 <= i < v.len() {
                symbol_model(v[i])
            } else {
                SymbolModel::Nil
            },
    )
}

impl View for Symbol {
    type V = SymbolModel;

    open spec fn view(&self) -> SymbolModel {
        symbol_model(*self)
    }
}

impl View for FnVal {
    type V = FnValModel;

    open spec fn view(&self) -> FnValModel {
        FnValModel { ptr: self.ptr, type_: self.type_@, exprs: symbols_model(self.exprs@) }
    }
}

/// The models are taken element by element.
pub proof fn lemma_symbols_model(v: Seq<Symbol>)
    ensures
        symbols_model(v).len() == v.len(),
        forall|i: int| 0 <= i < v.len() ==> #[trigger] symbols_model(v)[i] == v[i]@,
{
}

/// The models of a longer sequence are those of the shorter one and the
/// model of the element put after it.
pub proof fn lemma_symbols_model_push(v: Seq<Symbol>, s: Symbol)
    ensures
        symbols_model(v.push(s)) == symbols_model(v).push(s@),
{
    assert(symbols_model(v.push(s)) =~= symbols_model(v).push(s@));
}

/// The distribution that a value stands for: a distribution itself, or the
/// certain value of a number.
pub open spec fn as_distr(s: SymbolModel) -> Option<DistrModel> {
    match s {
        SymbolModel::Distr(d) => Some(d),
        SymbolModel::Num(n) => Some(point(n)),
        _ => None,
    }
}

/// The error of the evaluator about a symbol: the reason is how the symbol
/// is written, followed by `what`.
pub open spec fn complaint_of(s: SymbolModel, what: Seq<char>, kind: ErrorKind) -> ErrorModel {
    ErrorModel { reason: repr_text(s) + what, opt_span: None, kind, origin: Origin::Evaluator }
}

/// The number that a value stands for: a number itself, or the single outcome
/// of a distribution. A distribution without a single outcome gives an error
/// of kind `NotScalar`, any other value one of kind `NotNum`.
pub open spec fn as_num(s: SymbolModel) -> Result<int, ErrorModel> {
    match s {
        SymbolModel::Num(n) => Ok(n),
        SymbolModel::Distr(d) => match scalar_of(d) {
            Some(x) => Ok(x),
            None => Err(complaint_of(s, " has no single outcome"@, ErrorKind::NotScalar)),
        },
        _ => Err(complaint_of(s, " is not a number"@, ErrorKind::NotNum)),
    }
}

/// The error for a value that stands for no distribution.
pub open spec fn not_a_distr(s: SymbolModel) -> ErrorModel {
    complaint_of(s, " is not a distr"@, ErrorKind::NotDistr)
}

/// How each of the given symbols is written.
pub open spec fn repr_texts(v: Seq<SymbolModel>) -> Seq<Seq<char>>
    decreases v,
{
    Seq::new(
        v.len(),
        |i: int|
            if 0 <= i < v.len() {
                repr_text(v[i])
            } else {
                Seq::empty()
            },
    )
}

/// How a function value is written: its type and the name of its operation.
pub open spec fn fn_val_text(f: FnValModel) -> Seq<char> {
    "<"@ + fn_type_text(f.type_) + " at "@ + op_name(f.ptr) + ">"@
}

/// How a symbol is written.
pub open spec fn repr_text(s: SymbolModel) -> Seq<char>
    decreases s,
{
    match s {
        SymbolModel::Nil => "Nil"@,
        SymbolModel::Text(t) => t,
        SymbolModel::Num(n) => int_digits(n),
        SymbolModel::Distr(d) => match scalar_of(d) {
            Some(n) => int_digits(n),
            None => stat_text(d),
        },
        SymbolModel::Fn(f) => fn_val_text(f),
        SymbolModel::Sequence(v) => "["@ + joined(repr_texts(v), ", "@) + "]"@,
        SymbolModel::Apply { target, args } => "("@ + joined(repr_texts(args), " >> "@) + " >> "@
            + repr_text(*target) + ")"@,
        SymbolModel::Assigner { name, def_type, expr } => match def_type {
            None => name + " = "@ + repr_text(*expr),
            Some(t) => name + ": "@ + t + " = "@ + repr_text(*expr),
        },
    }
}

/// A copy of a list of symbols.
fn clone_symbols(v: &Vec<Symbol>) -> (r: Vec<Symbol>)
    ensures
        symbols_model(r@) == symbols_model(v@),
    decreases v, 0nat,
{
    let mut out: Vec<Symbol> = Vec::new();
    let mut i: usize = 0;
    while i < v.len()
        invariant
            i <= v.len(),
            out.len() == i,
            forall|k: int| 0 <= k < i ==> #[trigger] out@[k]@ == v@[k]@,
        decreases v.len() - i,
    {
        out.push(clone_symbol(&v[i]));
        i += 1;
    }
    proof {
        lemma_symbols_model(out@);
        lemma_symbols_model(v@);
        assert(symbols_model(out@) =~= symbols_model(v@));
    }
    out
}

/// A copy of a symbol.
fn clone_symbol(s: &Symbol) -> (r: Symbol)
    ensures
        r@ == s@,
    decreases s,
{
    match s {
        Symbol::Nil => Symbol::Nil,
        Symbol::Text(t) => Symbol::Text(t.clone()),
        Symbol::Num(n) => Symbol::Num(*n),
        Symbol::Distr(d) => Symbol::Distr(d.clone()),
        Symbol::Sequence(v) => Symbol::Sequence(clone_symbols(v)),
        Symbol::Fn(f) => Symbol::Fn(
            FnVal { ptr: f.ptr, type_: f.type_.clone(), exprs: clone_symbols(&f.exprs) },
        ),
        Symbol::Apply { target, args } => Symbol::Apply {
            target: Box::new(clone_symbol(target)),
            args: clone_symbols(args),
        },
        Symbol::Assigner { name, def_type, expr } => Symbol::Assigner {
            name: name.clone(),
            def_type: match def_type {
                Some(t) => Some(t.clone()),
                None => None,
            },
            expr: Box::new(clone_symbol(expr)),
        },
    }
}

impl Clone for Symbol {
    fn clone(&self) -> (r: Self)
        ensures
            r@ == self@,
    {
        clone_symbol(self)
    }
}

impl Clone for FnVal {
    fn clone(&self) -> (r: Self)
        ensures
            r@ == self@,
    {
        FnVal { ptr: self.ptr, type_: self.type_.clone(), exprs: clone_symbols(&self.exprs) }
    }
}

/// Copies a vector of symbols.
pub fn copy_symbols(v: &Vec<Symbol>) -> (r: Vec<Symbol>)
    ensures
        symbols_model(r@) == symbols_model(v@),
{
    clone_symbols(v)
}

/// Appends how a function value is written to `buf`.
fn push_fn_val_text(buf: &mut Vec<char>, f: &FnVal)
    ensures
        final(buf)@ == old(buf)@ + fn_val_text(f@),
{
    push_str(buf, "<");
    let t = f.type_.to_string();
    push_str(buf, t.as_str());
    push_str(buf, " at ");
    push_op_name(buf, f.ptr);
    push_str(buf, ">");
}

/// Appends how the symbols are written, with `sep` between neighbours, to
/// `buf`.
fn push_repr_joined(buf: &mut Vec<char>, v: &Vec<Symbol>, sep: &str)
    ensures
        final(buf)@ == old(buf)@ + joined(repr_texts(symbols_model(v@)), sep@),
    decreases v, 0nat,
{
    let ghost parts = repr_texts(symbols_model(v@));
    let ghost base = buf@;
    let mut i: usize = 0;
    assert(joined(parts.take(0), sep@) == Seq::<char>::empty());
    while i < v.len()
        invariant
            i <= v.len(),
            parts.len() == v.len(),
            forall|k: int| 0 <= k < parts.len() ==> #[trigger] parts[k] == repr_text(v@[k]@),
            buf@ == base + joined(parts.take(i as int), sep@),
        decreases v.len() - i,
    {
        if i > 0 {
            push_str(buf, sep);
        }
        push_repr(buf, &v[i]);
        proof {
            let p = parts.take(i + 1);
            assert(p.drop_last() == parts.take(i as int));
            assert(p.last() == parts[i as int]);
            if i == 0 {
                assert(joined(p, sep@) == p[0]);
            }
        }
        i += 1;
    }
    assert(parts.take(v.len() as int) == parts);
}

/// Appends how a symbol is written to `buf`.
fn push_repr(buf: &mut Vec<char>, s: &Symbol)
    ensures
        final(buf)@ == old(buf)@ + repr_text(s@),
    decreases s,
{
    match s {
        Symbol::Nil => push_str(buf, "Nil"),
        Symbol::Text(t) => push_str(buf, t.as_str()),
        Symbol::Num(n) => push_int(buf, *n as i128),
        Symbol::Distr(d) => match d.scalar() {
            Some(n) => push_int(buf, n as i128),
            None => {
                let t = d.stat_view();
                push_str(buf, t.as_str());
            },
        },
        Symbol::Fn(f) => push_fn_val_text(buf, f),
        Symbol::Sequence(v) => {
            push_str(buf, "[");
            push_repr_joined(buf, v, ", ");
            push_str(buf, "]");
        },
        Symbol::Apply { target, args } => {
            push_str(buf, "(");
            push_repr_joined(buf, args, " >> ");
            push_str(buf, " >> ");
            push_repr(buf, target);
            push_str(buf, ")");
        },
        Symbol::Assigner { name, def_type, expr } => {
            push_str(buf, name.as_str());
            match def_type {
                None => {},
                Some(t) => {
                    push_str(buf, ": ");
                    push_str(buf, t.as_str());
                },
            }
            push_str(buf, " = ");
            push_repr(buf, expr);
        },
    }
}

/// An error of the evaluator whose reason is how a symbol is written
/// followed by `what`.
fn complaint(s: &Symbol, what: &str, kind: ErrorKind) -> (e: Error)
    ensures
        e@ == complaint_of(s@, what@, kind),
{
    let mut buf: Vec<char> = Vec::new();
    push_repr(&mut buf, s);
    push_str(&mut buf, what);
    Error::fail(kind, Origin::Evaluator, string_of(&buf))
}

impl From<KeyType> for Symbol {
    fn from(n: KeyType) -> (r: Symbol) {
        Symbol::Num(n)
    }
}

impl vstd::std_specs::convert::FromSpecImpl<KeyType> for Symbol {
    open spec fn obeys_from_spec() -> bool {
        true
    }

    open spec fn from_spec(n: KeyType) -> Symbol {
        Symbol::Num(n)
    }
}

impl From<Distr> for Symbol {
    fn from(distr: Distr) -> (r: Symbol) {
        Symbol::Distr(distr)
    }
}

impl vstd::std_specs::convert::FromSpecImpl<Distr> for Symbol {
    open spec fn obeys_from_spec() -> bool {
        true
    }

    open spec fn from_spec(distr: Distr) -> Symbol {
        Symbol::Distr(distr)
    }
}

impl From<String> for Symbol {
    fn from(s: String) -> (r: Symbol) {
        Symbol::Text(s)
    }
}

impl vstd::std_specs::convert::FromSpecImpl<String> for Symbol {
    open spec fn obeys_from_spec() -> bool {
        true
    }

    open spec fn from_spec(s: String) -> Symbol {
        Symbol::Text(s)
    }
}

impl From<()> for Symbol {
    fn from(unit: ()) -> (r: Symbol) {
        Symbol::Nil
    }
}

impl vstd::std_specs::convert::FromSpecImpl<()> for Symbol {
    open spec fn obeys_from_spec() -> bool {
        true
    }

    open spec fn from_spec(unit: ()) -> Symbol {
        Symbol::Nil
    }
}

impl From<FnVal> for Symbol {
    fn from(fn_val: FnVal) -> (r: Symbol) {
        Symbol::Fn(fn_val)
    }
}

impl vstd::std_specs::convert::FromSpecImpl<FnVal> for Symbol {
    open spec fn obeys_from_spec() -> bool {
        true
    }

    open spec fn from_spec(fn_val: FnVal) -> Symbol {
        Symbol::Fn(fn_val)
    }
}

impl FnVal {
    /// How the function value is written: its type and the name of its
    /// operation.
    pub fn repr(&self) -> (r: String)
        ensures
            r@ == fn_val_text(self@),
    {
        let mut buf: Vec<char> = Vec::new();
        push_fn_val_text(&mut buf, self);
        string_of(&buf)
    }
}

impl Symbol {
    /// The symbol in a box.
    pub fn into_boxed(self) -> (r: Box<Symbol>)
        ensures
            *r == self,
    {
        Box::new(self)
    }

    /// The distribution that the value stands for: a distribution itself, or
    /// the certain value of a number; for any other value an error of kind
    /// `NotDistr`.
    pub fn try_to_distr(&self) -> (r: Result<Distr, Error>)
        ensures
            r is Ok <==> as_distr(self@) is Some,
            r matches Ok(d) ==> Some(d@) == as_distr(self@),
            r matches Err(e) ==> e@ == not_a_distr(self@),
    {
        match self {
            Symbol::Distr(d) => Ok(d.clone()),
            Symbol::Num(num) => Ok(Distr::certain(*num)),
            _ => Err(complaint(self, " is not a distr", ErrorKind::NotDistr)),
        }
    }

    /// The number that the value stands for: a number itself, or the single
    /// outcome of a distribution. A distribution without a single outcome
    /// gives an error of kind `NotScalar`, any other value one of kind
    /// `NotNum`.
    pub fn try_to_num(&self) -> (r: Result<KeyType, Error>)
        ensures
            r matches Ok(n) ==> as_num(self@) == Ok::<int, ErrorModel>(n as int),
            r matches Err(e) ==> as_num(self@) == Err::<int, ErrorModel>(e@),
    {
        match self {
            Symbol::Num(num) => Ok(*num),
            Symbol::Distr(d) => match d.scalar() {
                Some(n) => Ok(n),
                None => Err(complaint(self, " has no single outcome", ErrorKind::NotScalar)),
            },
            _ => Err(complaint(self, " is not a number", ErrorKind::NotNum)),
        }
    }

    /// The name that the symbol refers to; for a symbol that is no name an
    /// error of kind `NotText`.
    pub fn try_to_str(&self) -> (r: Result<&str, Error>)
        ensures
            r is Ok <==> self@ is Text,
            r matches Ok(t) ==> self@ == SymbolModel::Text(t@),
            r matches Err(e) ==> e@ == complaint_of(self@, " is not a string"@, ErrorKind::NotText),
    {
        match self {
            Symbol::Text(s) => Ok(s.as_str()),
            _ => Err(complaint(self, " is not a string", ErrorKind::NotText)),
        }
    }

    /// How the symbol is written.
    pub fn repr(&self) -> (r: String)
        ensures
            r@ == repr_text(self@),
    {
        let mut buf: Vec<char> = Vec::new();
        push_repr(&mut buf, self);
        string_of(&buf)
    }
}

} // verus!
