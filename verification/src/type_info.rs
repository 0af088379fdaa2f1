//! The structural type system: a closed set of types, the coercion relation
//! between them and curried function types.

use crate::text::{chars_of, push_str, same_chars, string_of};
use vstd::prelude::*;

verus! {

/// Mathematical model of a [`Type`].
pub enum TypeModel {
    Nil,
    Any,
    Num,
    Distr,
    Sequence(Box<TypeModel>),
    Fn(FnTypeModel),
}

/// Mathematical model of a [`FnType`]: the types of the inputs that are still
/// awaited, in order, and the type of the result.
pub struct FnTypeModel {
    pub in_types: Seq<TypeModel>,
    pub out_type: Box<TypeModel>,
}

/// A type of the language.
#[derive(Debug)]
pub enum Type {
    Nil,
    /// The wildcard: coercible to and from every type.
    Any,
    Num,
    Distr,
    /// A sequence of elements of one type.
    Sequence(Box<Type>),
    Fn(FnType),
}

/// The signature of a function value.
#[derive(Debug)]
pub struct FnType {
    pub in_types: Vec<Type>,
    pub out_type: Box<Type>,
}

/// The model of a type.
pub open spec fn type_model(t: Type) -> TypeModel
    decreases t,
{
    match t {
        Type::Nil => TypeModel::Nil,
        Type::Any => TypeModel::Any,
        Type::Num => TypeModel::Num,
        Type::Distr => TypeModel::Distr,
        Type::Sequence(inner) => TypeModel::Sequence(Box::new(type_model(*inner))),
        Type::Fn(f) => TypeModel::Fn(
            FnTypeModel {
                in_types: Seq::new(
                    f.in_types@.len(),
                    |i: int|
                        if 0 <= i < f.in_types@.len() {
                            type_model(f.in_types@[i])
                        } else {
                            TypeModel::Nil
                        },
                ),
                out_type: Box::new(type_model(*f.out_type)),
            },
        ),
    }
}

impl View for Type {
    type V = TypeModel;

    open spec fn view(&self) -> TypeModel {
        type_model(*self)
    }
}

impl View for FnType {
    type V = FnTypeModel;

    open spec fn view(&self) -> FnTypeModel {
        FnTypeModel {
            in_types: Seq::new(self.in_types@.len(), |i: int| self.in_types@[i]@),
            out_type: Box::new((*self.out_type)@),
        }
    }
}

/// The models of a vector of types, element by element.
pub open spec fn types_model(v: Seq<Type>) -> Seq<TypeModel> {
    Seq::new(v.len(), |i: int| v[i]@)
}

/// The view of a function type is what the view of the type that wraps it
/// holds.
pub proof fn lemma_fn_type_view(f: FnType)
    ensures
        Type::Fn(f)@ == TypeModel::Fn(f@),
        f@.in_types == types_model(f.in_types@),
{
    assert(Type::Fn(f)@->Fn_0.in_types =~= f@.in_types);
    assert(f@.in_types =~= types_model(f.in_types@));
}

/// The coercion relation: `Any` is compatible with everything in both
/// directions, a number may stand where a distribution is expected, and
/// otherwise the two types are structurally equal.
pub open spec fn coercible(from: TypeModel, to: TypeModel) -> bool {
    from is Any || to is Any || (from is Num && to is Distr) || from == to
}

/// What is left of a function type once its first `n` inputs are supplied.
pub open spec fn curried(f: FnTypeModel, n: int) -> FnTypeModel {
    FnTypeModel { in_types: f.in_types.skip(n), out_type: f.out_type }
}

/// The type that a name in an annotation denotes. Only the four primitive
/// types can be written; sequence and function types cannot.
pub open spec fn named_type(s: Seq<char>) -> Option<TypeModel> {
    if s == "Nil"@ {
        Some(TypeModel::Nil)
    } else if s == "Num"@ {
        Some(TypeModel::Num)
    } else if s == "Distr"@ {
        Some(TypeModel::Distr)
    } else if s == "Any"@ {
        Some(TypeModel::Any)
    } else {
        None
    }
}

/// The parts joined into one text, with `sep` between neighbours.
pub open spec fn joined(parts: Seq<Seq<char>>, sep: Seq<char>) -> Seq<char>
    decreases parts.len(),
{
    if parts.len() == 0 {
        Seq::empty()
    } else if parts.len() == 1 {
        parts[0]
    } else {
        joined(parts.drop_last(), sep) + sep + parts.last()
    }
}

/// How a type is written in diagnostics.
pub open spec fn type_text(t: TypeModel) -> Seq<char>
    decreases t,
{
    match t {
        TypeModel::Nil => "Nil"@,
        TypeModel::Any => "Any"@,
        TypeModel::Num => "Num"@,
        TypeModel::Distr => "Distr"@,
        TypeModel::Sequence(inner) => "Seq<"@ + type_text(*inner) + ">"@,
        TypeModel::Fn(f) => "Fn("@ + joined(type_texts(f.in_types), ", "@) + ") -> "@ + type_text(
            *f.out_type,
        ),
    }
}

/// How each of the given types is written.
pub open spec fn type_texts(types: Seq<TypeModel>) -> Seq<Seq<char>>
    decreases types,
{
    Seq::new(
        types.len(),
        |i: int|
            if 0 <= i < types.len() {
                type_text(types[i])
            } else {
                Seq::empty()
            },
    )
}

/// How a function type is written in diagnostics.
pub open spec fn fn_type_text(f: FnTypeModel) -> Seq<char> {
    type_text(TypeModel::Fn(f))
}

/// A copy of the types from index `from` on.
fn clone_types(v: &Vec<Type>, from: usize) -> (r: Vec<Type>)
    requires
        from <= v.len(),
    ensures
        types_model(r@) == types_model(v@).skip(from as int),
    decreases v, 0nat,
{
    let mut out: Vec<Type> = Vec::new();
    let mut i: usize = from;
    while i < v.len()
        invariant
            from <= i <= v.len(),
            out.len() == i - from,
            forall|k: int| 0 <= k < out.len() ==> #[trigger] out@[k]@ == v@[from + k]@,
        decreases v.len() - i,
    {
        out.push(clone_type(&v[i]));
        i += 1;
    }
    assert(types_model(out@) =~= types_model(v@).skip(from as int));
    out
}

/// A copy of a type.
fn clone_type(t: &Type) -> (r: Type)
    ensures
        r@ == t@,
    decreases t,
{
    match t {
        Type::Nil => Type::Nil,
        Type::Any => Type::Any,
        Type::Num => Type::Num,
        Type::Distr => Type::Distr,
        Type::Sequence(inner) => Type::Sequence(Box::new(clone_type(inner))),
        Type::Fn(f) => {
            let g = FnType {
                in_types: clone_types(&f.in_types, 0),
                out_type: Box::new(clone_type(&f.out_type)),
            };
            proof {
                lemma_fn_type_view(*f);
                lemma_fn_type_view(g);
                assert(types_model(f.in_types@).skip(0) =~= types_model(f.in_types@));
            }
            Type::Fn(g)
        },
    }
}

impl Clone for Type {
    fn clone(&self) -> (r: Self)
        ensures
            r@ == self@,
    {
        clone_type(self)
    }
}

impl Clone for FnType {
    fn clone(&self) -> (r: Self)
        ensures
            r@ == self@,
    {
        let r = FnType {
            in_types: clone_types(&self.in_types, 0),
            out_type: Box::new(clone_type(&self.out_type)),
        };
        proof {
            lemma_fn_type_view(*self);
            lemma_fn_type_view(r);
            assert(types_model(self.in_types@).skip(0) =~= types_model(self.in_types@));
        }
        r
    }
}

/// Whether two lists of types are equal, type by type.
fn same_types(a: &Vec<Type>, b: &Vec<Type>) -> (r: bool)
    ensures
        r == (types_model(a@) == types_model(b@)),
    decreases a, 0nat,
{
    if a.len() != b.len() {
        assert(types_model(a@).len() != types_model(b@).len());
        return false;
    }
    let mut i: usize = 0;
    while i < a.len()
        invariant
            i <= a.len(),
            a.len() == b.len(),
            forall|k: int| 0 <= k < i ==> #[trigger] a@[k]@ == b@[k]@,
        decreases a.len() - i,
    {
        if !same_type(&a[i], &b[i]) {
            assert(types_model(a@)[i as int] != types_model(b@)[i as int]);
            return false;
        }
        i += 1;
    }
    assert(types_model(a@) =~= types_model(b@));
    true
}

/// Whether two types are structurally equal.
fn same_type(a: &Type, b: &Type) -> (r: bool)
    ensures
        r == (a@ == b@),
    decreases a,
{
    match (a, b) {
        (Type::Nil, Type::Nil) => true,
        (Type::Any, Type::Any) => true,
        (Type::Num, Type::Num) => true,
        (Type::Distr, Type::Distr) => true,
        (Type::Sequence(x), Type::Sequence(y)) => same_type(x, y),
        (Type::Fn(f), Type::Fn(g)) => {
            proof {
                lemma_fn_type_view(*f);
                lemma_fn_type_view(*g);
            }
            same_types(&f.in_types, &g.in_types) && same_type(&f.out_type, &g.out_type)
        },
        _ => false,
    }
}

impl PartialEq for Type {
    fn eq(&self, other: &Type) -> (r: bool) {
        same_type(self, other)
    }
}

impl vstd::std_specs::cmp::PartialEqSpecImpl for Type {
    open spec fn obeys_eq_spec() -> bool {
        true
    }

    open spec fn eq_spec(&self, other: &Type) -> bool {
        self@ == other@
    }
}

impl Eq for Type {

}

impl PartialEq for FnType {
    fn eq(&self, other: &FnType) -> (r: bool) {
        proof {
            lemma_fn_type_view(*self);
            lemma_fn_type_view(*other);
        }
        same_types(&self.in_types, &other.in_types) && same_type(&self.out_type, &other.out_type)
    }
}

impl vstd::std_specs::cmp::PartialEqSpecImpl for FnType {
    open spec fn obeys_eq_spec() -> bool {
        true
    }

    open spec fn eq_spec(&self, other: &FnType) -> bool {
        self@ == other@
    }
}

impl Eq for FnType {

}

impl From<FnType> for Type {
    fn from(fn_type: FnType) -> (r: Type) {
        Type::Fn(fn_type)
    }
}

impl vstd::std_specs::convert::FromSpecImpl<FnType> for Type {
    open spec fn obeys_from_spec() -> bool {
        true
    }

    open spec fn from_spec(fn_type: FnType) -> Type {
        Type::Fn(fn_type)
    }
}

impl FnType {
    /// A function type from its input types and its output type.
    pub fn new(in_types: Vec<Type>, out_type: Type) -> (r: FnType)
        ensures
            r@.in_types == types_model(in_types@),
            *r@.out_type == out_type@,
    {
        let r = FnType { in_types, out_type: Box::new(out_type) };
        proof {
            lemma_fn_type_view(r);
        }
        r
    }

    /// The type that is left once the first `num` inputs are supplied: the
    /// remaining inputs and the same output.
    pub fn curry(&self, num: usize) -> (r: FnType)
        requires
            num <= self@.in_types.len(),
        ensures
            r@ == curried(self@, num as int),
    {
        let r = FnType {
            in_types: clone_types(&self.in_types, num),
            out_type: Box::new(clone_type(&self.out_type)),
        };
        proof {
            lemma_fn_type_view(*self);
            lemma_fn_type_view(r);
        }
        r
    }

    /// The signature as `Fn(T1, T2) -> T3`.
    pub fn to_string(&self) -> (r: String)
        ensures
            r@ == fn_type_text(self@),
    {
        let mut buf: Vec<char> = Vec::new();
        push_fn_type_text(&mut buf, self);
        string_of(&buf)
    }
}

/// Appends how a function type is written to `buf`.
fn push_fn_type_text(buf: &mut Vec<char>, f: &FnType)
    ensures
        final(buf)@ == old(buf)@ + fn_type_text(f@),
    decreases f,
{
    let ghost parts = type_texts(f@.in_types);
    push_str(buf, "Fn(");
    let ghost base = buf@;
    let mut i: usize = 0;
    while i < f.in_types.len()
        invariant
            i <= f.in_types.len(),
            parts.len() == f.in_types.len(),
            forall|k: int|
                0 <= k < parts.len() ==> #[trigger] parts[k] == type_text(f.in_types@[k]@),
            buf@ == base + joined(parts.take(i as int), ", "@),
        decreases f.in_types.len() - i,
    {
        if i > 0 {
            push_str(buf, ", ");
        }
        push_type_text(buf, &f.in_types[i]);
        proof {
            let p = parts.take(i + 1);
            assert(p.drop_last() == parts.take(i as int));
            assert(p.last() == parts[i as int]);
            if i == 0 {
                assert(joined(parts.take(0), ", "@) == Seq::<char>::empty());
                assert(joined(p, ", "@) == p[0]);
            }
        }
        i += 1;
    }
    assert(parts.take(f.in_types.len() as int) == parts);
    push_str(buf, ") -> ");
    push_type_text(buf, &f.out_type);
}

/// Appends how a type is written to `buf`.
fn push_type_text(buf: &mut Vec<char>, t: &Type)
    ensures
        final(buf)@ == old(buf)@ + type_text(t@),
    decreases t,
{
    match t {
        Type::Nil => push_str(buf, "Nil"),
        Type::Any => push_str(buf, "Any"),
        Type::Num => push_str(buf, "Num"),
        Type::Distr => push_str(buf, "Distr"),
        Type::Sequence(inner) => {
            push_str(buf, "Seq<");
            push_type_text(buf, inner);
            push_str(buf, ">");
        },
        Type::Fn(f) => {
            proof {
                lemma_fn_type_view(*f);
            }
            push_fn_type_text(buf, f);
        },
    }
}

impl Type {
    /// The type that an annotation names, if it names one: `Nil`, `Num`,
    /// `Distr` or `Any`.
    pub fn try_from(s: &str) -> (r: Option<Type>)
        ensures
            r is Some <==> named_type(s@) is Some,
            r matches Some(t) ==> Some(t@) == named_type(s@),
    {
        let text = chars_of(s);
        if same_chars(&text, &chars_of("Nil")) {
            Some(Type::Nil)
        } else if same_chars(&text, &chars_of("Num")) {
            Some(Type::Num)
        } else if same_chars(&text, &chars_of("Distr")) {
            Some(Type::Distr)
        } else if same_chars(&text, &chars_of("Any")) {
            Some(Type::Any)
        } else {
            None
        }
    }

    /// The function signature, where this is a function type.
    pub fn try_to_fn(&self) -> (r: Option<&FnType>)
        ensures
            r is Some <==> self@ is Fn,
            r matches Some(f) ==> self@ == TypeModel::Fn(f@),
    {
        match self {
            Type::Fn(fn_type) => {
                proof {
                    lemma_fn_type_view(*fn_type);
                }
                Some(fn_type)
            },
            _ => None,
        }
    }

    /// Whether this is the wildcard type.
    pub fn is_any(&self) -> (r: bool)
        ensures
            r == (self@ is Any),
    {
        match self {
            Type::Any => true,
            _ => false,
        }
    }

    /// Whether a value of this type may stand where `type_` is expected.
    pub fn coercible_to(&self, type_: &Type) -> (r: bool)
        ensures
            r == coercible(self@, type_@),
    {
        if self.is_any() || type_.is_any() {
            return true;
        }
        let num_to_distr = match (self, type_) {
            (Type::Num, Type::Distr) => true,
            _ => false,
        };
        if num_to_distr {
            return true;
        }
        same_type(self, type_)
    }

    /// How the type is written in diagnostics, such as `Seq<Num>` or
    /// `Fn(Distr, Distr) -> Distr`.
    pub fn to_string(&self) -> (r: String)
        ensures
            r@ == type_text(self@),
    {
        let mut buf: Vec<char> = Vec::new();
        push_type_text(&mut buf, self);
        string_of(&buf)
    }
}

/// Every type is coercible to itself, and to and from `Any`. A number is
/// coercible to a distribution, a distribution is not coercible to a number.
/// Apart from these, only equal types are coercible to each other.
pub proof fn law_coercion(a: TypeModel, b: TypeModel)
    ensures
        coercible(a, a),
        coercible(a, TypeModel::Any),
        coercible(TypeModel::Any, a),
        coercible(TypeModel::Num, TypeModel::Distr),
        !coercible(TypeModel::Distr, TypeModel::Num),
        coercible(a, b) && !(a is Any) && !(b is Any) && !(a is Num && b is Distr) ==> a == b,
{
}

/// Supplying no input leaves a function type as it is, and supplying inputs
/// in two steps leaves what supplying them at once leaves.
pub proof fn law_curry(f: FnTypeModel, first: int, then: int)
    requires
        0 <= first,
        0 <= then,
        first + then <= f.in_types.len(),
    ensures
        curried(f, 0) == f,
        curried(f, first).in_types.len() == f.in_types.len() - first,
        curried(curried(f, first), then) == curried(f, first + then),
{
    assert(f.in_types.skip(0) =~= f.in_types);
    assert(f.in_types.skip(first).skip(then) =~= f.in_types.skip(first + then));
}

} // verus!
