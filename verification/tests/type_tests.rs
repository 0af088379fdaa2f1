use dnd_calc::type_info::{FnType, Type};

fn fn_type(in_types: Vec<Type>, out: Type) -> FnType {
    FnType::new(in_types, out)
}

#[test]
fn curry_drops_the_first_inputs() {
    let whole = fn_type(vec![Type::Distr, Type::Nil], Type::Any);
    let curried = whole.curry(1);
    assert_eq!(fn_type(vec![Type::Nil], Type::Any), curried);
    assert_eq!(whole.curry(0), whole);
    assert_eq!(whole.curry(2), fn_type(vec![], Type::Any));
}

#[test]
fn any_is_coercible_both_ways() {
    let all = vec![
        Type::Nil,
        Type::Any,
        Type::Num,
        Type::Distr,
        Type::Sequence(Box::new(Type::Num)),
        Type::Fn(fn_type(vec![Type::Num], Type::Distr)),
    ];
    for t in all.iter() {
        assert!(t.coercible_to(&Type::Any));
        assert!(Type::Any.coercible_to(t));
        assert!(t.coercible_to(t));
    }
}

#[test]
fn a_number_is_coercible_to_a_distribution_only() {
    assert!(Type::Num.coercible_to(&Type::Distr));
    assert!(!Type::Distr.coercible_to(&Type::Num));
    assert!(!Type::Num.coercible_to(&Type::Nil));
    assert!(!Type::Nil.coercible_to(&Type::Num));
}

#[test]
fn function_types_match_by_their_whole_signature() {
    let f = Type::Fn(fn_type(vec![Type::Distr, Type::Distr], Type::Distr));
    let g = Type::Fn(fn_type(vec![Type::Distr, Type::Distr], Type::Distr));
    let h = Type::Fn(fn_type(vec![Type::Num, Type::Distr], Type::Distr));
    let k = Type::Fn(fn_type(vec![Type::Distr, Type::Distr], Type::Num));
    let short = Type::Fn(fn_type(vec![Type::Distr], Type::Distr));
    assert!(f.coercible_to(&g));
    assert!(!f.coercible_to(&h));
    assert!(!h.coercible_to(&f));
    assert!(!f.coercible_to(&k));
    assert!(!f.coercible_to(&short));
    assert!(!Type::Sequence(Box::new(Type::Num)).coercible_to(&Type::Sequence(Box::new(Type::Distr))));
}

#[test]
fn types_are_written_for_diagnostics() {
    assert_eq!(Type::Nil.to_string(), "Nil");
    assert_eq!(Type::Any.to_string(), "Any");
    assert_eq!(Type::Num.to_string(), "Num");
    assert_eq!(Type::Distr.to_string(), "Distr");
    assert_eq!(Type::Sequence(Box::new(Type::Sequence(Box::new(Type::Num)))).to_string(), "Seq<Seq<Num>>");
    let f = fn_type(vec![Type::Num, Type::Distr], Type::Nil);
    assert_eq!(f.to_string(), "Fn(Num, Distr) -> Nil");
    assert_eq!(fn_type(vec![], Type::Nil).to_string(), "Fn() -> Nil");
    assert_eq!(
        Type::Fn(fn_type(vec![Type::Fn(fn_type(vec![Type::Any], Type::Any))], Type::Num)).to_string(),
        "Fn(Fn(Any) -> Any) -> Num"
    );
}

#[test]
fn only_primitive_types_can_be_named() {
    for name in ["Nil", "Num", "Distr", "Any"] {
        let t = Type::try_from(name).unwrap();
        assert_eq!(t.to_string(), name);
    }
    assert!(Type::try_from("Seq<Num>").is_none());
    assert!(Type::try_from("Fn(Num) -> Num").is_none());
    assert!(Type::try_from("num").is_none());
    assert!(Type::try_from("").is_none());
}

#[test]
fn try_to_fn_and_is_any() {
    let f = Type::Fn(fn_type(vec![Type::Num], Type::Distr));
    assert_eq!(f.try_to_fn().unwrap().in_types.len(), 1);
    assert!(Type::Num.try_to_fn().is_none());
    assert!(Type::Any.is_any());
    assert!(!Type::Nil.is_any());
    assert_eq!(Type::from(fn_type(vec![], Type::Num)), Type::Fn(fn_type(vec![], Type::Num)));
}
