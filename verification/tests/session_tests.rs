use dnd_calc::env::Env;
use dnd_calc::error::{Error, ErrorKind, Origin};
use dnd_calc::operations::Op;
use dnd_calc::parse_analyze_evaluate;
use dnd_calc::symbols::Symbol;
use dnd_calc::type_info::Type;

fn full_env() -> Env {
    let mut env = Env::new();
    env.import_arithmetic().import_dice().import_comparisons();
    env
}

fn number(line: &str, env: &mut Env) -> i32 {
    parse_analyze_evaluate(line, env).unwrap().try_to_num().unwrap()
}

fn failure(line: &str, env: &mut Env) -> Error {
    match parse_analyze_evaluate(line, env) {
        Ok(value) => panic!("expected an error, got {}", value.repr()),
        Err(e) => e,
    }
}

#[test]
fn test_add() {
    let mut env = Env::new();
    let expr = parse_analyze_evaluate("10 + 2", &mut env).unwrap();
    assert_eq!(expr.try_to_num().unwrap(), 12);
}

#[test]
fn test_parens() {
    let mut env = Env::new();
    let expr = parse_analyze_evaluate("(10)", &mut env).unwrap();
    assert_eq!(expr.try_to_num().unwrap(), 10);
}

#[test]
fn test_embed_parens() {
    let mut env = Env::new();
    let expr = parse_analyze_evaluate("(10 + 5) * 2", &mut env).unwrap();
    assert_eq!(expr.try_to_num().unwrap(), 30);
}

#[test]
fn test_var_read() {
    let mut env = Env::new();
    env.bind_var("x".to_string(), Symbol::Num(5), Type::Num);
    let expr = parse_analyze_evaluate("x", &mut env).unwrap();
    assert_eq!(expr.try_to_num().unwrap(), 5);
}

#[test]
fn test_var_assign() {
    let mut env = Env::new();
    let _expr = parse_analyze_evaluate("x = 2", &mut env).unwrap();
    assert!(env.lookup_var("x").is_some());
    let num: i32 = env.lookup_var("x").unwrap().0.try_to_num().unwrap();
    assert_eq!(num, 2i32)
}

#[test]
fn subtraction_associates_to_the_left() {
    let mut env = Env::new();
    assert_eq!(number("10 - 3 - 2", &mut env), 5);
}

#[test]
fn multiplication_binds_tighter_than_addition() {
    let mut env = Env::new();
    assert_eq!(number("2 * 3 + 1", &mut env), 7);
    assert_eq!(number("1 + 2 * 3", &mut env), 7);
}

#[test]
fn parentheses_change_the_result() {
    let mut env = Env::new();
    assert_eq!(number("(10 + 5) * 2", &mut env), 30);
    assert_eq!(number("10 + 5 * 2", &mut env), 20);
}

#[test]
fn unclosed_parenthesis_points_at_the_opening() {
    let mut env = Env::new();
    let e = failure("(10 + 5", &mut env);
    assert_eq!(e.kind, ErrorKind::Unclosed);
    assert_eq!(e.origin, Origin::Brackets);
    assert_eq!(e.opt_span, Some((0, 1)));
    assert!(!e.reason.is_empty());
    let e = failure("1 + (2 * (3 + 4)", &mut env);
    assert_eq!(e.kind, ErrorKind::Unclosed);
    assert_eq!(e.opt_span, Some((4, 5)));
}

#[test]
fn unmatched_closing_bracket_is_reported_at_its_span() {
    let mut env = Env::new();
    let e = failure("5 )", &mut env);
    assert_eq!(e.kind, ErrorKind::UnmatchedClose);
    assert_eq!(e.opt_span, Some((2, 3)));
    assert!(!e.reason.is_empty());
    let e = failure("(5 ]", &mut env);
    assert_eq!(e.kind, ErrorKind::UnmatchedClose);
    assert_eq!(e.opt_span, Some((3, 4)));
}

#[test]
fn an_earlier_bracket_error_wins_over_a_later_lexical_error() {
    let mut env = Env::new();
    let e = failure("5 ) 99999999999", &mut env);
    assert_eq!(e.kind, ErrorKind::UnmatchedClose);
    let e = failure("99999999999 )", &mut env);
    assert_eq!(e.kind, ErrorKind::BadNumeral);
    assert_eq!(e.origin, Origin::Tokenizer);
    assert_eq!(e.opt_span, Some((0, 11)));
}

#[test]
fn assignment_is_seen_by_the_next_line() {
    let mut env = Env::new();
    let value = parse_analyze_evaluate("x = 2", &mut env).unwrap();
    assert!(matches!(value, Symbol::Nil));
    assert_eq!(number("x", &mut env), 2);
    parse_analyze_evaluate("x = 3", &mut env).unwrap();
    assert_eq!(number("x", &mut env), 3);
    assert_eq!(number("x + x", &mut env), 6);
}

#[test]
fn assignment_with_a_declared_type() {
    let mut env = Env::new();
    parse_analyze_evaluate("x : Num = 2", &mut env).unwrap();
    assert_eq!(number("x", &mut env), 2);
    parse_analyze_evaluate("y : Distr = 4", &mut env).unwrap();
    assert_eq!(number("y", &mut env), 4);
    parse_analyze_evaluate("z : Any = 4", &mut env).unwrap();
    let e = failure("w : Nil = 2", &mut env);
    assert_eq!(e.kind, ErrorKind::Annotation);
    assert_eq!(e.origin, Origin::Session);
    assert!(env.lookup_var("w").is_none());
    let e = failure("w : Number = 2", &mut env);
    assert_eq!(e.kind, ErrorKind::InvalidType);
}

#[test]
fn nested_assignments_are_refused_at_the_second_sign() {
    let mut env = Env::new();
    let e = failure("x = y = 2", &mut env);
    assert_eq!(e.kind, ErrorKind::NestedAssign);
    assert_eq!(e.opt_span, Some((6, 7)));
    assert!(env.lookup_var("x").is_none());
}

#[test]
fn malformed_patterns_are_refused() {
    let mut env = Env::new();
    let e = failure("1 = 2", &mut env);
    assert_eq!(e.kind, ErrorKind::BadPattern);
    assert_eq!(e.opt_span, Some((0, 1)));
    let e = failure("x y = 2", &mut env);
    assert_eq!(e.kind, ErrorKind::BadPattern);
    assert_eq!(e.opt_span, Some((0, 3)));
    let e = failure("= 2", &mut env);
    assert_eq!(e.kind, ErrorKind::BadPattern);
    assert_eq!(e.opt_span, None);
}

#[test]
fn division_by_zero_is_an_error() {
    let mut env = Env::new();
    let e = failure("6 / 0", &mut env);
    assert_eq!(e.kind, ErrorKind::ZeroDivision);
    assert_eq!(e.origin, Origin::Session);
    assert!(e.reason.contains("evaluator failed"));
    assert!(e.reason.contains("Caused by:"));
    assert!(e.reason.contains("no result for the outcomes 6 and 0"));
}

#[test]
fn division_is_exact() {
    let mut env = Env::new();
    assert_eq!(number("6 / 3", &mut env), 2);
    assert_eq!(number("0 / 3", &mut env), 0);
    assert_eq!(number("(0 - 6) / 3", &mut env), -2);
    assert_eq!(number("6 / (0 - 3)", &mut env), -2);
    let e = failure("7 / 2", &mut env);
    assert_eq!(e.kind, ErrorKind::InexactDivision);
}

#[test]
fn division_without_a_left_operand_is_a_function() {
    let mut env = Env::new();
    assert_eq!(number("12 >> /6", &mut env), 2);
    parse_analyze_evaluate("half = /2", &mut env).unwrap();
    assert_eq!(number("half 10", &mut env), 5);
    assert_eq!(number("10 >> half", &mut env), 5);
    match parse_analyze_evaluate("/6", &mut env).unwrap() {
        Symbol::Fn(f) => {
            assert_eq!(f.type_.in_types.len(), 1);
            assert_eq!(f.exprs.len(), 1);
        }
        other => panic!("expected a function, got {}", other.repr()),
    }
}

#[test]
fn arithmetic_overflow_is_an_error() {
    let mut env = Env::new();
    let e = failure("2147483647 + 1", &mut env);
    assert_eq!(e.kind, ErrorKind::Overflow);
    let e = failure("65536 * 65536", &mut env);
    assert_eq!(e.kind, ErrorKind::Overflow);
    let e = failure("(0 - 2147483647) - 2", &mut env);
    assert_eq!(e.kind, ErrorKind::Overflow);
    assert_eq!(number("2147483646 + 1", &mut env), 2147483647);
}

#[test]
fn currying_is_not_observable() {
    let mut env = full_env();
    match parse_analyze_evaluate("add 1", &mut env).unwrap() {
        Symbol::Fn(f) => {
            assert_eq!(f.type_.in_types.len(), 1);
            assert_eq!(f.type_.to_string(), "Fn(Distr) -> Distr");
            assert_eq!(f.exprs.len(), 1);
        }
        other => panic!("expected a function, got {}", other.repr()),
    }
    assert_eq!(number("add 1 2", &mut env), 3);
    assert_eq!(number("(add 1) 2", &mut env), 3);
    parse_analyze_evaluate("inc = add 1", &mut env).unwrap();
    assert_eq!(number("inc 2", &mut env), 3);
    assert_eq!(number("sub 10 4", &mut env), 6);
    assert_eq!(number("(sub 10) 4", &mut env), 6);
}

#[test]
fn too_many_arguments_are_a_type_error() {
    let mut env = full_env();
    let e = failure("add 1 2 3", &mut env);
    assert_eq!(e.kind, ErrorKind::TooManyArgs);
    assert_eq!(e.opt_span, None);
    assert!(!e.reason.is_empty());
    assert!(e.reason.contains("type checker failed"));
}

#[test]
fn a_sequence_is_no_argument_for_add() {
    let mut env = full_env();
    let e = failure("add [1, 2] 3", &mut env);
    assert_eq!(e.kind, ErrorKind::Signature);
    assert!(e.reason.contains("expected type Distr, found type Seq<Any>"));
    let e = failure("[1] + 2", &mut env);
    assert_eq!(e.kind, ErrorKind::Signature);
}

#[test]
fn names_without_a_binding_are_refused() {
    let mut env = Env::new();
    let e = failure("y", &mut env);
    assert_eq!(e.kind, ErrorKind::Unbound);
    let e = failure("2d6", &mut env);
    assert_eq!(e.kind, ErrorKind::Unbound);
}

#[test]
fn applying_a_number_is_refused() {
    let mut env = Env::new();
    let e = failure("1 2", &mut env);
    assert_eq!(e.kind, ErrorKind::NotAFunction);
}

#[test]
fn ambiguous_and_empty_expressions_are_refused() {
    let mut env = Env::new();
    let e = failure("1 ! 2", &mut env);
    assert_eq!(e.kind, ErrorKind::Ambiguous);
    assert_eq!(e.opt_span, Some((0, 5)));
    let e = failure("", &mut env);
    assert_eq!(e.kind, ErrorKind::UnexpectedEnd);
    let e = failure("   ", &mut env);
    assert_eq!(e.kind, ErrorKind::UnexpectedEnd);
    let e = failure("1 +", &mut env);
    assert_eq!(e.kind, ErrorKind::UnexpectedEnd);
    let e = failure("* 2", &mut env);
    assert_eq!(e.kind, ErrorKind::UnexpectedEnd);
}

#[test]
fn empty_parentheses_are_nil() {
    let mut env = Env::new();
    let value = parse_analyze_evaluate("()", &mut env).unwrap();
    assert!(matches!(value, Symbol::Nil));
}

#[test]
fn dice_literals_make_distributions() {
    let mut env = full_env();
    match parse_analyze_evaluate("2d6", &mut env).unwrap() {
        Symbol::Distr(d) => {
            assert_eq!(d.iter(), vec![2, 3, 4, 5, 6, 7, 8, 9, 10, 11, 12]);
            assert_eq!(d.prob(7), 6);
            assert_eq!(d.total(), 36);
        }
        other => panic!("expected a distribution, got {}", other.repr()),
    }
    match parse_analyze_evaluate("2d6 + 3", &mut env).unwrap() {
        Symbol::Distr(d) => {
            assert_eq!(d.iter(), vec![5, 6, 7, 8, 9, 10, 11, 12, 13, 14, 15]);
            assert_eq!(d.prob(10), 6);
        }
        other => panic!("expected a distribution, got {}", other.repr()),
    }
    match parse_analyze_evaluate("d6", &mut env).unwrap() {
        Symbol::Distr(d) => {
            assert_eq!(d.iter(), vec![1, 2, 3, 4, 5, 6]);
        }
        other => panic!("expected a distribution, got {}", other.repr()),
    }
    match parse_analyze_evaluate("make-dice 1 4", &mut env).unwrap() {
        Symbol::Distr(d) => {
            assert_eq!(d.iter(), vec![1, 2, 3, 4]);
        }
        other => panic!("expected a distribution, got {}", other.repr()),
    }
}

#[test]
fn dice_that_do_not_fit_are_an_error() {
    let mut env = full_env();
    let e = failure("100d100", &mut env);
    assert_eq!(e.kind, ErrorKind::Overflow);
    let e = failure("99999999999d6", &mut env);
    assert_eq!(e.kind, ErrorKind::BadNumeral);
    assert_eq!(e.opt_span, Some((0, 11)));
    let e = failure("2d99999999999", &mut env);
    assert_eq!(e.kind, ErrorKind::BadNumeral);
    assert_eq!(e.opt_span, Some((2, 13)));
}

#[test]
fn a_distribution_with_several_outcomes_is_no_number() {
    let mut env = full_env();
    let value = parse_analyze_evaluate("1d6", &mut env).unwrap();
    let e = value.try_to_num().unwrap_err();
    assert_eq!(e.kind, ErrorKind::NotScalar);
    let e = failure("make-dice 1d6 2", &mut env);
    assert_eq!(e.kind, ErrorKind::Signature);
    let e = Op::MakeDice.eval(vec![value, Symbol::Num(2)], &mut env).unwrap_err();
    assert_eq!(e.kind, ErrorKind::NotScalar);
}

#[test]
fn views_put_lines_out() {
    let mut env = full_env();
    let value = parse_analyze_evaluate("table 1d2", &mut env).unwrap();
    assert!(matches!(value, Symbol::Nil));
    assert_eq!(
        env.take_output(),
        vec!["  x | P(x)\n ---\u{254b}-----\n  1 | 0.50000\n  2 | 0.50000\n".to_string()]
    );
    assert!(env.take_output().is_empty());
    parse_analyze_evaluate("stats 1d6", &mut env).unwrap();
    parse_analyze_evaluate("hist 1d2", &mut env).unwrap();
    assert_eq!(
        env.take_output(),
        vec![
            "<Mean: 3.500, Stdev: 1.708>".to_string(),
            format!(" 1: {}\n 2: {}\n", "X".repeat(50), "X".repeat(50)),
        ]
    );
}

#[test]
fn comparisons_give_indicator_distributions() {
    let mut env = full_env();
    assert_eq!(number("greater-than 3 2", &mut env), 1);
    assert_eq!(number("greater-than 2 3", &mut env), 0);
    assert_eq!(number("less-than-or-equal 2 2", &mut env), 1);
    assert_eq!(number("not-equals 2 2", &mut env), 0);
    assert_eq!(number("equals 2 2", &mut env), 1);
    match parse_analyze_evaluate("greater-than-or-equal 1d6 5", &mut env).unwrap() {
        Symbol::Distr(d) => {
            assert_eq!(d.prob(1), 2);
            assert_eq!(d.prob(0), 4);
        }
        other => panic!("expected a distribution, got {}", other.repr()),
    }
    match parse_analyze_evaluate("less-than 1d6 5", &mut env).unwrap() {
        Symbol::Distr(d) => {
            assert_eq!(d.prob(1), 4);
            assert_eq!(d.prob(0), 2);
        }
        other => panic!("expected a distribution, got {}", other.repr()),
    }
}

#[test]
fn sequences_are_evaluated_element_by_element() {
    let mut env = Env::new();
    let value = parse_analyze_evaluate("[1 + 1, 2 * 3, (4)]", &mut env).unwrap();
    assert_eq!(value.repr(), "[2, 6, 4]");
    let value = parse_analyze_evaluate("[]", &mut env).unwrap();
    assert_eq!(value.repr(), "[]");
    let e = failure("[1, 2,]", &mut env);
    assert_eq!(e.kind, ErrorKind::UnexpectedEnd);
    let e = failure("[1; 2; 3]", &mut env);
    assert_eq!(e.kind, ErrorKind::Ambiguous);
    let e = failure("[1, 2; 3]", &mut env);
    assert_eq!(e.kind, ErrorKind::Ambiguous);
    let e = failure("[1; 3]", &mut env);
    assert_eq!(e.kind, ErrorKind::Unbound);
    let e = failure("[1, 2", &mut env);
    assert_eq!(e.kind, ErrorKind::Unclosed);
    assert_eq!(e.opt_span, Some((0, 1)));
}

#[test]
fn a_function_that_evaluates_itself_hits_the_depth_limit() {
    let mut env = full_env();
    parse_analyze_evaluate("h = add 1", &mut env).unwrap();
    parse_analyze_evaluate("h = add (h 1)", &mut env).unwrap();
    let e = failure("h 5", &mut env);
    assert_eq!(e.kind, ErrorKind::Depth);
}

#[test]
fn the_pipe_applies_what_stands_right_of_it() {
    let mut env = full_env();
    assert_eq!(number("2 >> 3 >> add", &mut env), 5);
    assert_eq!(number("2 >> add 3", &mut env), 5);
    assert_eq!(number("4 >> 10 >> sub", &mut env), 6);
}

#[test]
fn spans_count_bytes() {
    let mut env = Env::new();
    let e = failure("\u{e9} )", &mut env);
    assert_eq!(e.kind, ErrorKind::UnmatchedClose);
    assert_eq!(e.opt_span, Some((3, 4)));
}

#[test]
fn a_value_of_any_type_is_checked_when_it_is_applied() {
    let mut env = Env::new();
    env.bind_var("f".to_string(), Symbol::Num(1), Type::Any);
    let e = failure("f 2", &mut env);
    assert_eq!(e.kind, ErrorKind::NotAFunction);
    assert!(e.reason.contains("evaluator failed"));
}

#[test]
fn a_line_that_fails_leaves_the_bindings_alone() {
    let mut env = full_env();
    parse_analyze_evaluate("x = 1", &mut env).unwrap();
    failure("x = (1 +", &mut env);
    failure("x = y", &mut env);
    failure("x = 1 / 0", &mut env);
    assert_eq!(number("x", &mut env), 1);
    assert!(env.take_output().is_empty());
}

#[test]
fn a_failed_division_names_its_operands() {
    let mut env = full_env();
    let e = failure("div 7 2", &mut env);
    assert_eq!(e.kind, ErrorKind::InexactDivision);
    assert_eq!(
        e.reason,
        "evaluator failed\n    Caused by:   [evaluator] arithmetic failed\n        \
         Caused by:   [distribution] no result for the outcomes 7 and 2\n            \
         Caused by:   [evaluator] division leaves a remainder (operands 7 and 2)"
    );
    assert_eq!(number("div 6 3", &mut env), 2);
    let e = failure("7 / 2", &mut env);
    assert!(e.reason.contains("no result for the outcomes 7 and 2"));
    let e = failure("2 >> /7", &mut env);
    assert_eq!(e.kind, ErrorKind::InexactDivision);
    assert!(e.reason.contains("no result for the outcomes 7 and 2"));
    assert!(e.reason.contains("division leaves a remainder (operands 2 and 7)"));
    let e = failure("1d6 / 1d2", &mut env);
    assert!(e.reason.contains("no result for the outcomes 1 and 2"));
}

#[test]
fn an_unbound_name_is_named_in_the_error() {
    let mut env = Env::new();
    let e = Symbol::Text("lost".to_string()).type_check(&env).unwrap_err();
    assert_eq!(e.kind, ErrorKind::Unbound);
    assert_eq!(e.origin, Origin::TypeChecker);
    assert_eq!(e.reason, "no binding in current namespace for lost");
    let e = failure("1 + lost", &mut env);
    assert!(e.reason.contains("no binding in current namespace for lost"));
    let e = dnd_calc::eval::eval_within(&Symbol::Text("lost".to_string()), &mut env, 4).unwrap_err();
    assert_eq!(e.origin, Origin::Evaluator);
    assert_eq!(e.reason, "no binding in current namespace for lost");
}

#[test]
fn an_assignment_nests_no_deeper_than_its_expression() {
    let mut env = Env::new();
    let expr = Symbol::Num(4);
    let whole = Symbol::Assigner {
        name: "x".to_string(),
        def_type: None,
        expr: Box::new(Symbol::Num(4)),
    };
    assert_eq!(dnd_calc::eval::eval_within(&expr, &mut env, 1).unwrap().repr(), "4");
    assert!(matches!(dnd_calc::eval::eval_within(&whole, &mut env, 1).unwrap(), Symbol::Nil));
    assert_eq!(number("x", &mut env), 4);
    env.bind_var("y".to_string(), Symbol::Num(9), Type::Num);
    parse_analyze_evaluate("x = 5", &mut env).unwrap();
    assert_eq!(number("x", &mut env), 5);
    assert_eq!(number("y", &mut env), 9);
}

#[test]
fn debug_puts_out_a_listing_of_its_argument() {
    let mut env = full_env();
    env.bind_builtin(Op::Debug);
    parse_analyze_evaluate("x = 5", &mut env).unwrap();
    let value = parse_analyze_evaluate("debug [x, 2]", &mut env).unwrap();
    assert!(matches!(value, Symbol::Nil));
    assert_eq!(env.take_output(), vec!["Seq: [", "    Num: 5", "    Num: 2", "]"]);
    assert_eq!(Op::Debug.signature().to_string(), "Fn(Any) -> Any");
    assert_eq!(Op::Debug.repr(&vec![Symbol::Num(1)]), "debug 1");
}
