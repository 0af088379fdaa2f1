use dnd_calc::env::Env;
use dnd_calc::error::ErrorKind;
use dnd_calc::eval::eval_within;
use dnd_calc::operations::{arith, Op};
use dnd_calc::parse::{native, parse_line};
use dnd_calc::symbols::{FnVal, Symbol};
use dnd_calc::type_info::Type;

fn add_fn() -> FnVal {
    match native(Op::Add) {
        Symbol::Fn(f) => f,
        _ => unreachable!(),
    }
}

#[test]
fn apply_curries_then_evaluates() {
    let mut env = Env::new();
    let add = add_fn();
    let partial = match add.apply(&[Symbol::Num(1)], &mut env).unwrap() {
        Symbol::Fn(f) => f,
        other => panic!("expected a function, got {}", other.repr()),
    };
    assert_eq!(partial.type_.in_types.len(), add.type_.in_types.len() - 1);
    assert_eq!(partial.exprs.len(), 1);
    let stepwise = partial.apply(&[Symbol::Num(2)], &mut env).unwrap();
    let at_once = add.apply(&[Symbol::Num(1), Symbol::Num(2)], &mut env).unwrap();
    assert_eq!(stepwise.try_to_num().unwrap(), 3);
    assert_eq!(at_once.try_to_num().unwrap(), 3);
    assert_eq!(stepwise.repr(), at_once.repr());
    let e = add
        .apply(&[Symbol::Num(1), Symbol::Num(2), Symbol::Num(3)], &mut env)
        .unwrap_err();
    assert_eq!(e.kind, ErrorKind::TooManyArgs);
    assert_eq!(
        e.reason,
        "function was applied too many arguments: <Fn(Distr, Distr) -> Distr at add> \
         expected 2 more, was given 3"
    );
}

#[test]
fn captured_arguments_are_evaluated_when_the_last_arrives() {
    let mut env = Env::new();
    env.bind_var("x".to_string(), Symbol::Num(1), Type::Num);
    let partial = match add_fn().apply(&[Symbol::Text("x".to_string())], &mut env).unwrap() {
        Symbol::Fn(f) => f,
        other => panic!("expected a function, got {}", other.repr()),
    };
    env.bind_var("x".to_string(), Symbol::Num(10), Type::Num);
    let value = partial.apply(&[Symbol::Num(2)], &mut env).unwrap();
    assert_eq!(value.try_to_num().unwrap(), 12);
}

#[test]
fn native_operations_check_their_arguments() {
    let mut env = Env::new();
    let e = Op::Add.eval(vec![Symbol::Num(1)], &mut env).unwrap_err();
    assert_eq!(e.kind, ErrorKind::Arity);
    let e = Op::Add.eval(vec![Symbol::Num(1), Symbol::Nil], &mut env).unwrap_err();
    assert_eq!(e.kind, ErrorKind::NotDistr);
    let e = Op::MakeDice.eval(vec![Symbol::Nil, Symbol::Num(1)], &mut env).unwrap_err();
    assert_eq!(e.kind, ErrorKind::NotNum);
    let e = Symbol::Num(1).try_to_str().unwrap_err();
    assert_eq!(e.kind, ErrorKind::NotText);
    assert_eq!(e.reason, "1 is not a string");
    let value = Op::DivBy.eval(vec![Symbol::Num(2), Symbol::Num(10)], &mut env).unwrap();
    assert_eq!(value.try_to_num().unwrap(), 5);
    let value = Op::MakeDiceSingle.eval(vec![Symbol::Num(4)], &mut env).unwrap();
    assert_eq!(value.try_to_distr().unwrap().len(), 4);
    assert_eq!(Op::Mul.arity(), 2);
    assert_eq!(Op::StatView.arity(), 1);
    assert_eq!(Op::MakeDice.signature().to_string(), "Fn(Num, Num) -> Distr");
    assert_eq!(Op::TableView.signature().to_string(), "Fn(Distr) -> Nil");
    assert_eq!(Op::Sub.name(), "sub");
}

#[test]
fn arithmetic_on_outcomes() {
    assert_eq!(arith(Op::Add, 2, 3).unwrap(), 5);
    assert_eq!(arith(Op::Sub, 2, 3).unwrap(), -1);
    assert_eq!(arith(Op::Mul, -2, 3).unwrap(), -6);
    assert_eq!(arith(Op::Div, -6, 3).unwrap(), -2);
    assert_eq!(arith(Op::DivBy, 3, -6).unwrap(), -2);
    assert_eq!(arith(Op::Div, 6, 0).unwrap_err().kind, ErrorKind::ZeroDivision);
    assert_eq!(arith(Op::Div, 7, 2).unwrap_err().kind, ErrorKind::InexactDivision);
    assert_eq!(arith(Op::Div, -7, 2).unwrap_err().kind, ErrorKind::InexactDivision);
    assert_eq!(arith(Op::Div, i32::MIN, -1).unwrap_err().kind, ErrorKind::Overflow);
    assert_eq!(arith(Op::Add, i32::MAX, 1).unwrap_err().kind, ErrorKind::Overflow);
    assert_eq!(arith(Op::LessOrEqual, 1, 2).unwrap(), 1);
    assert_eq!(arith(Op::NotEqual, 2, 2).unwrap(), 0);
}

#[test]
fn evaluation_stops_at_the_depth_it_is_given() {
    let mut env = Env::new();
    let ast = parse_line("((1 + 2) + 3) + 4", &env).unwrap();
    assert_eq!(ast.type_check(&env).unwrap().to_string(), "Distr");
    assert_eq!(eval_within(&ast, &mut env, 64).unwrap().try_to_num().unwrap(), 10);
    let e = eval_within(&ast, &mut env, 3).unwrap_err();
    assert_eq!(e.kind, ErrorKind::Depth);
    let e = eval_within(&Symbol::Num(1), &mut env, 0).unwrap_err();
    assert_eq!(e.kind, ErrorKind::Depth);
    assert_eq!(eval_within(&Symbol::Num(1), &mut env, 1).unwrap().try_to_num().unwrap(), 1);
}

#[test]
fn parsed_trees_are_written_back() {
    let env = Env::new();
    assert_eq!(parse_line("x = f 1 2", &env).unwrap().repr(), "x = (1 >> 2 >> f)");
    assert_eq!(parse_line("x : Num = 2", &env).unwrap().repr(), "x: Num = 2");
    assert_eq!(parse_line("[a, (b c)]", &env).unwrap().repr(), "[a, (c >> b)]");
    assert_eq!(parse_line("[a; 3]", &env).unwrap().repr(), "(a >> 3 >> repeat)");
    assert_eq!(parse_line("1 >> f >> g", &env).unwrap().repr(), "(1 >> (f >> g))");
    assert_eq!(
        parse_line("1 + 2", &env).unwrap().repr(),
        "(1 >> 2 >> <Fn(Distr, Distr) -> Distr at add>)"
    );
    assert_eq!(parse_line("()", &env).unwrap().repr(), "Nil");
}

#[test]
fn the_table_of_bindings_lists_every_name() {
    let mut env = Env::new();
    env.bind_var("x".to_string(), Symbol::Num(5), Type::Num);
    env.bind_builtin(Op::Add);
    env.bind_var("x".to_string(), Symbol::Num(7), Type::Any);
    let expected = format!(
        "{:<4}  {:<25}  {:<34}  \n{:<4}  {:<25}  {:<34}  \n{:<4}  {:<25}  {:<34}  \n",
        "Name",
        "Type",
        "Value",
        "x",
        "Any",
        "7",
        "add",
        "Fn(Distr, Distr) -> Distr",
        "<Fn(Distr, Distr) -> Distr at add>"
    );
    assert_eq!(env.table().to_string(), expected);
}

#[test]
fn the_listing_shows_the_tree_and_what_names_are_bound_to() {
    let mut env = Env::new();
    env.bind_var("x".to_string(), Symbol::Num(5), Type::Num);
    let ast = parse_line("y : Num = [x, q] >> f", &env).unwrap();
    assert_eq!(
        ast.walk(&env, 2),
        vec![
            "  Assigner[y: Num]",
            "      Apply Fn",
            "          Text f := ",
            "       to ",
            "          Seq: [",
            "              Text x := ",
            "                  Num: 5",
            "              Text q := ",
            "          ]",
        ]
    );
    let add = native(Op::Add);
    assert_eq!(
        add.walk(&env, 0),
        vec!["<Fn(Distr, Distr) -> Distr at add>, captured: ", "[", "]"]
    );
    assert_eq!(Symbol::Nil.walk(&env, 1), vec![" Nil"]);
}

#[test]
fn operations_are_written_with_their_arguments() {
    let args = vec![Symbol::Num(1), Symbol::Num(2)];
    assert_eq!(Op::Mul.repr(&args), "(1 * 2)");
    assert_eq!(Op::Div.repr(&args), "(1 / 2)");
    assert_eq!(Op::DivBy.repr(&args), "(2 / 1)");
    assert_eq!(Op::Add.repr(&args), "(1 + 2)");
    assert_eq!(Op::Sub.repr(&args), "(1 - 2)");
    assert_eq!(Op::StatView.repr(&args), "stats 1");
    assert_eq!(Op::HistView.repr(&args), "hist 1");
    assert_eq!(Op::TableView.repr(&args), "table 1");
    assert_eq!(Op::MakeDice.repr(&args), "1d2");
    assert_eq!(Op::MakeDiceSingle.repr(&args), "d1");
    assert_eq!(Op::LessOrEqual.repr(&args), "(1 <= 2)");
}

#[test]
fn symbols_are_made_from_plain_values() {
    assert_eq!(Symbol::from(3).repr(), "3");
    assert_eq!(Symbol::from("name".to_string()).repr(), "name");
    assert_eq!(Symbol::from(()).repr(), "Nil");
    assert_eq!(Symbol::from(dnd_calc::distr::Distr::from(4)).repr(), "4");
    assert_eq!(Symbol::from(dnd_calc::distr::Distr::unif(2)).repr(), "<Mean: 1.500, Stdev: 0.500>");
    assert_eq!(Symbol::from(add_fn()).repr(), "<Fn(Distr, Distr) -> Distr at add>");
    assert_eq!(Symbol::Num(1).into_boxed().clone().repr(), "1");
}
