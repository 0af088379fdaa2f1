use dnd_calc::error::{ConcatErr, Error, ErrorKind, Origin};
use dnd_calc::util::{layout, Table};

#[test]
fn underline_marks_the_span() {
    assert_eq!(Error::underline("1 + (2", (4, 5)), "1 + (2\n    ^");
    assert_eq!(Error::underline("abcdef", (1, 4)), "abcdef\n ^^^");
    assert_eq!(Error::underline("abc", (0, 0)), "abc\n");
}

#[test]
fn concat_keeps_the_specific_span_and_kind() {
    let specific = Error::fail_at(
        (1, 10),
        ErrorKind::Unbound,
        Origin::TypeChecker,
        "the doo dad didn't work".to_string(),
    );
    let general = Error::fail_at(
        (7, 12),
        ErrorKind::Context,
        Origin::Session,
        "parser failed".to_string(),
    );
    let e = specific.concat(general);
    assert_eq!(e.opt_span, Some((1, 10)));
    assert_eq!(e.kind, ErrorKind::Unbound);
    assert_eq!(e.origin, Origin::Session);
    assert_eq!(
        e.reason,
        "parser failed\n    Caused by:   [type checker] the doo dad didn't work"
    );
}

#[test]
fn concat_falls_back_on_the_general_span() {
    let specific = Error::fail(ErrorKind::NotNum, Origin::Evaluator, "inner\nlines".to_string());
    let general = Error::fail_at((7, 12), ErrorKind::Context, Origin::Session, "outer".to_string());
    let e = specific.concat(general);
    assert_eq!(e.opt_span, Some((7, 12)));
    assert_eq!(e.reason, "outer\n    Caused by:   [evaluator] inner\n    lines");
    assert_eq!(e.to_string(), "  [session] outer\n    Caused by:   [evaluator] inner\n    lines");
}

#[test]
fn concat_err_leaves_success_alone() {
    let ok: Result<i32, Error> = Ok(3);
    let general = Error::fail(ErrorKind::Context, Origin::Session, "outer".to_string());
    assert_eq!(ok.concat_err(general).unwrap(), 3);
    let err: Result<i32, Error> =
        Err(Error::fail(ErrorKind::Depth, Origin::Evaluator, "inner".to_string()));
    let general = Error::fail(ErrorKind::Context, Origin::Session, "outer".to_string());
    let e = err.concat_err(general).unwrap_err();
    assert_eq!(e.kind, ErrorKind::Depth);
    assert_eq!(e.reason, "outer\n    Caused by:   [evaluator] inner");
}

#[test]
fn table_pads_cells_to_the_widest_of_their_column() {
    let mut table = Table::new(vec!["Name".to_string(), "Type".to_string(), "Value".to_string()]);
    table.add_row(vec!["x".to_string(), "Num".to_string(), "12345678".to_string()]);
    table.add_row(vec!["longer-name".to_string(), "Distr".to_string(), "2".to_string()]);
    assert_eq!(
        table.to_string(),
        "Name         Type   Value     \nx            Num    12345678  \nlonger-name  Distr  2         \n"
    );
}

#[test]
fn layout_joins_cells_and_rows() {
    let rows = vec![vec!["a".to_string(), "bc".to_string()], vec![], vec!["d".to_string()]];
    assert_eq!(layout(&rows), "a  bc  \n\nd  \n");
}
