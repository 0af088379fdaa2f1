use dnd_calc::ptokens::{MaybeHasSpan, PToken, PTokenKind, TokenCaptureStream};
use dnd_calc::symbols::Symbol;
use regex::Regex;

fn pattern() -> Regex {
    Regex::new(
        r"(?x)
     ^\s*(?:
      (?P<ident>[a-zA-Z_][a-zA-Z\-_]*)  # an identifier
     |(?P<dice>(?P<dice_num>[0-9]+)?d(?P<dice_size>[0-9]+))  # a dice literal
     |(?P<num>[0-9]+)          # a numeral
     |(?P<res>>>|[^\s])        # a reserved ptoken
     )",
    )
    .unwrap()
}

fn class_of(token: &PToken) -> &'static str {
    match &token.kind {
        PTokenKind::Reserved(_) => "res",
        PTokenKind::Expr(Symbol::Text(_)) => "ident",
        PTokenKind::Expr(Symbol::Num(_)) => "num",
        PTokenKind::Expr(Symbol::Apply { .. }) => "dice",
        PTokenKind::Expr(_) => "other",
    }
}

fn tokens_by_pattern(source: &str) -> Vec<(&'static str, usize, usize)> {
    let re = pattern();
    let mut out = Vec::new();
    let mut idx = 0;
    while let Some(captures) = re.captures(&source[idx..]) {
        let mut found = None;
        for class in ["ident", "dice", "num", "res"] {
            if let Some(mat) = captures.name(class) {
                found = Some((class, idx + mat.start(), idx + mat.end()));
                break;
            }
        }
        out.push(found.unwrap());
        idx += captures.get(0).unwrap().end();
    }
    out
}

fn tokens_by_stream(source: &str) -> Vec<(&'static str, usize, usize)> {
    let mut stream = TokenCaptureStream::new(source);
    let mut out = Vec::new();
    while let Some(result) = stream.next() {
        let token = result.unwrap();
        out.push((class_of(&token), token.span.0, token.span.1));
    }
    out
}

#[test]
fn the_stream_agrees_with_the_token_pattern() {
    let lines = [
        "",
        "   ",
        "10 + 2",
        "(10 + 5) * 2",
        "2d6+3",
        "d6",
        "2d",
        "2dx",
        "2d6x",
        "12d34d56",
        "x-1",
        "x - 1",
        "make-dice 2 6",
        "a_b-c D9 _",
        "1>>2>>>3>",
        "[1, 2; 3]",
        "x : Num = 2",
        "\t1\u{a0}+\u{2003}2\u{3000}",
        "\u{e9}\u{4e2d} \u{1f3b2}7",
        "007 0d0 00d00",
        "9 d 6",
    ];
    for line in lines {
        assert_eq!(tokens_by_stream(line), tokens_by_pattern(line), "line {:?}", line);
    }
}

#[test]
fn tokens_carry_their_text() {
    let mut stream = TokenCaptureStream::new("  foo-bar >> 42 2d6 \u{e9}");
    let token = stream.next().unwrap().unwrap();
    assert_eq!(token.try_to_expr().unwrap().try_to_str().unwrap(), "foo-bar");
    assert_eq!(token.span, (2, 9));
    assert!(token.try_to_reserved().is_none());
    let token = stream.next().unwrap().unwrap();
    assert!(token.is_reserved(">>"));
    assert!(!token.is_reserved(">"));
    assert_eq!(token.try_to_reserved(), Some(">>"));
    assert!(token.try_to_expr().is_none());
    let token = stream.next().unwrap().unwrap();
    assert_eq!(token.try_to_expr().unwrap().try_to_num().unwrap(), 42);
    assert!(!token.is_reserved("42"));
    let token = stream.next().unwrap().unwrap();
    assert_eq!(token.try_to_expr().unwrap().repr(), "(2 >> 6 >> make-dice)");
    assert_eq!(token.span, (16, 19));
    let token = stream.next().unwrap().unwrap();
    assert!(token.is_reserved("\u{e9}"));
    assert_eq!(token.span, (20, 22));
    assert!(stream.next().is_none());
    assert!(stream.next().is_none());
}

#[test]
fn the_stream_goes_on_after_a_lexical_error() {
    let mut stream = TokenCaptureStream::new("99999999999 1");
    assert!(stream.next().unwrap().is_err());
    let token = stream.next().unwrap().unwrap();
    assert_eq!(token.try_to_expr().unwrap().try_to_num().unwrap(), 1);
    let mut stream = TokenCaptureStream::new("2147483647 2147483648");
    assert_eq!(stream.next().unwrap().unwrap().try_to_expr().unwrap().try_to_num().unwrap(), 2147483647);
    assert!(stream.next().unwrap().is_err());
}

#[test]
fn spans_of_token_lists() {
    let tokens = vec![
        PToken::from_symbol(Symbol::Num(27720), (5, 10)),
        PToken::from_symbol(Symbol::Nil, (12, 14)),
    ];
    assert_eq!(tokens.as_slice().get_opt_span(), Some((5, 14)));
    let none: Vec<PToken> = vec![];
    assert_eq!(none.as_slice().get_opt_span(), None);
}

fn outcome_by_pattern(source: &str) -> Vec<(&'static str, usize, usize)> {
    tokens_by_pattern(source)
        .into_iter()
        .map(|(class, from, to)| {
            let text = &source[from..to];
            let fits = match class {
                "num" => text.parse::<i32>().is_ok(),
                "dice" => text.split('d').all(|part| part.parse::<i32>().is_ok()),
                _ => true,
            };
            if fits {
                (class, from, to)
            } else {
                ("bad", from, to)
            }
        })
        .collect()
}

fn outcome_by_stream(source: &str) -> Vec<(&'static str, usize, usize)> {
    let mut stream = TokenCaptureStream::new(source);
    let mut out = Vec::new();
    let mut at = 0;
    let re = pattern();
    while let Some(result) = stream.next() {
        let whole = re.captures(&source[at..]).unwrap().get(0).unwrap();
        match result {
            Ok(token) => out.push((class_of(&token), token.span.0, token.span.1)),
            Err(e) => {
                let span = e.opt_span.unwrap();
                assert!(at + whole.start() <= span.0 && span.1 <= at + whole.end());
                let first = source[at..at + whole.end()].trim_start();
                out.push(("bad", at + whole.end() - first.len(), at + whole.end()));
            }
        }
        at += whole.end();
    }
    out
}

#[test]
fn the_stream_agrees_with_the_token_pattern_on_many_lines() {
    let alphabet: Vec<char> = "0123456789dDxy_-> \t+*/()[],;:=\u{e9}\u{a0}\u{2003}\u{4e2d}".chars().collect();
    let mut state: u64 = 0x2545f4914f6cdd1d;
    for _ in 0..3000 {
        let mut line = String::new();
        state = state.wrapping_mul(6364136223846793005).wrapping_add(1442695040888963407);
        let len = (state >> 33) % 14;
        for _ in 0..len {
            state = state.wrapping_mul(6364136223846793005).wrapping_add(1442695040888963407);
            let pick = ((state >> 33) % alphabet.len() as u64) as usize;
            line.push(alphabet[pick]);
        }
        assert_eq!(outcome_by_stream(&line), outcome_by_pattern(&line), "line {:?}", line);
    }
}
