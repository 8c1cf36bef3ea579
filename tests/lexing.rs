use lispfmt::kind::SyntaxKind;
use lispfmt::lexer::lex;
use lispfmt::node::Token;

fn kinds(src: &str) -> Vec<(SyntaxKind, String)> {
    lex(src)
        .unwrap()
        .into_iter()
        .map(|t: Token| (t.kind, t.text))
        .collect()
}

fn joined(src: &str) -> String {
    lex(src).unwrap().iter().map(|t| t.text.as_str()).collect()
}

#[test]
fn lexing_covers_the_input() {
    for src in [
        "(foo 1 2)",
        "  ; c\r\n[1 :a \"b\\\"c\"] 'x `(,y) #{} ~= true\n",
        "#!/bin/sh\n(a)",
        "héllo wörld",
    ] {
        assert_eq!(joined(src), src);
    }
}

#[test]
fn numbers() {
    for src in ["10", "-3.1415", "10e-3", "0xFFFFFF", "0x1.8p4", ".5", "1_000", "+.inf", ".nan"] {
        assert_eq!(kinds(src), vec![(SyntaxKind::Number, src.to_string())], "{}", src);
    }
}

#[test]
fn symbol_that_is_not_a_whole_number() {
    assert_eq!(kinds("1+2"), vec![(SyntaxKind::Symbol, "1+2".to_string())]);
    assert_eq!(kinds("1.5x"), vec![(SyntaxKind::Symbol, "1.5x".to_string())]);
    assert_eq!(kinds("-"), vec![(SyntaxKind::Symbol, "-".to_string())]);
}

#[test]
fn booleans_and_symbols() {
    assert_eq!(kinds("true"), vec![(SyntaxKind::Boolean, "true".to_string())]);
    assert_eq!(kinds("false)")[0], (SyntaxKind::Boolean, "false".to_string()));
    assert_eq!(kinds("trueish"), vec![(SyntaxKind::Symbol, "trueish".to_string())]);
    assert_eq!(kinds("~="), vec![(SyntaxKind::Symbol, "~=".to_string())]);
}

#[test]
fn keywords_and_strings() {
    assert_eq!(kinds(":foo"), vec![(SyntaxKind::Keyword, ":foo".to_string())]);
    assert_eq!(kinds("\"a\\\"b\""), vec![(SyntaxKind::String, "\"a\\\"b\"".to_string())]);
}

#[test]
fn prefixes_need_an_expression() {
    assert_eq!(
        kinds("'a"),
        vec![(SyntaxKind::Prefix, "'".to_string()), (SyntaxKind::Symbol, "a".to_string())]
    );
    assert_eq!(kinds("#'(a)"), vec![(SyntaxKind::HashDirective, "#'(a)".to_string())]);
    assert_eq!(
        kinds("a #(b)")[2..4],
        [(SyntaxKind::Prefix, "#".to_string()), (SyntaxKind::LParen, "(".to_string())]
    );
    assert_eq!(kinds("a #")[2], (SyntaxKind::Symbol, "#".to_string()));
    assert!(lex("'").is_err());
}

#[test]
fn trivia_pieces() {
    assert_eq!(
        kinds(" \t\r\n;c\n"),
        vec![
            (SyntaxKind::Space, " \t".to_string()),
            (SyntaxKind::Newline, "\r".to_string()),
            (SyntaxKind::Newline, "\n".to_string()),
            (SyntaxKind::Comment, ";c".to_string()),
            (SyntaxKind::Newline, "\n".to_string()),
        ]
    );
}

#[test]
fn spans_count_bytes() {
    let toks = lex("é (a)").unwrap();
    assert_eq!((toks[0].span.start, toks[0].span.end), (0, 2));
    assert_eq!((toks[2].span.start, toks[2].span.end), (3, 4));
    let last = toks.last().unwrap();
    assert_eq!(last.span.end, "é (a)".len());
}

#[test]
fn kind_names() {
    assert_eq!(SyntaxKind::List.name(), "list");
    assert_eq!(SyntaxKind::RParen.name(), "closing parenthesis");
    assert_eq!(SyntaxKind::Pair.name(), "key-value pair");
    assert!(SyntaxKind::Comment.is_trivia());
    assert!(!SyntaxKind::Symbol.is_trivia());
    assert!(lispfmt::kind::is_leading_trivia(&SyntaxKind::Newline));
    assert!(!lispfmt::kind::is_trailing_trivia(&SyntaxKind::Newline));
}

#[test]
fn comment_stops_at_carriage_return() {
    assert_eq!(
        kinds(";c\r\n"),
        vec![
            (SyntaxKind::Comment, ";c".to_string()),
            (SyntaxKind::Newline, "\r".to_string()),
            (SyntaxKind::Newline, "\n".to_string()),
        ]
    );
    assert_eq!(kinds("#!x\r\n")[0], (SyntaxKind::HashDirective, "#!x".to_string()));
}

#[test]
fn lex_errors_point_at_the_character() {
    match lex("a \u{7} é\"x") {
        Err(lispfmt::error::Error::Lex(d)) => {
            assert_eq!(d.len(), 2);
            assert_eq!((d[0].span.start, d[0].span.end), (2, 3));
            assert_eq!(d[0].message, "unexpected character");
            assert_eq!((d[1].span.start, d[1].span.end), (6, 7));
            assert_eq!(d[1].message, "unterminated string");
        }
        other => panic!("expected a lex error, got {:?}", other),
    }
}
