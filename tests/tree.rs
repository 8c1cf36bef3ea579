use lispfmt::error::{DiagnosticKind, Error};
use lispfmt::kind::SyntaxKind;
use lispfmt::parser::parse;

#[test]
fn parse_is_lossless() {
    let src = "; head\n(defn f [x]\n  {:a 1 :b 'x}) ; tail\n";
    let root = parse(src).unwrap();
    assert_eq!(*root.kind(), SyntaxKind::Root);
    assert_eq!(root.content(), src);
}

#[test]
fn containers_hold_their_delimiters() {
    let root = parse("(a [b] {:c d})").unwrap();
    let list = &root.children()[0];
    assert_eq!(*list.kind(), SyntaxKind::List);
    let kids: Vec<SyntaxKind> = list.children().iter().map(|c| *c.kind()).collect();
    assert_eq!(
        kids,
        vec![
            SyntaxKind::LParen,
            SyntaxKind::Symbol,
            SyntaxKind::Space,
            SyntaxKind::Sequence,
            SyntaxKind::Space,
            SyntaxKind::Table,
            SyntaxKind::RParen,
        ]
    );
    let table = &list.children()[5];
    assert_eq!(*table.children()[1].kind(), SyntaxKind::Pair);
    assert_eq!(table.span().start, 7);
    assert_eq!(table.span().end, 13);
}

#[test]
fn trailing_trivia_stays_outside_the_node() {
    let root = parse("(a) ; c\n").unwrap();
    let kids: Vec<SyntaxKind> = root.children().iter().map(|c| *c.kind()).collect();
    assert_eq!(
        kids,
        vec![SyntaxKind::List, SyntaxKind::Space, SyntaxKind::Comment, SyntaxKind::Newline]
    );
    assert_eq!(root.children()[2].text(), "; c");
}

#[test]
fn ignore_comments_are_recognized() {
    let root = parse(";;  lispfmt-ignore  \n; lispfmt-ignore please\na").unwrap();
    let kids = root.children();
    assert!(lispfmt::doc::ignore_comment(&kids[0]));
    assert!(!lispfmt::doc::ignore_comment(&kids[2]));
    assert!(!lispfmt::doc::ignore_comment(&kids[4]));
}

#[test]
fn sequences_are_told_apart_by_kind() {
    let root = parse("[1 2 3] [1 :a] []").unwrap();
    let kids = root.children();
    let seq_children = |i: usize| match &kids[i] {
        lispfmt::node::SyntaxElement::Node(n) => &n.children,
        _ => panic!("not a node"),
    };
    assert!(!lispfmt::doc::is_heterogeneous(seq_children(0)));
    assert!(lispfmt::doc::is_heterogeneous(seq_children(2)));
    assert!(!lispfmt::doc::is_heterogeneous(seq_children(4)));
}

#[test]
fn format_tree_uses_the_width() {
    let root = parse("{:alpha 1 :beta 2}").unwrap();
    assert_eq!(lispfmt::format::format_tree(&root, 100), "{:alpha 1 :beta 2}");
    assert_eq!(lispfmt::format::format_tree(&root, 10), "{:alpha 1\n :beta 2}");
}

#[test]
fn parse_reports_every_problem_in_order() {
    match parse(") (a {:b} [c") {
        Err(Error::Parse(d)) => {
            let kinds: Vec<DiagnosticKind> = d.iter().map(|x| x.kind).collect();
            assert_eq!(
                kinds,
                vec![
                    DiagnosticKind::UnexpectedToken,
                    DiagnosticKind::MissingExpression,
                    DiagnosticKind::MissingDelimiter,
                    DiagnosticKind::MissingDelimiter,
                ]
            );
            assert_eq!((d[0].span.start, d[0].span.end), (0, 1));
        }
        other => panic!("expected a parse error, got {:?}", other),
    }
}

#[test]
fn prefixed_has_two_children() {
    let root = parse("'(foo   bar)").unwrap();
    let p = &root.children()[0];
    assert_eq!(*p.kind(), SyntaxKind::Prefixed);
    assert_eq!(p.children().len(), 2);
    assert_eq!(lispfmt::format::format_tree(&root, 100), "'(foo bar)");
}
