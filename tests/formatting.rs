use lispfmt::error::{DiagnosticKind, Error};
use lispfmt::format::{format_text, format_text_with_width, trim_line_ends};

fn fmt(src: &str) -> String {
    match format_text(src) {
        Ok(s) => s,
        Err(e) => panic!("unexpected diagnostics: {:?}", e),
    }
}

#[test]
fn single_line_list_stays_single_line() {
    assert_eq!(fmt("(foo 1 2)"), "(foo 1 2)");
}

#[test]
fn multi_line_list_keeps_its_breaks() {
    assert_eq!(fmt("(foo\n  1\n  2)"), "(foo\n  1\n  2)");
}

#[test]
fn list_reindents_to_two_spaces() {
    assert_eq!(fmt("(foo\n        1\n 2)"), "(foo\n  1\n  2)");
}

#[test]
fn homogeneous_sequence_collapses() {
    assert_eq!(fmt("[1\n2\n3]"), "[1 2 3]");
}

#[test]
fn heterogeneous_sequence_stays_one_per_line() {
    assert_eq!(fmt("[1\n:a\n\"b\"]"), "[1\n :a\n \"b\"]");
}

#[test]
fn heterogeneous_sequence_ignores_width() {
    assert_eq!(
        format_text_with_width("[1\n:a\n\"b\"]", 200).unwrap(),
        "[1\n :a\n \"b\"]"
    );
}

#[test]
fn homogeneous_sequence_breaks_when_too_wide() {
    assert_eq!(
        format_text_with_width("[aaaa bbbb cccc]", 10).unwrap(),
        "[aaaa\n bbbb\n cccc]"
    );
}

#[test]
fn table_collapses_when_it_fits() {
    assert_eq!(fmt("{:a 1\n :b 2}"), "{:a 1 :b 2}");
}

#[test]
fn three_blank_lines_become_one() {
    assert_eq!(fmt("(a)\n\n\n\n(b)"), "(a)\n\n(b)");
}

#[test]
fn one_blank_line_is_kept() {
    assert_eq!(fmt("(a)\n\n(b)"), "(a)\n\n(b)");
}

#[test]
fn no_blank_line_inserts_none() {
    assert_eq!(fmt("(a)\n(b)"), "(a)\n(b)");
}

#[test]
fn leading_blank_lines_of_file_are_dropped() {
    assert_eq!(fmt("\n\n\n(a)"), "(a)");
}

#[test]
fn ignore_directive_keeps_source_text() {
    assert_eq!(
        fmt("; lispfmt-ignore\n(foo   1\n      2)"),
        "; lispfmt-ignore\n(foo   1\n      2)"
    );
}

#[test]
fn ignore_directive_applies_to_one_expression() {
    assert_eq!(
        fmt(";lispfmt-ignore\n[1   2]\n[3\n4]"),
        ";lispfmt-ignore\n[1   2]\n[3 4]"
    );
}

#[test]
fn other_comment_does_not_ignore() {
    assert_eq!(fmt("; keep\n[1\n2]"), "; keep\n[1 2]");
}

#[test]
fn trailing_comment_forces_break() {
    assert_eq!(fmt("[1 ; one\n2]"), "[1 ; one\n 2]");
}

#[test]
fn comment_before_closing_delimiter() {
    assert_eq!(fmt("(foo\n  ; end\n  )"), "(foo\n  ; end\n  )");
}

#[test]
fn prefixed_and_pair() {
    assert_eq!(fmt("'(a b)"), "'(a b)");
    assert_eq!(fmt("{:a   1}"), "{:a 1}");
}

#[test]
fn hash_directive_is_trimmed() {
    assert_eq!(fmt("#!/usr/bin/env fennel   \n(a)"), "#!/usr/bin/env fennel\n(a)");
}

#[test]
fn trailing_whitespace_is_stripped() {
    assert_eq!(fmt("(a   \n b)"), "(a\n  b)");
}

#[test]
fn formatting_is_idempotent_on_examples() {
    for src in [
        "(foo 1 2)",
        "(foo\n  1\n  2)",
        "[1\n2\n3]",
        "[1\n:a\n\"b\"]",
        "(a)\n\n\n\n(b)",
        "; lispfmt-ignore\n(foo   1\n      2)",
        "(let [x 1\n      y 2]\n  ; note\n  (+ x y)) ; done\n",
        "{:a 1\n :b [1 2]}",
    ] {
        let once = fmt(src);
        assert_eq!(fmt(&once), once, "not idempotent on {:?}", src);
    }
}

#[test]
fn empty_input_formats_to_empty() {
    assert_eq!(fmt(""), "");
    assert_eq!(fmt("   \n  "), "");
}

#[test]
fn unterminated_list_is_one_missing_delimiter() {
    match format_text("(foo (bar)") {
        Err(Error::Parse(d)) => {
            assert_eq!(d.len(), 1);
            assert_eq!(d[0].kind, DiagnosticKind::MissingDelimiter);
            assert_eq!(d[0].message, "expected closing parenthesis");
            assert_eq!((d[0].span.start, d[0].span.end), (10, 10));
        }
        other => panic!("expected a parse error, got {:?}", other),
    }
}

#[test]
fn stray_closing_delimiter_is_unexpected() {
    match format_text("(a))") {
        Err(Error::Parse(d)) => {
            assert_eq!(d.len(), 1);
            assert_eq!(d[0].kind, DiagnosticKind::UnexpectedToken);
            assert_eq!(d[0].message, "unexpected closing parenthesis");
            assert_eq!((d[0].span.start, d[0].span.end), (3, 4));
        }
        other => panic!("expected a parse error, got {:?}", other),
    }
}

#[test]
fn enclosing_delimiter_closes_inner_list() {
    match format_text("[(a]") {
        Err(Error::Parse(d)) => {
            assert_eq!(d.len(), 1);
            assert_eq!(d[0].kind, DiagnosticKind::MissingDelimiter);
            assert_eq!(d[0].message, "expected closing parenthesis");
        }
        other => panic!("expected a parse error, got {:?}", other),
    }
}

#[test]
fn table_entry_without_value() {
    match format_text("{:a}") {
        Err(Error::Parse(d)) => {
            assert_eq!(d.len(), 1);
            assert_eq!(d[0].kind, DiagnosticKind::MissingExpression);
        }
        other => panic!("expected a parse error, got {:?}", other),
    }
}

#[test]
fn unterminated_string_is_a_lex_error() {
    match format_text("(a \"b") {
        Err(Error::Lex(d)) => {
            assert!(!d.is_empty());
            assert_eq!(d[0].kind, DiagnosticKind::Lex);
            assert_eq!(d[0].message, "unterminated string");
            assert_eq!(d[0].span.start, 3);
        }
        other => panic!("expected a lex error, got {:?}", other),
    }
}

#[test]
fn lexing_goes_on_after_an_error() {
    match format_text("@ (a) @") {
        Err(Error::Lex(d)) => {
            assert_eq!(d.len(), 2);
            assert_eq!(d[0].span.start, 0);
            assert_eq!(d[1].span.start, 6);
        }
        other => panic!("expected a lex error, got {:?}", other),
    }
}

#[test]
fn trim_line_ends_strips_each_line() {
    assert_eq!(trim_line_ends("a  \nb\t\n  c "), "a\nb\n  c");
    assert_eq!(trim_line_ends("x\r\ny"), "x\ny");
}

#[test]
fn ignore_comment_first_in_container_covers_it() {
    assert_eq!(fmt("(; lispfmt-ignore\n   a    b)"), "(; lispfmt-ignore\n   a    b)");
    assert_eq!(
        fmt("(foo\n ; lispfmt-ignore\n (a    b)  c)"),
        "(foo\n  ; lispfmt-ignore\n  (a    b) c)"
    );
    assert_eq!(
        fmt("[x\n  (; lispfmt-ignore\n a   b)]"),
        "[x\n (; lispfmt-ignore\n a   b)]"
    );
}

#[test]
fn trailing_ignore_comment_keeps_expression() {
    assert_eq!(fmt("[1\n2] ; lispfmt-ignore"), "[1\n2] ; lispfmt-ignore");
}

#[test]
fn blank_line_before_first_broken_child_is_kept() {
    assert_eq!(fmt("(a\n\n\n\n  b)"), "(a\n\n  b)");
}

#[test]
fn single_line_lists_collapse_inside_a_sequence() {
    assert_eq!(fmt("[(a b)\n(c d)]"), "[(a b) (c d)]");
    assert_eq!(fmt("[(a\n b)\n(c d)]"), "[(a\n   b)\n (c d)]");
}

#[test]
fn comment_between_key_and_value_is_kept() {
    assert_eq!(fmt("{:a ; the a\n 1}"), "{:a ; the a\n 1}");
}

#[test]
fn lone_closing_delimiter_is_located() {
    match format_text(")") {
        Err(Error::Parse(d)) => {
            assert_eq!(d.len(), 1);
            assert_eq!(d[0].message, "unexpected closing parenthesis");
            assert_eq!((d[0].span.start, d[0].span.end), (0, 1));
        }
        other => panic!("expected a parse error, got {:?}", other),
    }
}

#[test]
fn missing_table_value_is_located() {
    match format_text("{:a}") {
        Err(Error::Parse(d)) => {
            assert_eq!(d.len(), 1);
            assert_eq!(d[0].message, "expected expression");
            assert_eq!((d[0].span.start, d[0].span.end), (3, 4));
        }
        other => panic!("expected a parse error, got {:?}", other),
    }
}

#[test]
fn blank_line_examples() {
    assert_eq!(fmt("a\n\n\n\nb"), "a\n\nb");
    assert_eq!(fmt("a\n\n\n\n\n\nb"), "a\n\nb");
    assert_eq!(fmt("a\nb"), "a\nb");
    assert_eq!(fmt("(foo\n1\n2)"), "(foo\n  1\n  2)");
    assert_eq!(fmt("; lispfmt-ignore\n(a   b)\n(c   d)"), "; lispfmt-ignore\n(a   b)\n(c d)");
}
