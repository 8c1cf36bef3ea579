use crate::doc::{doc_of, trim_end, trim_end_at};
use crate::error::Error;
use crate::kind::SyntaxKind;
use crate::layout::{render, rendered};
use crate::lexer::{chars_of, lex_diagnostics_are, line_end, string_of, tokenize, tokens_are};
use crate::node::{content, is_trivia_elem, leaves, well_formed, SyntaxElement};
use crate::parser::{diag_views, lexeme_kinds, lexeme_views, parse, parse_diagnostics, parses_cleanly};
use vstd::prelude::*;

verus! {

/// The line width used when none is given.
pub const DEFAULT_WIDTH: usize = 100;

/// The lines of `s` from position `i` on, each without trailing whitespace,
/// joined by `\n`.
pub open spec fn trim_lines_from(s: Seq<char>, i: int) -> Seq<char>
    decreases s.len() - i,
{
    let k = line_end(s, i);
    if i < 0 || k >= s.len() || k < i {
        trim_end(s.subrange(i, s.len() as int))
    } else {
        trim_end(s.subrange(i, k)) + seq!['\n'] + trim_lines_from(s, k + 1)
    }
}

/// `s` with trailing whitespace removed from every line.
pub open spec fn trim_lines(s: Seq<char>) -> Seq<char> {
    trim_lines_from(s, 0)
}

/// What the formatter prints for a tree at a line width.
pub open spec fn formatted(root: SyntaxElement, width: int) -> Seq<char> {
    trim_lines(rendered(doc_of(root), width))
}

/// Pushes `s[a..b)` without its trailing whitespace onto `out`.
fn push_trimmed(s: &Vec<char>, a: usize, b: usize, out: &mut Vec<char>)
    requires
        a <= b <= s@.len(),
    ensures
        final(out)@ == old(out)@ + trim_end(s@.subrange(a as int, b as int)),
{
    let ghost line = s@.subrange(a as int, b as int);
    let mut j: usize = b;
    while j > a && crate::lexer::white_exec(s[j - 1])
        invariant
            a <= j <= b <= s@.len(),
            line == s@.subrange(a as int, b as int),
            trim_end_at(line, line.len() as int) == trim_end_at(line, j - a),
        decreases j,
    {
        assert(line[j - a - 1] == s@[j - 1]);
        j = j - 1;
    }
    let mut k: usize = a;
    while k < j
        invariant
            a <= k <= j <= b <= s@.len(),
            out@ == old(out)@ + s@.subrange(a as int, k as int),
        decreases j - k,
    {
        out.push(s[k]);
        k = k + 1;
        assert(out@ =~= old(out)@ + s@.subrange(a as int, k as int));
    }
    assert(trim_end(line) =~= s@.subrange(a as int, j as int));
}

/// `text` with trailing whitespace removed from every line.
pub fn trim_line_ends(text: &str) -> (r: String)
    ensures
        r@ == trim_lines(text@),
{
    let s = chars_of(text);
    let n = s.len();
    let mut out: Vec<char> = Vec::new();
    let mut i: usize = 0;
    loop
        invariant
            n == s@.len(),
            s@ == text@,
            i <= n,
            trim_lines(s@) == out@ + trim_lines_from(s@, i as int),
        decreases n - i,
    {
        let k = crate::lexer::line_end_exec(&s, i);
        if k >= n {
            push_trimmed(&s, i, n, &mut out);
            return string_of(out);
        }
        let ghost before = out@;
        push_trimmed(&s, i, k, &mut out);
        out.push('\n');
        assert(out@ + trim_lines_from(s@, k + 1) =~= before + trim_lines_from(s@, i as int));
        i = k + 1;
    }
}

/// Lays out a parsed tree at `width` columns and strips trailing whitespace
/// from every line.
pub fn format_tree(root: &SyntaxElement, width: usize) -> (r: String)
    requires
        well_formed(*root),
        !is_trivia_elem(*root),
    ensures
        r@ == formatted(*root, width as int),
{
    let doc = root.to_doc();
    let text = render(&doc, width);
    trim_line_ends(text.as_str())
}

/// Formats `src` at `width` columns, or gives every diagnostic found.
pub fn format_text_with_width(src: &str, width: usize) -> (r: Result<String, Error>)
    ensures
        r matches Ok(s) ==> exists|root: SyntaxElement|
            root.spec_kind() == SyntaxKind::Root && content(root) == src@ && well_formed(root)
                && tokens_are(leaves(root), tokenize(src@, 0, true)->0, src@) && s@ == formatted(
                root,
                width as int,
            ),
        r matches Err(e) ==> e.spec_diagnostics().len() > 0,
        (r matches Err(e) && e is Lex) <==> tokenize(src@, 0, true) is None,
        (r matches Err(e) && e is Parse) <==> (tokenize(src@, 0, true) is Some && !parses_cleanly(
            lexeme_kinds(tokenize(src@, 0, true)->0),
        )),
        r matches Err(Error::Lex(d)) ==> lex_diagnostics_are(d@, src@),
        r matches Err(Error::Parse(d)) ==> diag_views(d@) == parse_diagnostics(
            lexeme_kinds(tokenize(src@, 0, true)->0),
            lexeme_views(tokenize(src@, 0, true)->0, src@),
        ),
{
    match parse(src) {
        Ok(root) => Ok(format_tree(&root, width)),
        Err(e) => Err(e),
    }
}

/// Formats `src` at the default width of 100 columns.
pub fn format_text(src: &str) -> (r: Result<String, Error>)
    ensures
        r matches Ok(s) ==> exists|root: SyntaxElement|
            root.spec_kind() == SyntaxKind::Root && content(root) == src@ && well_formed(root)
                && tokens_are(leaves(root), tokenize(src@, 0, true)->0, src@) && s@ == formatted(
                root,
                DEFAULT_WIDTH as int,
            ),
        r matches Err(e) ==> e.spec_diagnostics().len() > 0,
        (r matches Err(e) && e is Lex) <==> tokenize(src@, 0, true) is None,
        (r matches Err(e) && e is Parse) <==> (tokenize(src@, 0, true) is Some && !parses_cleanly(
            lexeme_kinds(tokenize(src@, 0, true)->0),
        )),
        r matches Err(Error::Lex(d)) ==> lex_diagnostics_are(d@, src@),
        r matches Err(Error::Parse(d)) ==> diag_views(d@) == parse_diagnostics(
            lexeme_kinds(tokenize(src@, 0, true)->0),
            lexeme_views(tokenize(src@, 0, true)->0, src@),
        ),
{
    format_text_with_width(src, DEFAULT_WIDTH)
}

} // verus!
