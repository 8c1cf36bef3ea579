use crate::kind::{is_leading_trivia, is_trailing_trivia, spec_is_leading_trivia, spec_is_trailing_trivia, SyntaxKind};
use crate::layout::{
    doc_append, doc_flat_alt, doc_group, doc_hang, doc_hardline, doc_line, doc_nil, doc_space,
    doc_text, layout_of, Layout, cat, grouped, hung, text_layout,
};
use crate::lexer::{chars_of, is_white, text_of};
use crate::node::{content, contents_string, is_trivia_elem, lemma_all_well_formed, well_formed, SyntaxElement};
use pretty::RcDoc;
use vstd::prelude::*;

verus! {

// ---------------------------------------------------------------------------
// Text helpers
// ---------------------------------------------------------------------------

/// Where `s[0..j)` ends once trailing whitespace is dropped.
pub open spec fn trim_end_at(s: Seq<char>, j: int) -> int
    decreases j,
{
    if 0 < j <= s.len() && is_white(s[j - 1]) {
        trim_end_at(s, j - 1)
    } else {
        j
    }
}

/// `s` without trailing whitespace.
pub open spec fn trim_end(s: Seq<char>) -> Seq<char> {
    s.subrange(0, trim_end_at(s, s.len() as int))
}

/// The first position at or after `i` that holds neither a `;` nor, once
/// past the semicolons, whitespace.
pub open spec fn skip_semis(s: Seq<char>, i: int) -> int
    decreases s.len() - i,
{
    if 0 <= i < s.len() && s[i] == ';' {
        skip_semis(s, i + 1)
    } else {
        i
    }
}

pub open spec fn skip_white(s: Seq<char>, i: int) -> int
    decreases s.len() - i,
{
    if 0 <= i < s.len() && is_white(s[i]) {
        skip_white(s, i + 1)
    } else {
        i
    }
}

/// A comment text that, without its leading semicolons and surrounding
/// whitespace, reads exactly `lispfmt-ignore`.
pub open spec fn is_ignore_text(s: Seq<char>) -> bool {
    let a = skip_white(s, skip_semis(s, 0));
    let b = trim_end_at(s, s.len() as int);
    a <= b && s.subrange(a, b) == "lispfmt-ignore"@
}

/// A leaf's own text; a container has none.
pub open spec fn elem_text(e: SyntaxElement) -> Seq<char> {
    match e {
        SyntaxElement::Token(t) => t.text@,
        SyntaxElement::Node(_) => Seq::empty(),
    }
}

pub open spec fn is_ignore_comment(e: SyntaxElement) -> bool {
    e.spec_kind() == SyntaxKind::Comment && is_ignore_text(elem_text(e))
}

fn elem_chars(e: &SyntaxElement) -> (r: Vec<char>)
    ensures
        r@ == elem_text(*e),
{
    chars_of(e.text())
}

/// The text of a leaf without trailing whitespace.
fn trimmed_text(e: &SyntaxElement) -> (r: String)
    ensures
        r@ == trim_end(elem_text(*e)),
{
    let s = elem_chars(e);
    let mut j: usize = s.len();
    while j > 0 && crate::lexer::white_exec(s[j - 1])
        invariant
            j <= s@.len(),
            trim_end_at(s@, s@.len() as int) == trim_end_at(s@, j as int),
        decreases j,
    {
        j = j - 1;
    }
    text_of(&s, 0, j)
}

/// Whether `e` is a comment that turns off formatting of the expression it belongs to.
pub fn ignore_comment(e: &SyntaxElement) -> (r: bool)
    ensures
        r == is_ignore_comment(*e),
{
    if *e.kind() != SyntaxKind::Comment {
        return false;
    }
    let s = elem_chars(e);
    let n = s.len();
    let mut a: usize = 0;
    while a < n && s[a] == ';'
        invariant
            a <= n == s@.len(),
            skip_semis(s@, 0) == skip_semis(s@, a as int),
        decreases n - a,
    {
        a = a + 1;
    }
    while a < n && crate::lexer::white_exec(s[a])
        invariant
            a <= n == s@.len(),
            skip_white(s@, skip_semis(s@, 0)) == skip_white(s@, a as int),
        decreases n - a,
    {
        a = a + 1;
    }
    let mut b: usize = n;
    while b > 0 && crate::lexer::white_exec(s[b - 1])
        invariant
            b <= n == s@.len(),
            trim_end_at(s@, n as int) == trim_end_at(s@, b as int),
        decreases b,
    {
        b = b - 1;
    }
    if a > b {
        return false;
    }
    let w = chars_of("lispfmt-ignore");
    proof {
        reveal_strlit("lispfmt-ignore");
    }
    if b - a != w.len() {
        assert(s@.subrange(a as int, b as int).len() != w@.len());
        return false;
    }
    let mut i: usize = 0;
    while i < w.len()
        invariant
            a <= b <= n == s@.len(),
            a as int == skip_white(s@, skip_semis(s@, 0)),
            b as int == trim_end_at(s@, n as int),
            s@ == elem_text(*e),
            e.spec_kind() == SyntaxKind::Comment,
            b - a == w@.len(),
            w@ == "lispfmt-ignore"@,
            i <= w@.len(),
            forall|k: int| 0 <= k < i ==> s@[a + k] == w@[k],
        decreases w@.len() - i,
    {
        if s[a + i] != w[i] {
            assert(s@.subrange(a as int, b as int)[i as int] != w@[i as int]);
            assert(s@.subrange(a as int, b as int) != "lispfmt-ignore"@);
            return false;
        }
        i = i + 1;
    }
    assert(s@.subrange(a as int, b as int) =~= w@);
    true
}

// ---------------------------------------------------------------------------
// Leading trivia
// ---------------------------------------------------------------------------

pub open spec fn append(a: Layout, b: Layout) -> Layout {
    cat(a, b)
}

/// The layout of the trivia `es[i..b)`, added to `acc`. Newlines are counted
/// while `track` holds; two or more before a comment, or before the end when
/// `allow_trailing` holds, leave one blank line. Each comment is printed
/// without trailing whitespace and ends its line; counting starts afresh after it.
pub open spec fn trivia_fold(
    es: Seq<SyntaxElement>,
    i: int,
    b: int,
    track: bool,
    count: nat,
    acc: Layout,
    allow_trailing: bool,
) -> Layout
    decreases b - i,
{
    if i >= b || i < 0 || b > es.len() {
        if allow_trailing && count >= 2 {
            append(acc, Layout::Hardline)
        } else {
            acc
        }
    } else {
        let k = es[i].spec_kind();
        if k == SyntaxKind::Newline && track {
            trivia_fold(es, i + 1, b, track, count + 1, acc, allow_trailing)
        } else if k == SyntaxKind::Comment {
            let acc1 = if count >= 2 {
                append(acc, Layout::Hardline)
            } else {
                acc
            };
            let acc2 = append(
                append(acc1, text_layout(trim_end(elem_text(es[i])))),
                Layout::Hardline,
            );
            trivia_fold(es, i + 1, b, true, 0, acc2, allow_trailing)
        } else {
            trivia_fold(es, i + 1, b, track, count, acc, allow_trailing)
        }
    }
}

/// The layout of the trivia `es[a..b)` that stands before an expression or a
/// closing delimiter.
pub open spec fn leading_layout(
    es: Seq<SyntaxElement>,
    a: int,
    b: int,
    allow_leading_newline: bool,
    allow_trailing_newline: bool,
) -> Layout {
    trivia_fold(es, a, b, allow_leading_newline, 0, Layout::Nil, allow_trailing_newline)
}

pub fn convert_leading_trivia(
    es: &Vec<SyntaxElement>,
    a: usize,
    b: usize,
    allow_leading_newline: bool,
    allow_trailing_newline: bool,
) -> (r: RcDoc<'static, ()>)
    requires
        a <= b <= es@.len(),
    ensures
        layout_of(r) == leading_layout(es@, a as int, b as int, allow_leading_newline, allow_trailing_newline),
{
    let mut track = allow_leading_newline;
    let mut count: usize = 0;
    let mut doc = doc_nil();
    let mut i: usize = a;
    while i < b
        invariant
            a <= i <= b <= es@.len(),
            count <= i,
            leading_layout(es@, a as int, b as int, allow_leading_newline, allow_trailing_newline)
                == trivia_fold(es@, i as int, b as int, track, count as nat, layout_of(doc), allow_trailing_newline),
        decreases b - i,
    {
        let k = *es[i].kind();
        if k == SyntaxKind::Newline && track {
            count = count + 1;
        } else if k == SyntaxKind::Comment {
            if count >= 2 {
                doc = doc_append(doc, doc_hardline());
            }
            doc = doc_append(doc, doc_text(trimmed_text(&es[i])));
            doc = doc_append(doc, doc_hardline());
            track = true;
            count = 0;
        }
        i = i + 1;
    }
    if allow_trailing_newline && count >= 2 {
        doc = doc_append(doc, doc_hardline());
    }
    doc
}


// ---------------------------------------------------------------------------
// Layout of the tree
// ---------------------------------------------------------------------------

pub open spec fn is_trivia_at(es: Seq<SyntaxElement>, k: int) -> bool {
    es[k].spec_kind().spec_is_trivia()
}

/// The first position in `[i, b)` that is not leading trivia, or `b`.
pub open spec fn lead_end(es: Seq<SyntaxElement>, i: int, b: int) -> int
    decreases b - i,
{
    if 0 <= i < b && b <= es.len() && spec_is_leading_trivia(es[i].spec_kind()) {
        lead_end(es, i + 1, b)
    } else {
        i
    }
}

/// The first position in `[i, b)` that is not trailing trivia, or `b`.
pub open spec fn trail_end(es: Seq<SyntaxElement>, i: int, b: int) -> int
    decreases b - i,
{
    if 0 <= i < b && b <= es.len() && spec_is_trailing_trivia(es[i].spec_kind()) {
        trail_end(es, i + 1, b)
    } else {
        i
    }
}

/// The first position in `[i, b)` that holds a comment or a non-trivia element, or `b`.
pub open spec fn skip_to(es: Seq<SyntaxElement>, i: int, b: int) -> int
    decreases b - i,
{
    if 0 <= i < b && b <= es.len() && is_trivia_at(es, i) && es[i].spec_kind() != SyntaxKind::Comment {
        skip_to(es, i + 1, b)
    } else {
        i
    }
}

pub open spec fn any_ignore(es: Seq<SyntaxElement>, a: int, b: int) -> bool {
    exists|k: int| a <= k < b && #[trigger] is_ignore_comment(es[k])
}

pub open spec fn any_comment(es: Seq<SyntaxElement>, a: int, b: int) -> bool {
    exists|k: int| a <= k < b && #[trigger] es[k].spec_kind() == SyntaxKind::Comment
}

pub open spec fn all_trivia(es: Seq<SyntaxElement>, a: int, b: int) -> bool {
    forall|k: int| a <= k < b ==> #[trigger] is_trivia_at(es, k)
}

/// Between the delimiters of `es`, two elements that are not trivia differ in kind.
pub open spec fn heterogeneous(es: Seq<SyntaxElement>) -> bool {
    exists|i: int, j: int|
        1 <= i < es.len() - 1 && 1 <= j < es.len() - 1 && !is_trivia_at(es, i) && !is_trivia_at(es, j)
            && #[trigger] es[i].spec_kind() != #[trigger] es[j].spec_kind()
}

/// Forces the enclosing group to break, and is empty where it stands.
pub open spec fn break_group() -> Layout {
    Layout::FlatAlt(Box::new(Layout::Nil), Box::new(Layout::Hardline))
}

pub open spec fn line() -> Layout {
    Layout::FlatAlt(Box::new(Layout::Hardline), Box::new(Layout::Text(seq![' '])))
}

/// Each comment in `es[i..b)` after a top-level expression: a space and its text.
pub open spec fn root_trailing(es: Seq<SyntaxElement>, i: int, b: int, acc: Layout) -> Layout
    decreases b - i,
{
    if i >= b || i < 0 || b > es.len() {
        acc
    } else if es[i].spec_kind() == SyntaxKind::Comment {
        root_trailing(
            es,
            i + 1,
            b,
            append(append(acc, Layout::Text(seq![' '])), text_layout(trim_end(elem_text(es[i])))),
        )
    } else {
        root_trailing(es, i + 1, b, acc)
    }
}

/// Each comment in `es[i..b)` after an expression inside a container: a
/// space, its text, and a forced break of the enclosing group.
pub open spec fn list_trailing(es: Seq<SyntaxElement>, i: int, b: int, acc: Layout) -> Layout
    decreases b - i,
{
    if i >= b || i < 0 || b > es.len() {
        acc
    } else if es[i].spec_kind() == SyntaxKind::Comment {
        list_trailing(
            es,
            i + 1,
            b,
            append(
                append(append(acc, Layout::Text(seq![' '])), text_layout(trim_end(elem_text(es[i])))),
                break_group(),
            ),
        )
    } else {
        list_trailing(es, i + 1, b, acc)
    }
}

/// The layout of an element.
pub open spec fn doc_of(e: SyntaxElement) -> Layout
    decreases e, 0int,
{
    match e {
        SyntaxElement::Token(t) => if t.kind == SyntaxKind::HashDirective {
            text_layout(trim_end(t.text@))
        } else {
            text_layout(t.text@)
        },
        SyntaxElement::Node(n) => {
            let es = n.children@;
            if n.kind == SyntaxKind::Root {
                root_fold(es, 0, true, Layout::Nil)
            } else if n.kind == SyntaxKind::List {
                list_like(es, 2, true)
            } else if n.kind == SyntaxKind::Sequence {
                if heterogeneous(es) {
                    list_like(es, 1, true)
                } else {
                    grouped(list_like(es, 1, false))
                }
            } else if n.kind == SyntaxKind::Table {
                grouped(list_like(es, 1, false))
            } else if n.kind == SyntaxKind::Pair {
                pair_fold(es, 0, false, Layout::Nil)
            } else if n.kind == SyntaxKind::Prefixed {
                prefixed_fold(es, 0, Layout::Nil)
            } else {
                text_layout(crate::node::contents(es))
            }
        },
    }
}

/// An ignored expression keeps its source text; any other is laid out.
pub open spec fn expr_layout(e: SyntaxElement, ignored: bool) -> Layout
    decreases e, 1int,
{
    if ignored {
        text_layout(content(e))
    } else {
        doc_of(e)
    }
}

/// The layout of the expression `es[l]`, whose leading trivia is `es[i..l)`
/// and trailing trivia `es[l+1..t)`: its source text when an ignore comment
/// stands among that trivia or `ignored` holds, its own layout otherwise.
pub open spec fn chunk_layout(es: Seq<SyntaxElement>, i: int, l: int, t: int, ignored: bool) -> Layout
    decreases es, 0int,
{
    if 0 <= l < es.len() {
        expr_layout(es[l], ignored || any_ignore(es, i, l) || any_ignore(es, l + 1, t))
    } else {
        Layout::Nil
    }
}

/// The top level from `i` on, added to `acc`: each expression with its
/// leading trivia, its trailing comments, and a hardline before the next.
pub open spec fn root_fold(es: Seq<SyntaxElement>, i: int, first: bool, acc: Layout) -> Layout
    decreases es, es.len() - i,
{
    if i < 0 || i >= es.len() {
        acc
    } else {
        let n = es.len() as int;
        let l = lead_end(es, i, n);
        let has_expr = i <= l && l < n;
        let t = if has_expr {
            trail_end(es, l + 1, n)
        } else {
            l
        };
        let acc1 = append(acc, leading_layout(es, i, l, !first, has_expr));
        let acc2 = if has_expr {
            append(acc1, chunk_layout(es, i, l, t, false))
        } else {
            acc1
        };
        let acc3 = root_trailing(es, l + 1, t, acc2);
        let acc4 = if t < n {
            append(acc3, Layout::Hardline)
        } else {
            acc3
        };
        if i < t && t <= n {
            root_fold(es, t, false, acc4)
        } else {
            acc4
        }
    }
}

/// The expressions of a container from `i` up to its closing delimiter at
/// `end`, added to `acc`. Gives the layout, where the trivia before the
/// closing delimiter starts, and whether the last expression had a trailing comment.
pub open spec fn list_fold(
    es: Seq<SyntaxElement>,
    i: int,
    end: int,
    first_expr: bool,
    keep: bool,
    last_trailing: bool,
    acc: Layout,
) -> (Layout, int, bool)
    decreases es, end - i,
{
    if i < 0 || end > es.len() || i >= end {
        (acc, i, last_trailing)
    } else {
        let l = lead_end(es, i, end);
        if l >= end || l < i {
            (acc, i, last_trailing)
        } else {
            let t = trail_end(es, l + 1, end);
            let has_newline = i < l && es[i].spec_kind() == SyntaxKind::Newline;
            let sep = if first_expr {
                Layout::Nil
            } else if !keep {
                line()
            } else if has_newline {
                Layout::Hardline
            } else {
                Layout::Text(seq![' '])
            };
            let e1 = append(sep, leading_layout(es, i, l, !first_expr, true));
            let e2 = append(e1, chunk_layout(es, i, l, t, false));
            let e3 = list_trailing(es, l + 1, t, e2);
            if i < t && t <= end {
                list_fold(
                    es,
                    t,
                    end,
                    false,
                    keep,
                    any_comment(es, l + 1, t),
                    append(acc, e3),
                )
            } else {
                (acc, i, last_trailing)
            }
        }
    }
}

/// A delimited container: the opening delimiter, a first comment if one comes
/// before any expression, the expressions, the trivia before the closing
/// delimiter, and the closing delimiter, hung by `indent`. With `keep`, an
/// expression starts a new line (a hardline) exactly where it does in the
/// source and follows a space otherwise; without it, expressions are
/// separated by breaks that the enclosing group lays out. When that first
/// comment is an ignore comment, the container keeps its source text.
pub open spec fn list_like(es: Seq<SyntaxElement>, indent: int, keep: bool) -> Layout
    decreases es, es.len() + 1,
{
    if es.len() < 2 {
        text_layout(crate::node::contents(es))
    } else {
        let end = es.len() - 1;
        let j = skip_to(es, 1, end);
        let has_comment = 1 <= j < end && es[j].spec_kind() == SyntaxKind::Comment;
        if has_comment && is_ignore_comment(es[j]) {
            text_layout(crate::node::contents(es))
        } else {
            let acc0 = doc_of(es[0]);
            let acc1 = if has_comment {
                append(append(acc0, text_layout(trim_end(elem_text(es[j])))), Layout::Hardline)
            } else {
                acc0
            };
            let start = if has_comment {
                j + 1
            } else if 1 <= j <= end {
                j
            } else {
                end
            };
            let r = list_fold(es, start, end, true, keep, false, acc1);
            let acc2 = if r.2 || any_comment(es, r.1, end) {
                append(r.0, Layout::Hardline)
            } else {
                r.0
            };
            let acc3 = append(acc2, leading_layout(es, r.1, end, !all_trivia(es, 1, end), false));
            hung(indent, append(acc3, doc_of(es[end])))
        }
    }
}

/// The elements of a pair that are not trivia, one space between each. A
/// comment between them follows after a space and ends its line. `spaced`
/// holds when a space goes before the next element.
pub open spec fn pair_fold(es: Seq<SyntaxElement>, i: int, spaced: bool, acc: Layout) -> Layout
    decreases es, es.len() - i,
{
    if i < 0 || i >= es.len() {
        acc
    } else if es[i].spec_kind() == SyntaxKind::Comment {
        pair_fold(
            es,
            i + 1,
            false,
            append(
                append(append(acc, Layout::Text(seq![' '])), text_layout(trim_end(elem_text(es[i])))),
                Layout::Hardline,
            ),
        )
    } else if is_trivia_at(es, i) {
        pair_fold(es, i + 1, spaced, acc)
    } else if spaced {
        pair_fold(es, i + 1, true, append(append(acc, Layout::Text(seq![' '])), doc_of(es[i])))
    } else {
        pair_fold(es, i + 1, true, append(acc, doc_of(es[i])))
    }
}

/// The elements of a prefixed expression that are not trivia, with nothing between.
pub open spec fn prefixed_fold(es: Seq<SyntaxElement>, i: int, acc: Layout) -> Layout
    decreases es, es.len() - i,
{
    if i < 0 || i >= es.len() {
        acc
    } else if is_trivia_at(es, i) {
        prefixed_fold(es, i + 1, acc)
    } else {
        prefixed_fold(es, i + 1, append(acc, doc_of(es[i])))
    }
}


// ---------------------------------------------------------------------------
// Executable layout
// ---------------------------------------------------------------------------

fn lead_end_exec(es: &Vec<SyntaxElement>, i: usize, b: usize) -> (r: usize)
    requires
        i <= b <= es@.len(),
    ensures
        r as int == lead_end(es@, i as int, b as int),
        i <= r <= b,
        r < b ==> !spec_is_leading_trivia(es@[r as int].spec_kind()),
{
    let mut k: usize = i;
    while k < b && is_leading_trivia(es[k].kind())
        invariant
            i <= k <= b <= es@.len(),
            lead_end(es@, i as int, b as int) == lead_end(es@, k as int, b as int),
        decreases b - k,
    {
        k = k + 1;
    }
    k
}

fn trail_end_exec(es: &Vec<SyntaxElement>, i: usize, b: usize) -> (r: usize)
    requires
        i <= b <= es@.len(),
    ensures
        r as int == trail_end(es@, i as int, b as int),
        i <= r <= b,
{
    let mut k: usize = i;
    while k < b && is_trailing_trivia(es[k].kind())
        invariant
            i <= k <= b <= es@.len(),
            trail_end(es@, i as int, b as int) == trail_end(es@, k as int, b as int),
        decreases b - k,
    {
        k = k + 1;
    }
    k
}

fn skip_to_exec(es: &Vec<SyntaxElement>, i: usize, b: usize) -> (r: usize)
    requires
        i <= b <= es@.len(),
    ensures
        r as int == skip_to(es@, i as int, b as int),
        i <= r <= b,
{
    let mut k: usize = i;
    while k < b && es[k].kind().is_trivia() && *es[k].kind() != SyntaxKind::Comment
        invariant
            i <= k <= b <= es@.len(),
            skip_to(es@, i as int, b as int) == skip_to(es@, k as int, b as int),
        decreases b - k,
    {
        k = k + 1;
    }
    k
}

fn any_ignore_exec(es: &Vec<SyntaxElement>, a: usize, b: usize) -> (r: bool)
    requires
        b <= es@.len(),
    ensures
        r == any_ignore(es@, a as int, b as int),
{
    let mut k: usize = a;
    while k < b
        invariant
            b <= es@.len(),
            a <= k,
            forall|j: int| a <= j < k ==> !is_ignore_comment(#[trigger] es@[j]),
        decreases b - k,
    {
        if ignore_comment(&es[k]) {
            return true;
        }
        k = k + 1;
    }
    false
}

fn any_comment_exec(es: &Vec<SyntaxElement>, a: usize, b: usize) -> (r: bool)
    requires
        b <= es@.len(),
    ensures
        r == any_comment(es@, a as int, b as int),
{
    let mut k: usize = a;
    while k < b
        invariant
            b <= es@.len(),
            a <= k,
            forall|j: int| a <= j < k ==> #[trigger] es@[j].spec_kind() != SyntaxKind::Comment,
        decreases b - k,
    {
        if *es[k].kind() == SyntaxKind::Comment {
            return true;
        }
        k = k + 1;
    }
    false
}

fn all_trivia_exec(es: &Vec<SyntaxElement>, a: usize, b: usize) -> (r: bool)
    requires
        b <= es@.len(),
    ensures
        r == all_trivia(es@, a as int, b as int),
{
    let mut k: usize = a;
    while k < b
        invariant
            b <= es@.len(),
            a <= k,
            forall|j: int| a <= j < k ==> #[trigger] is_trivia_at(es@, j),
        decreases b - k,
    {
        if !es[k].kind().is_trivia() {
            assert(!is_trivia_at(es@, k as int));
            return false;
        }
        k = k + 1;
    }
    true
}

/// Whether the elements between the delimiters that are not trivia differ in kind.
pub fn is_heterogeneous(es: &Vec<SyntaxElement>) -> (r: bool)
    ensures
        r == heterogeneous(es@),
{
    let n = es.len();
    if n < 2 {
        return false;
    }
    let mut first: Option<SyntaxKind> = None;
    let mut fi: usize = 0;
    let mut i: usize = 1;
    while i < n - 1
        invariant
            n == es@.len(),
            n >= 2,
            1 <= i <= n - 1,
            first is None ==> forall|k: int| 1 <= k < i ==> #[trigger] is_trivia_at(es@, k),
            first matches Some(k0) ==> 1 <= fi < i && !is_trivia_at(es@, fi as int)
                && es@[fi as int].spec_kind() == k0 && forall|k: int|
                1 <= k < i && !is_trivia_at(es@, k) ==> #[trigger] es@[k].spec_kind() == k0,
        decreases n - 1 - i,
    {
        let k = *es[i].kind();
        if !k.is_trivia() {
            match first {
                None => {
                    first = Some(k);
                    fi = i;
                },
                Some(k0) => {
                    if k != k0 {
                        assert(es@[fi as int].spec_kind() != es@[i as int].spec_kind());
                        return true;
                    }
                },
            }
        }
        i = i + 1;
    }
    proof {
        assert forall|a: int, b: int|
            1 <= a < es@.len() - 1 && 1 <= b < es@.len() - 1 && !is_trivia_at(es@, a)
                && !is_trivia_at(es@, b) implies #[trigger] es@[a].spec_kind()
            == #[trigger] es@[b].spec_kind() by {
            if first is None {
                assert(is_trivia_at(es@, a));
            }
        }
    }
    false
}

fn break_group_doc() -> (r: RcDoc<'static, ()>)
    ensures
        layout_of(r) == break_group(),
{
    doc_flat_alt(doc_nil(), doc_hardline())
}

fn root_trailing_exec(es: &Vec<SyntaxElement>, a: usize, b: usize, acc: RcDoc<'static, ()>) -> (r:
    RcDoc<'static, ()>)
    requires
        b <= es@.len(),
    ensures
        layout_of(r) == root_trailing(es@, a as int, b as int, layout_of(acc)),
{
    let mut doc = acc;
    let mut k: usize = a;
    while k < b
        invariant
            b <= es@.len(),
            a <= k,
            root_trailing(es@, a as int, b as int, layout_of(acc)) == root_trailing(es@, k as int, b as int, layout_of(doc)),
        decreases b - k,
    {
        if *es[k].kind() == SyntaxKind::Comment {
            doc = doc_append(doc, doc_space());
            doc = doc_append(doc, doc_text(trimmed_text(&es[k])));
        }
        k = k + 1;
    }
    doc
}

fn list_trailing_exec(es: &Vec<SyntaxElement>, a: usize, b: usize, acc: RcDoc<'static, ()>) -> (r:
    RcDoc<'static, ()>)
    requires
        b <= es@.len(),
    ensures
        layout_of(r) == list_trailing(es@, a as int, b as int, layout_of(acc)),
{
    let mut doc = acc;
    let mut k: usize = a;
    while k < b
        invariant
            b <= es@.len(),
            a <= k,
            list_trailing(es@, a as int, b as int, layout_of(acc)) == list_trailing(es@, k as int, b as int, layout_of(doc)),
        decreases b - k,
    {
        if *es[k].kind() == SyntaxKind::Comment {
            doc = doc_append(doc, doc_space());
            doc = doc_append(doc, doc_text(trimmed_text(&es[k])));
            doc = doc_append(doc, break_group_doc());
        }
        k = k + 1;
    }
    doc
}


impl SyntaxElement {
    /// The document for this element: literals as their text, containers by
    /// the layout rules of their kind.
    pub fn to_doc(&self) -> (r: RcDoc<'static, ()>)
        requires
            well_formed(*self),
            !is_trivia_elem(*self),
        ensures
            layout_of(r) == doc_of(*self),
        decreases self, 0int,
    {
        match self {
            SyntaxElement::Token(t) => {
                if t.kind == SyntaxKind::HashDirective {
                    doc_text(trimmed_text(self))
                } else {
                    doc_text(t.text.clone())
                }
            },
            SyntaxElement::Node(n) => {
                proof {
                    lemma_all_well_formed(n.children@, n.children@.len() as int);
                    assert(decreases_to!(*self => self->Node_0));
                    assert(decreases_to!(self->Node_0 => self->Node_0.children));
                    assert(decreases_to!(self->Node_0.children => self->Node_0.children@));
                }
                let es = &n.children;
                match n.kind {
                    SyntaxKind::Root => convert_root(es),
                    SyntaxKind::List => convert_list_like(es, 2, true),
                    SyntaxKind::Sequence => {
                        if is_heterogeneous(es) {
                            convert_list_like(es, 1, true)
                        } else {
                            doc_group(convert_list_like(es, 1, false))
                        }
                    },
                    SyntaxKind::Table => doc_group(convert_list_like(es, 1, false)),
                    SyntaxKind::Pair => convert_pair(es),
                    SyntaxKind::Prefixed => convert_prefixed(es),
                    _ => doc_text(contents_string(es)),
                }
            },
        }
    }
}

fn expr_doc(e: &SyntaxElement, ignored: bool) -> (r: RcDoc<'static, ()>)
    requires
        well_formed(*e),
        !is_trivia_elem(*e),
    ensures
        layout_of(r) == expr_layout(*e, ignored),
    decreases e, 1int,
{
    if ignored {
        doc_text(e.content())
    } else {
        e.to_doc()
    }
}

fn chunk_doc(es: &Vec<SyntaxElement>, i: usize, l: usize, t: usize, ignored: bool) -> (r: RcDoc<'static, ()>)
    requires
        l < es@.len(),
        t <= es@.len(),
        well_formed(es@[l as int]),
        !is_trivia_elem(es@[l as int]),
    ensures
        layout_of(r) == chunk_layout(es@, i as int, l as int, t as int, ignored),
    decreases es@, 1int,
{
    let n = es.len();
    assert(l < n);
    let ig = ignored || any_ignore_exec(es, i, l) || any_ignore_exec(es, l + 1, t);
    expr_doc(&es[l], ig)
}

/// The top level of a file.
pub fn convert_root(es: &Vec<SyntaxElement>) -> (r: RcDoc<'static, ()>)
    requires
        forall|k: int| 0 <= k < es@.len() ==> #[trigger] well_formed(es@[k]),
    ensures
        layout_of(r) == root_fold(es@, 0, true, Layout::Nil),
    decreases es@, 2int,
{
    let n = es.len();
    let mut doc = doc_nil();
    let mut first = true;
    let mut i: usize = 0;
    while i < n
        invariant
            n == es@.len(),
            forall|k: int| 0 <= k < es@.len() ==> #[trigger] well_formed(es@[k]),
            i <= n,
            root_fold(es@, 0, true, Layout::Nil) == root_fold(es@, i as int, first, layout_of(doc)),
        decreases n - i,
    {
        let l = lead_end_exec(es, i, n);
        let has_expr = l < n;
        let t = if has_expr {
            trail_end_exec(es, l + 1, n)
        } else {
            l
        };
        let after = if has_expr {
            l + 1
        } else {
            l
        };
        doc = doc_append(doc, convert_leading_trivia(es, i, l, !first, has_expr));
        if has_expr {
            doc = doc_append(doc, chunk_doc(es, i, l, t, false));
        }
        doc = root_trailing_exec(es, after, t, doc);
        if t < n {
            doc = doc_append(doc, doc_hardline());
        }
        first = false;
        i = t;
    }
    doc
}

/// A delimited container, hung by `indent`; with `keep`, its line breaks
/// follow the source.
pub fn convert_list_like(es: &Vec<SyntaxElement>, indent: isize, keep: bool) -> (r: RcDoc<'static, ()>)
    requires
        es@.len() >= 2,
        !is_trivia_elem(es@[0]),
        !is_trivia_elem(es@.last()),
        forall|k: int| 0 <= k < es@.len() ==> #[trigger] well_formed(es@[k]),
    ensures
        layout_of(r) == list_like(es@, indent as int, keep),
    decreases es@, 2int,
{
    let n = es.len();
    let end = n - 1;
    let j = skip_to_exec(es, 1, end);
    let has_comment = j < end && *es[j].kind() == SyntaxKind::Comment;
    if has_comment && ignore_comment(&es[j]) {
        return doc_text(contents_string(es));
    }
    let mut doc = es[0].to_doc();
    let start = if has_comment {
        doc = doc_append(doc, doc_text(trimmed_text(&es[j])));
        doc = doc_append(doc, doc_hardline());
        j + 1
    } else {
        j
    };
    let ghost acc1 = layout_of(doc);
    let mut first_expr = true;
    let mut last_trailing = false;
    let mut i: usize = start;
    loop
        invariant
            n == es@.len(),
            forall|k: int| 0 <= k < es@.len() ==> #[trigger] well_formed(es@[k]),
            end == n - 1,
            start <= i <= end,
            list_fold(es@, start as int, end as int, true, keep, false, acc1)
                == list_fold(es@, i as int, end as int, first_expr, keep, last_trailing, layout_of(doc)),
        ensures
            i <= end,
            list_fold(es@, start as int, end as int, true, keep, false, acc1)
                == (layout_of(doc), i as int, last_trailing),
        decreases end - i,
    {
        let l = lead_end_exec(es, i, end);
        if l >= end {
            break;
        }
        let t = trail_end_exec(es, l + 1, end);
        let has_newline = i < l && *es[i].kind() == SyntaxKind::Newline;
        let mut e = if first_expr {
            doc_nil()
        } else if !keep {
            doc_line()
        } else if has_newline {
            doc_hardline()
        } else {
            doc_space()
        };
        e = doc_append(e, convert_leading_trivia(es, i, l, !first_expr, true));
        e = doc_append(e, chunk_doc(es, i, l, t, false));
        e = list_trailing_exec(es, l + 1, t, e);
        last_trailing = any_comment_exec(es, l + 1, t);
        doc = doc_append(doc, e);
        first_expr = false;
        i = t;
    }
    if last_trailing || any_comment_exec(es, i, end) {
        doc = doc_append(doc, doc_hardline());
    }
    let all_triv = all_trivia_exec(es, 1, end);
    doc = doc_append(doc, convert_leading_trivia(es, i, end, !all_triv, false));
    doc = doc_append(doc, es[end].to_doc());
    doc = doc_hang(doc, indent);
    doc
}

/// A key and its value, one space between them.
pub fn convert_pair(es: &Vec<SyntaxElement>) -> (r: RcDoc<'static, ()>)
    requires
        forall|k: int| 0 <= k < es@.len() ==> #[trigger] well_formed(es@[k]),
    ensures
        layout_of(r) == pair_fold(es@, 0, false, Layout::Nil),
    decreases es@, 0int,
{
    let mut doc = doc_nil();
    let mut spaced = false;
    let mut i: usize = 0;
    while i < es.len()
        invariant
            i <= es@.len(),
            forall|k: int| 0 <= k < es@.len() ==> #[trigger] well_formed(es@[k]),
            pair_fold(es@, 0, false, Layout::Nil) == pair_fold(es@, i as int, spaced, layout_of(doc)),
        decreases es@.len() - i,
    {
        if *es[i].kind() == SyntaxKind::Comment {
            doc = doc_append(doc, doc_space());
            doc = doc_append(doc, doc_text(trimmed_text(&es[i])));
            doc = doc_append(doc, doc_hardline());
            spaced = false;
        } else if !es[i].kind().is_trivia() {
            if spaced {
                doc = doc_append(doc, doc_space());
            }
            doc = doc_append(doc, es[i].to_doc());
            spaced = true;
        }
        i = i + 1;
    }
    doc
}

/// A prefix and its expression, with nothing between them.
pub fn convert_prefixed(es: &Vec<SyntaxElement>) -> (r: RcDoc<'static, ()>)
    requires
        forall|k: int| 0 <= k < es@.len() ==> #[trigger] well_formed(es@[k]),
    ensures
        layout_of(r) == prefixed_fold(es@, 0, Layout::Nil),
    decreases es@, 0int,
{
    let mut doc = doc_nil();
    let mut i: usize = 0;
    while i < es.len()
        invariant
            i <= es@.len(),
            forall|k: int| 0 <= k < es@.len() ==> #[trigger] well_formed(es@[k]),
            prefixed_fold(es@, 0, Layout::Nil) == prefixed_fold(es@, i as int, layout_of(doc)),
        decreases es@.len() - i,
    {
        if !es[i].kind().is_trivia() {
            doc = doc_append(doc, es[i].to_doc());
        }
        i = i + 1;
    }
    doc
}


// ---------------------------------------------------------------------------
// Laws of the layout
// ---------------------------------------------------------------------------

/// The number of newline pieces in `es[i..b)`.
pub open spec fn newline_count(es: Seq<SyntaxElement>, i: int, b: int) -> nat
    decreases b - i,
{
    if i < 0 || i >= b || b > es.len() {
        0
    } else if es[i].spec_kind() == SyntaxKind::Newline {
        1 + newline_count(es, i + 1, b)
    } else {
        newline_count(es, i + 1, b)
    }
}

pub open spec fn blank_only(es: Seq<SyntaxElement>, a: int, b: int) -> bool {
    forall|k: int|
        a <= k < b ==> (#[trigger] es[k].spec_kind() == SyntaxKind::Newline || es[k].spec_kind()
            == SyntaxKind::Space)
}

proof fn lemma_blank_fold(es: Seq<SyntaxElement>, i: int, b: int, count: nat)
    requires
        0 <= i <= b <= es.len(),
        blank_only(es, i, b),
    ensures
        trivia_fold(es, i, b, true, count, Layout::Nil, true) == (if count + newline_count(es, i, b)
            >= 2 {
            Layout::Hardline
        } else {
            Layout::Nil
        }),
        trivia_fold(es, i, b, false, count, Layout::Nil, true) == (if count >= 2 {
            Layout::Hardline
        } else {
            Layout::Nil
        }),
    decreases b - i,
{
    if i < b {
        if es[i].spec_kind() == SyntaxKind::Newline {
            lemma_blank_fold(es, i + 1, b, count + 1);
        } else {
            lemma_blank_fold(es, i + 1, b, count);
        }
        lemma_blank_fold(es, i + 1, b, count);
    }
}

/// Blank lines between two top-level expressions: trivia made of newlines and
/// spaces alone adds exactly one blank line when it holds two or more
/// newlines (one or more blank lines), and none otherwise. At the start of a
/// file, or right after an opening delimiter, it adds none at all.
pub proof fn lemma_blank_lines_collapse(es: Seq<SyntaxElement>, a: int, b: int)
    requires
        0 <= a <= b <= es.len(),
        blank_only(es, a, b),
    ensures
        leading_layout(es, a, b, true, true) == (if newline_count(es, a, b) >= 2 {
            Layout::Hardline
        } else {
            Layout::Nil
        }),
        leading_layout(es, a, b, false, true) == Layout::Nil,
{
    lemma_blank_fold(es, a, b, 0);
}

/// The ignore directive: an expression with a comment reading
/// `lispfmt-ignore` among its leading or trailing trivia is laid out as
/// exactly its source text, whatever the layout rules would make of it.
pub proof fn lemma_ignore_directive(
    es: Seq<SyntaxElement>,
    i: int,
    l: int,
    t: int,
    k: int,
    ignored: bool,
)
    requires
        0 <= l < es.len(),
        (i <= k < l || l + 1 <= k < t),
        is_ignore_comment(es[k]),
    ensures
        chunk_layout(es, i, l, t, ignored) == text_layout(content(es[l])),
{
    if i <= k < l {
        assert(any_ignore(es, i, l));
    } else {
        assert(any_ignore(es, l + 1, t));
    }
}

/// The ignore directive on a container: when the first comment inside a
/// delimited container, before any expression, reads `lispfmt-ignore`, the
/// whole container keeps its source text.
pub proof fn lemma_ignore_container(es: Seq<SyntaxElement>, indent: int, keep: bool)
    requires
        es.len() >= 2,
        1 <= skip_to(es, 1, es.len() - 1) < es.len() - 1,
        is_ignore_comment(es[skip_to(es, 1, es.len() - 1)]),
    ensures
        list_like(es, indent, keep) == text_layout(crate::node::contents(es)),
{
}

} // verus!
