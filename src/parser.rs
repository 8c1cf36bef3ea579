use crate::error::{Diagnostic, DiagnosticKind, Error};
use crate::kind::SyntaxKind;
use crate::lexer::{byte_offset, concat_text, lemma_prefix_followed, lex, lex_diagnostics_are, prefix_followed, tokenize, tokens_are};
use crate::node::{is_pair_node, is_root_node, is_structural, children_shape, closer_of, content, contents, is_container_kind, is_trivia_elem, delimiters_of, opener_of, is_token_of, lemma_well_formed_node, shape_ok, well_formed, lemma_contents_append, lemma_contents_single, leaves, leaves_of, lemma_leaves_append, lemma_leaves_single, Span, SyntaxElement, Token};
use vstd::prelude::*;
use vstd::string::StringExecFns;

verus! {

/// The texts of the tokens still to be read, the next one (the last element) first.
pub open spec fn rest_text(r: Seq<Token>) -> Seq<char>
    decreases r.len(),
{
    if r.len() == 0 {
        Seq::empty()
    } else {
        r.last().text@ + rest_text(r.drop_last())
    }
}

/// The tokens still to be read, in reading order.
pub open spec fn in_order(r: Seq<Token>) -> Seq<Token>
    decreases r.len(),
{
    if r.len() == 0 {
        Seq::empty()
    } else {
        seq![r.last()] + in_order(r.drop_last())
    }
}

/// The kinds of a token sequence.
pub open spec fn kinds_of(ts: Seq<Token>) -> Seq<SyntaxKind> {
    Seq::new(ts.len(), |i: int| ts[i].kind)
}

pub open spec fn kind_at(ks: Seq<SyntaxKind>, i: int) -> SyntaxKind {
    if 0 <= i < ks.len() {
        ks[i]
    } else {
        SyntaxKind::End
    }
}

/// The first position at or after `i` that holds no trivia.
pub open spec fn skip_trivia(ks: Seq<SyntaxKind>, i: int) -> int
    decreases ks.len() - i,
{
    if 0 <= i < ks.len() && ks[i].spec_is_trivia() {
        skip_trivia(ks, i + 1)
    } else {
        i
    }
}

/// The position after the token at `i` and the trivia that follows it.
pub open spec fn advance(ks: Seq<SyntaxKind>, i: int) -> int {
    skip_trivia(ks, i + 1)
}

/// The token at `i` ends the expressions of a container closed by `closer`
/// inside containers closed by `closers`.
pub open spec fn stops(ks: Seq<SyntaxKind>, i: int, closer: SyntaxKind, closers: Seq<SyntaxKind>) -> bool {
    kind_at(ks, i) == closer || kind_at(ks, i) == SyntaxKind::End || closers.contains(kind_at(ks, i))
}

/// An expression can be read from `i` with no diagnostic: where it ends, with
/// the trivia after it.
pub open spec fn clean_expr(ks: Seq<SyntaxKind>, i: int, closers: Seq<SyntaxKind>) -> Option<int>
    decreases ks.len() - i, 2int,
{
    if i < 0 || i >= ks.len() {
        None
    } else {
        match ks[i] {
            SyntaxKind::LParen => clean_delimited(ks, i, SyntaxKind::RParen, closers),
            SyntaxKind::LBracket => clean_delimited(ks, i, SyntaxKind::RBracket, closers),
            SyntaxKind::LBrace => clean_table(ks, i, closers),
            SyntaxKind::Prefix => clean_prefixed(ks, i, closers),
            SyntaxKind::Symbol
            | SyntaxKind::Number
            | SyntaxKind::String
            | SyntaxKind::Keyword
            | SyntaxKind::Boolean
            | SyntaxKind::HashDirective => Some(advance(ks, i)),
            _ => None,
        }
    }
}

/// Expressions from `i` up to where they stop, with no diagnostic.
pub open spec fn clean_exprs(
    ks: Seq<SyntaxKind>,
    i: int,
    closer: SyntaxKind,
    closers: Seq<SyntaxKind>,
) -> Option<int>
    decreases ks.len() - i, 3int,
{
    if i < 0 || i > ks.len() {
        None
    } else if stops(ks, i, closer, closers) {
        Some(i)
    } else {
        match clean_expr(ks, i, closers) {
            Some(j) => if i < j <= ks.len() {
                clean_exprs(ks, j, closer, closers)
            } else {
                None
            },
            None => None,
        }
    }
}

/// A container opened at `i` and closed by `closer`, with no diagnostic.
pub open spec fn clean_delimited(
    ks: Seq<SyntaxKind>,
    i: int,
    closer: SyntaxKind,
    closers: Seq<SyntaxKind>,
) -> Option<int>
    decreases ks.len() - i, 1int,
{
    let j = advance(ks, i);
    if 0 <= i < j <= ks.len() {
        match clean_exprs(ks, j, closer, closers.push(closer)) {
            Some(k) => if kind_at(ks, k) == closer {
                Some(advance(ks, k))
            } else {
                None
            },
            None => None,
        }
    } else {
        None
    }
}

/// A table opened at `i`, with no diagnostic.
pub open spec fn clean_table(ks: Seq<SyntaxKind>, i: int, closers: Seq<SyntaxKind>) -> Option<int>
    decreases ks.len() - i, 1int,
{
    let j = advance(ks, i);
    if 0 <= i < j <= ks.len() {
        match clean_pairs(ks, j, closers.push(SyntaxKind::RBrace)) {
            Some(k) => if kind_at(ks, k) == SyntaxKind::RBrace {
                Some(advance(ks, k))
            } else {
                None
            },
            None => None,
        }
    } else {
        None
    }
}

/// Key-value pairs from `i` up to where they stop, with no diagnostic.
pub open spec fn clean_pairs(ks: Seq<SyntaxKind>, i: int, closers: Seq<SyntaxKind>) -> Option<int>
    decreases ks.len() - i, 4int,
{
    if i < 0 || i > ks.len() {
        None
    } else if stops(ks, i, SyntaxKind::RBrace, closers) {
        Some(i)
    } else {
        match clean_pair(ks, i, closers) {
            Some(j) => if i < j <= ks.len() {
                clean_pairs(ks, j, closers)
            } else {
                None
            },
            None => None,
        }
    }
}

/// A key and its value from `i`, with no diagnostic.
pub open spec fn clean_pair(ks: Seq<SyntaxKind>, i: int, closers: Seq<SyntaxKind>) -> Option<int>
    decreases ks.len() - i, 3int,
{
    match clean_expr(ks, i, closers) {
        Some(j) => if kind_at(ks, j) == SyntaxKind::End || closers.contains(kind_at(ks, j)) {
            None
        } else if 0 <= i < j <= ks.len() {
            clean_expr(ks, j, closers)
        } else {
            None
        },
        None => None,
    }
}

/// A prefix at `i` and its expression, with no diagnostic.
pub open spec fn clean_prefixed(ks: Seq<SyntaxKind>, i: int, closers: Seq<SyntaxKind>) -> Option<int>
    decreases ks.len() - i, 1int,
{
    let j = advance(ks, i);
    if 0 <= i < j <= ks.len() {
        if kind_at(ks, j) == SyntaxKind::End || closers.contains(kind_at(ks, j)) {
            None
        } else {
            clean_expr(ks, j, closers)
        }
    } else {
        None
    }
}

/// The top level from `i` on reads with no diagnostic.
pub open spec fn clean_top(ks: Seq<SyntaxKind>, i: int) -> bool
    decreases ks.len() - i,
{
    if i < 0 || i >= ks.len() {
        true
    } else {
        match clean_expr(ks, i, Seq::empty()) {
            Some(j) => if i < j <= ks.len() {
                clean_top(ks, j)
            } else {
                false
            },
            None => false,
        }
    }
}

/// The kind and byte range of each lexeme of `s`.
pub open spec fn lexeme_views(ls: Seq<(SyntaxKind, int, int)>, s: Seq<char>) -> Seq<(SyntaxKind, int, int)> {
    Seq::new(ls.len(), |i: int| (ls[i].0, byte_offset(s, ls[i].1), byte_offset(s, ls[i].2)))
}

/// The kinds of a sequence of lexemes.
pub open spec fn lexeme_kinds(ls: Seq<(SyntaxKind, int, int)>) -> Seq<SyntaxKind> {
    Seq::new(ls.len(), |i: int| ls[i].0)
}

/// A token sequence parses with no diagnostic.
pub open spec fn parses_cleanly(ks: Seq<SyntaxKind>) -> bool {
    clean_top(ks, skip_trivia(ks, 0))
}

/// The diagnostics that reading an expression from `i` records, in order,
/// and where reading stops: the parser's recovery, step by step.
pub open spec fn diag_expr(ks: Seq<SyntaxKind>, tv: Seq<(SyntaxKind, int, int)>, i: int, closers: Seq<SyntaxKind>) -> (int, Seq<DiagnosticView>)
    decreases ks.len() - i, 2int,
{
    if i < 0 || i >= ks.len() {
        (i, Seq::empty())
    } else {
        match ks[i] {
            SyntaxKind::LParen => diag_delimited(ks, tv, i, SyntaxKind::RParen, closers),
            SyntaxKind::LBracket => diag_delimited(ks, tv, i, SyntaxKind::RBracket, closers),
            SyntaxKind::LBrace => diag_table(ks, tv, i, closers),
            SyntaxKind::Prefix => diag_prefixed(ks, tv, i, closers),
            SyntaxKind::Symbol
            | SyntaxKind::Number
            | SyntaxKind::String
            | SyntaxKind::Keyword
            | SyntaxKind::Boolean
            | SyntaxKind::HashDirective => (advance(ks, i), Seq::empty()),
            _ => (advance(ks, i), seq![unexpected_view(tv, i)]),
        }
    }
}

pub open spec fn diag_exprs(
    ks: Seq<SyntaxKind>,
    tv: Seq<(SyntaxKind, int, int)>,
    i: int,
    closer: SyntaxKind,
    closers: Seq<SyntaxKind>,
) -> (int, Seq<DiagnosticView>)
    decreases ks.len() - i, 3int,
{
    if i < 0 || i > ks.len() || stops(ks, i, closer, closers) {
        (i, Seq::empty())
    } else {
        let (j, e) = diag_expr(ks, tv, i, closers);
        if i < j <= ks.len() {
            let (k, e2) = diag_exprs(ks, tv, j, closer, closers);
            (k, e + e2)
        } else {
            (j, e)
        }
    }
}

pub open spec fn diag_delimited(
    ks: Seq<SyntaxKind>,
    tv: Seq<(SyntaxKind, int, int)>,
    i: int,
    closer: SyntaxKind,
    closers: Seq<SyntaxKind>,
) -> (int, Seq<DiagnosticView>)
    decreases ks.len() - i, 1int,
{
    let j = advance(ks, i);
    if 0 <= i < j <= ks.len() {
        let (k, e) = diag_exprs(ks, tv, j, closer, closers.push(closer));
        if kind_at(ks, k) == closer {
            (advance(ks, k), e)
        } else {
            (k, e.push(missing_delimiter_view(tv, k, closer)))
        }
    } else {
        (i, Seq::empty())
    }
}

pub open spec fn diag_table(ks: Seq<SyntaxKind>, tv: Seq<(SyntaxKind, int, int)>, i: int, closers: Seq<SyntaxKind>) -> (int, Seq<DiagnosticView>)
    decreases ks.len() - i, 1int,
{
    let j = advance(ks, i);
    if 0 <= i < j <= ks.len() {
        let (k, e) = diag_pairs(ks, tv, j, closers.push(SyntaxKind::RBrace));
        if kind_at(ks, k) == SyntaxKind::RBrace {
            (advance(ks, k), e)
        } else {
            (k, e.push(missing_delimiter_view(tv, k, SyntaxKind::RBrace)))
        }
    } else {
        (i, Seq::empty())
    }
}

pub open spec fn diag_pairs(ks: Seq<SyntaxKind>, tv: Seq<(SyntaxKind, int, int)>, i: int, closers: Seq<SyntaxKind>) -> (int, Seq<DiagnosticView>)
    decreases ks.len() - i, 4int,
{
    if i < 0 || i > ks.len() || stops(ks, i, SyntaxKind::RBrace, closers) {
        (i, Seq::empty())
    } else {
        let (j, e) = diag_pair(ks, tv, i, closers);
        if i < j <= ks.len() {
            let (k, e2) = diag_pairs(ks, tv, j, closers);
            (k, e + e2)
        } else {
            (j, e)
        }
    }
}

pub open spec fn diag_pair(ks: Seq<SyntaxKind>, tv: Seq<(SyntaxKind, int, int)>, i: int, closers: Seq<SyntaxKind>) -> (int, Seq<DiagnosticView>)
    decreases ks.len() - i, 3int,
{
    let (j, e) = diag_expr(ks, tv, i, closers);
    if kind_at(ks, j) == SyntaxKind::End || closers.contains(kind_at(ks, j)) {
        (j, e.push(missing_expression_view(tv, j)))
    } else if 0 <= i < j <= ks.len() {
        let (k, e2) = diag_expr(ks, tv, j, closers);
        (k, e + e2)
    } else {
        (j, e)
    }
}

pub open spec fn diag_prefixed(ks: Seq<SyntaxKind>, tv: Seq<(SyntaxKind, int, int)>, i: int, closers: Seq<SyntaxKind>) -> (int, Seq<DiagnosticView>)
    decreases ks.len() - i, 1int,
{
    let j = advance(ks, i);
    if 0 <= i < j <= ks.len() {
        if kind_at(ks, j) == SyntaxKind::End || closers.contains(kind_at(ks, j)) {
            (j, seq![missing_expression_view(tv, j)])
        } else {
            diag_expr(ks, tv, j, closers)
        }
    } else {
        (i, Seq::empty())
    }
}

pub open spec fn diag_top(ks: Seq<SyntaxKind>, tv: Seq<(SyntaxKind, int, int)>, i: int) -> Seq<DiagnosticView>
    decreases ks.len() - i,
{
    if i < 0 || i >= ks.len() {
        Seq::empty()
    } else {
        let (j, e) = diag_expr(ks, tv, i, Seq::empty());
        if i < j <= ks.len() {
            e + diag_top(ks, tv, j)
        } else {
            e
        }
    }
}

/// The diagnostics that parsing tokens of kinds `ks` and byte ranges `tv`
/// records, in order.
pub open spec fn parse_diagnostics(ks: Seq<SyntaxKind>, tv: Seq<(SyntaxKind, int, int)>) -> Seq<DiagnosticView> {
    diag_top(ks, tv, skip_trivia(ks, 0))
}

/// A diagnostic as its kind, message and byte range.
pub type DiagnosticView = (DiagnosticKind, Seq<char>, int, int);

pub open spec fn diag_view(d: Diagnostic) -> DiagnosticView {
    (d.kind, d.message@, d.span.start as int, d.span.end as int)
}

pub open spec fn diag_views(ds: Seq<Diagnostic>) -> Seq<DiagnosticView> {
    Seq::new(ds.len(), |i: int| diag_view(ds[i]))
}

/// A token that cannot start an expression, named and located.
pub open spec fn unexpected_view(tv: Seq<(SyntaxKind, int, int)>, i: int) -> DiagnosticView {
    (DiagnosticKind::UnexpectedToken, "unexpected "@ + tv[i].0.spec_name(), tv[i].1, tv[i].2)
}

/// A container that lacks its closing delimiter `closer`, reported where the
/// last token read ends.
pub open spec fn missing_delimiter_view(
    tv: Seq<(SyntaxKind, int, int)>,
    i: int,
    closer: SyntaxKind,
) -> DiagnosticView {
    (DiagnosticKind::MissingDelimiter, "expected "@ + closer.spec_name(), end_before(tv, i), end_before(tv, i))
}

/// An expression missing before the token at `i`, or at the end of input.
pub open spec fn missing_expression_view(tv: Seq<(SyntaxKind, int, int)>, i: int) -> DiagnosticView {
    if 0 <= i < tv.len() {
        (DiagnosticKind::MissingExpression, "expected expression"@, tv[i].1, tv[i].2)
    } else {
        (DiagnosticKind::MissingExpression, "expected expression"@, end_before(tv, i), end_before(tv, i))
    }
}

/// The kind and byte range of each token.
pub open spec fn token_views(ts: Seq<Token>) -> Seq<(SyntaxKind, int, int)> {
    Seq::new(ts.len(), |i: int| (ts[i].kind, ts[i].span.start as int, ts[i].span.end as int))
}

/// Where the token before position `i` ends, or 0 at the start.
pub open spec fn end_before(tv: Seq<(SyntaxKind, int, int)>, i: int) -> int {
    if 0 < i <= tv.len() {
        tv[i - 1].2
    } else {
        0
    }
}

/// Parsing state: the tokens still to be read, the elements built so far,
/// the closing delimiters of the open containers, and the diagnostics.
struct Parser {
    rest: Vec<Token>,
    n_trivia: usize,
    nodes: Vec<SyntaxElement>,
    closers: Vec<SyntaxKind>,
    errors: Vec<Diagnostic>,
    last_end: usize,
}

impl Parser {
    /// What has been built, followed by what is left to read.
    spec fn text(&self) -> Seq<char> {
        contents(self.nodes@) + rest_text(self.rest@)
    }

    /// The leaves built so far, followed by the tokens left to read.
    spec fn stream(&self) -> Seq<Token> {
        leaves_of(self.nodes@) + in_order(self.rest@)
    }

    /// The trailing trivia count fits, and the next token is never trivia.
    spec fn wf(&self) -> bool {
        &&& self.n_trivia <= self.nodes@.len()
        &&& self.rest@.len() > 0 ==> !self.rest@.last().kind.spec_is_trivia()
        &&& forall|i: int| self.top() <= i < self.nodes@.len() ==> #[trigger] is_trivia_elem(self.nodes@[i])
        &&& self.ends_ok()
    }

    /// The kinds of all the tokens, read or not.
    spec fn ks(&self) -> Seq<SyntaxKind> {
        kinds_of(self.stream())
    }

    /// The kinds and byte ranges of all the tokens, read or not.
    spec fn tv(&self) -> Seq<(SyntaxKind, int, int)> {
        token_views(self.stream())
    }

    /// The byte where the last token read ends.
    spec fn ends_ok(&self) -> bool {
        self.last_end == end_before(self.tv(), self.pos())
    }

    /// The position of the next token among all the tokens.
    spec fn pos(&self) -> int {
        self.stream().len() - self.rest@.len()
    }

    /// Where the built elements end, before the trailing trivia.
    spec fn top(&self) -> int {
        self.nodes@.len() - self.n_trivia
    }

    /// While no diagnostic was recorded, every built element is well formed.
    spec fn clean_ok(&self) -> bool {
        self.errors@.len() == 0 ==> forall|i: int|
            0 <= i < self.nodes@.len() ==> #[trigger] well_formed(self.nodes@[i])
    }

    spec fn next_kind(&self) -> SyntaxKind {
        if self.rest@.len() == 0 {
            SyntaxKind::End
        } else {
            self.rest@.last().kind
        }
    }

    fn new(tokens: Vec<Token>) -> (p: Parser)
        ensures
            p.wf(),
            p.text() == concat_text(tokens@),
            p.stream() == tokens@,
            p.pos() == skip_trivia(p.ks(), 0),
            p.top() == 0,
            p.clean_ok(),
            p.errors@.len() == 0,
            p.closers@.len() == 0,
    {
        let mut tokens = tokens;
        let ghost all = tokens@;
        let mut rest: Vec<Token> = Vec::new();
        while tokens.len() > 0
            invariant
                concat_text(tokens@) + rest_text(rest@) == concat_text(all),
                tokens@ + in_order(rest@) == all,
            decreases tokens@.len(),
        {
            let ghost before = tokens@;
            let ghost old_rest = rest@;
            let t = tokens.pop().unwrap();
            rest.push(t);
            proof {
                assert(before.drop_last() =~= tokens@);
                assert(rest@.drop_last() =~= old_rest);
                assert(concat_text(tokens@) + rest_text(rest@) =~= concat_text(before) + rest_text(
                    old_rest,
                ));
                assert(tokens@ + in_order(rest@) =~= before + in_order(old_rest));
            }
        }
        let mut p = Parser {
            rest,
            n_trivia: 0,
            nodes: Vec::new(),
            closers: Vec::new(),
            errors: Vec::new(),
            last_end: 0,
        };
        proof {
            assert(contents(p.nodes@) =~= Seq::<char>::empty());
            assert(p.text() =~= concat_text(all));
            assert(leaves_of(p.nodes@) =~= Seq::<Token>::empty());
            assert(p.stream() =~= all);
            lemma_in_order(p.rest@);
        }
        p.consume_trivia();
        p
    }

    fn peek_kind(&self) -> (r: SyntaxKind)
        ensures
            r == self.next_kind(),
    {
        let n = self.rest.len();
        if n == 0 {
            SyntaxKind::End
        } else {
            self.rest[n - 1].kind
        }
    }

    fn at(&self, kind: SyntaxKind) -> (r: bool)
        ensures
            r == (self.next_kind() == kind),
    {
        self.peek_kind() == kind
    }

    /// The next token closes a container that encloses the current one.
    fn at_enclosing_closer(&self) -> (r: bool)
        ensures
            r == self.closers@.contains(self.next_kind()),
    {
        let k = self.peek_kind();
        let mut i: usize = 0;
        while i < self.closers.len()
            invariant
                i <= self.closers@.len(),
                k == self.next_kind(),
                forall|j: int| 0 <= j < i ==> self.closers@[j] != k,
            decreases self.closers@.len() - i,
        {
            if self.closers[i] == k {
                assert(self.closers@[i as int] == k);
                return true;
            }
            i = i + 1;
        }
        false
    }

    /// Moves the trivia ahead into the built elements.
    fn consume_trivia(&mut self)
        requires
            old(self).n_trivia <= old(self).nodes@.len(),
            old(self).ends_ok(),
            forall|i: int|
                old(self).top() <= i < old(self).nodes@.len() ==> #[trigger] is_trivia_elem(
                    old(self).nodes@[i],
                ),
        ensures
            final(self).wf(),
            final(self).text() == old(self).text(),
            final(self).stream() == old(self).stream(),
            final(self).rest@.len() <= old(self).rest@.len(),
            final(self).nodes@.len() >= old(self).nodes@.len(),
            final(self).errors == old(self).errors,
            final(self).closers@ == old(self).closers@,
            final(self).n_trivia >= old(self).n_trivia,
            final(self).nodes@.subrange(0, old(self).nodes@.len() as int) == old(self).nodes@,
            final(self).top() == old(self).top(),
            old(self).clean_ok() ==> final(self).clean_ok(),
            final(self).pos() == skip_trivia(old(self).ks(), old(self).pos()),
            final(self).nodes@.len() - old(self).nodes@.len() == final(self).pos() - old(self).pos(),
    {
        while self.rest.len() > 0 && self.rest[self.rest.len() - 1].kind.is_trivia()
            invariant
                self.n_trivia <= self.nodes@.len(),
                self.text() == old(self).text(),
                self.stream() == old(self).stream(),
                self.rest@.len() <= old(self).rest@.len(),
                self.nodes@.len() >= old(self).nodes@.len(),
                self.errors == old(self).errors,
                self.closers@ == old(self).closers@,
                self.n_trivia >= old(self).n_trivia,
                self.nodes@.subrange(0, old(self).nodes@.len() as int) == old(self).nodes@,
                self.top() == old(self).top(),
                old(self).clean_ok() ==> self.clean_ok(),
                skip_trivia(old(self).ks(), old(self).pos()) == skip_trivia(self.ks(), self.pos()),
                forall|i: int| self.top() <= i < self.nodes@.len() ==> #[trigger] is_trivia_elem(self.nodes@[i]),
                self.nodes@.len() - old(self).nodes@.len() == self.pos() - old(self).pos(),
                self.ends_ok(),
            decreases self.rest@.len(),
        {
            let ghost before = self.nodes@;
            proof {
                lemma_next_kind(*self);
            }
            self.eat_one();
            assert(self.nodes@.subrange(0, old(self).nodes@.len() as int) =~= before.subrange(
                0,
                old(self).nodes@.len() as int,
            ));
            if self.n_trivia < self.nodes.len() {
                self.n_trivia = self.n_trivia + 1;
            }
            assert forall|i: int| self.top() <= i < self.nodes@.len() implies #[trigger] is_trivia_elem(
                self.nodes@[i],
            ) by {
                if i < self.nodes@.len() - 1 {
                    assert(self.nodes@[i] == before[i]);
                }
            }
        }
        proof {
            lemma_next_kind(*self);
        }
    }

    /// Moves the next token, if any, into the built elements.
    fn eat_one(&mut self)
        requires
            old(self).ends_ok(),
        ensures
            final(self).ends_ok(),
            final(self).text() == old(self).text(),
            final(self).stream() == old(self).stream(),
            old(self).rest@.len() > 0 ==> final(self).rest@.len() == old(self).rest@.len() - 1,
            old(self).rest@.len() == 0 ==> final(self).rest@.len() == 0,
            final(self).nodes@.len() == old(self).nodes@.len() + if old(self).rest@.len() > 0 {
                1int
            } else {
                0int
            },
            final(self).n_trivia == old(self).n_trivia,
            final(self).errors == old(self).errors,
            final(self).closers@ == old(self).closers@,
            old(self).rest@.len() > 0 ==> final(self).nodes@ == old(self).nodes@.push(
                SyntaxElement::Token(old(self).rest@.last()),
            ),
            old(self).rest@.len() == 0 ==> final(self).nodes@ == old(self).nodes@,
            old(self).clean_ok() ==> final(self).clean_ok(),
    {
        let ghost before = *self;
        proof {
            lemma_next_kind(*self);
        }
        if let Some(t) = self.rest.pop() {
            self.last_end = t.span.end;
            self.nodes.push(SyntaxElement::token(t));
            proof {
                lemma_contents_append(before.nodes@, seq![SyntaxElement::Token(t)]);
                assert(self.nodes@ =~= before.nodes@ + seq![SyntaxElement::Token(t)]);
                lemma_contents_single(SyntaxElement::Token(t));
                assert(self.text() =~= before.text());
                lemma_leaves_append(before.nodes@, seq![SyntaxElement::Token(t)]);
                lemma_leaves_single(SyntaxElement::Token(t));
                assert(before.rest@.last() == t);
                assert(in_order(before.rest@) =~= seq![t] + in_order(self.rest@));
                assert(self.stream() =~= before.stream());
                assert(self.nodes@ =~= before.nodes@.push(SyntaxElement::Token(t)));
                assert(well_formed(SyntaxElement::Token(t)));
            }
        }
    }

    /// Moves the next token and the trivia after it into the built elements.
    fn eat(&mut self)
        requires
            old(self).n_trivia <= old(self).nodes@.len(),
            old(self).ends_ok(),
        ensures
            final(self).wf(),
            final(self).text() == old(self).text(),
            final(self).stream() == old(self).stream(),
            old(self).rest@.len() > 0 ==> final(self).rest@.len() < old(self).rest@.len(),
            final(self).rest@.len() <= old(self).rest@.len(),
            final(self).nodes@.len() >= old(self).nodes@.len(),
            final(self).errors == old(self).errors,
            final(self).closers@ == old(self).closers@,
            final(self).nodes@.subrange(0, old(self).nodes@.len() as int) == old(self).nodes@,
            old(self).rest@.len() > 0 ==> final(self).top() == old(self).nodes@.len() + 1
                && final(self).nodes@[old(self).nodes@.len() as int] == SyntaxElement::Token(
                old(self).rest@.last(),
            ),
            old(self).rest@.len() == 0 ==> final(self).top() == old(self).nodes@.len(),
            old(self).clean_ok() ==> final(self).clean_ok(),
            old(self).rest@.len() > 0 ==> final(self).pos() == advance(old(self).ks(), old(self).pos()),
            final(self).nodes@.len() - old(self).nodes@.len() == final(self).pos() - old(self).pos(),
    {
        let ghost before = self.nodes@;
        self.eat_one();
        self.n_trivia = 0;
        let ghost mid = self.nodes@;
        self.consume_trivia();
        proof {
            assert(self.nodes@.subrange(0, before.len() as int) =~= mid.subrange(0, before.len() as int));
            if old(self).rest@.len() > 0 {
                assert(self.nodes@[before.len() as int] == self.nodes@.subrange(0, mid.len() as int)[before.len() as int]);
            }
        }
    }

    /// Wraps the elements built since `m`, up to the trailing trivia, into one container.
    fn wrap(&mut self, m: usize, kind: SyntaxKind)
        requires
            old(self).wf(),
            m <= old(self).top(),
            is_container_kind(kind),
            old(self).errors@.len() == 0 ==> children_shape(
                kind,
                old(self).nodes@.subrange(m as int, old(self).top()),
            ),
        ensures
            final(self).nodes@[m as int] is Node,
            final(self).nodes@[m as int].spec_kind() == kind,
            final(self).nodes@.subrange(0, m as int) == old(self).nodes@.subrange(0, m as int),
            final(self).top() == m + 1,
            final(self).n_trivia == old(self).n_trivia,
            old(self).clean_ok() ==> final(self).clean_ok(),
            final(self).wf(),
            final(self).text() == old(self).text(),
            final(self).stream() == old(self).stream(),
            final(self).rest == old(self).rest,
            final(self).errors == old(self).errors,
            final(self).closers@ == old(self).closers@,
    {
        let ghost before = self.nodes@;
        let to = self.nodes.len() - self.n_trivia;
        let from = if m < to {
            m
        } else {
            to
        };
        let mut children = self.nodes.split_off(from);
        let mut trailing = children.split_off(to - from);
        let ghost kids = children@;
        let ghost tail = trailing@;
        let node = SyntaxElement::node(kind, children);
        self.nodes.push(node);
        self.nodes.append(&mut trailing);
        proof {
            let head = before.subrange(0, from as int);
            assert(before =~= head + kids + tail);
            assert(self.nodes@ =~= head + seq![node] + tail);
            lemma_contents_append(head, kids);
            lemma_contents_append(head + kids, tail);
            lemma_contents_append(head, seq![node]);
            lemma_contents_append(head + seq![node], tail);
            lemma_contents_single(node);
            lemma_leaves_append(head, kids);
            lemma_leaves_append(head + kids, tail);
            lemma_leaves_append(head, seq![node]);
            lemma_leaves_append(head + seq![node], tail);
            lemma_leaves_single(node);
            assert(self.nodes@.subrange(0, m as int) =~= head);
            assert(self.nodes@[m as int] == node);
            assert forall|i: int| self.top() <= i < self.nodes@.len() implies #[trigger] is_trivia_elem(
                self.nodes@[i],
            ) by {
                assert(self.nodes@[i] == before[to + (i - from - 1)]);
            }
            if before.len() > 0 && self.errors@.len() == 0 && old(self).clean_ok() {
                assert forall|i: int| 0 <= i < kids.len() implies #[trigger] well_formed(kids[i]) by {
                    assert(kids[i] == before[from + i]);
                }
                assert(node->Node_0.children@ == kids);
                assert(kids =~= before.subrange(m as int, to as int));
                assert(shape_ok(node));
                lemma_well_formed_node(node->Node_0);
                assert forall|i: int| 0 <= i < self.nodes@.len() implies #[trigger] well_formed(self.nodes@[i]) by {
                    if i < from {
                        assert(self.nodes@[i] == before[i]);
                    } else if i > from {
                        assert(self.nodes@[i] == before[to + (i - from - 1)]);
                    }
                }
            }
        }
    }

    fn error(&mut self, kind: DiagnosticKind, message: String, span: Span)
        ensures
            final(self).nodes == old(self).nodes,
            final(self).rest == old(self).rest,
            final(self).n_trivia == old(self).n_trivia,
            final(self).closers@ == old(self).closers@,
            final(self).errors@.len() == old(self).errors@.len() + 1,
            final(self).last_end == old(self).last_end,
            final(self).clean_ok(),
            diag_views(final(self).errors@) == diag_views(old(self).errors@).push(
                (kind, message@, span.start as int, span.end as int),
            ),
    {
        let ghost view = (kind, message@, span.start as int, span.end as int);
        self.errors.push(Diagnostic { kind, message, span });
        assert(diag_views(self.errors@) =~= diag_views(old(self).errors@).push(view));
    }

    /// Eats a token of `kind`, or reports that the container lacks it.
    fn expect(&mut self, kind: SyntaxKind)
        requires
            old(self).wf(),
            kind != SyntaxKind::End,
        ensures
            final(self).nodes@.len() >= old(self).nodes@.len(),
            final(self).nodes@.subrange(0, old(self).nodes@.len() as int) == old(self).nodes@,
            final(self).top() >= old(self).top(),
            final(self).errors@.len() == old(self).errors@.len() ==> final(self).top()
                == old(self).nodes@.len() + 1 && is_token_of(
                final(self).nodes@[old(self).nodes@.len() as int],
                kind,
            ),
            old(self).clean_ok() ==> final(self).clean_ok(),
            final(self).wf(),
            final(self).text() == old(self).text(),
            final(self).stream() == old(self).stream(),
            final(self).rest@.len() <= old(self).rest@.len(),
            final(self).errors@.len() >= old(self).errors@.len(),
            final(self).closers@ == old(self).closers@,
            (final(self).errors@.len() == old(self).errors@.len()) == (kind_at(
                old(self).ks(),
                old(self).pos(),
            ) == kind),
            final(self).errors@.len() == old(self).errors@.len() ==> final(self).pos() == advance(
                old(self).ks(),
                old(self).pos(),
            ),
            kind_at(old(self).ks(), old(self).pos()) == kind ==> final(self).errors == old(self).errors,
            kind_at(old(self).ks(), old(self).pos()) != kind ==> final(self).pos() == old(self).pos()
                && diag_views(final(self).errors@) == diag_views(old(self).errors@).push(
                missing_delimiter_view(old(self).tv(), old(self).pos(), kind),
            ),
    {
        proof {
            lemma_next_kind(*self);
        }
        if self.at(kind) {
            self.eat();
        } else {
            let pos = self.last_end;
            let message = "expected ".to_owned().concat(kind.name());
            self.error(DiagnosticKind::MissingDelimiter, message, Span::new(pos, pos));
        }
    }

    /// Eats a token that cannot start an expression, and reports it.
    fn unexpected(&mut self)
        requires
            old(self).wf(),
            old(self).rest@.len() > 0,
        ensures
            final(self).wf(),
            final(self).text() == old(self).text(),
            final(self).stream() == old(self).stream(),
            final(self).rest@.len() < old(self).rest@.len(),
            final(self).errors@.len() > old(self).errors@.len(),
            final(self).closers@ == old(self).closers@,
            final(self).nodes@.len() >= old(self).nodes@.len(),
            final(self).nodes@.subrange(0, old(self).nodes@.len() as int) == old(self).nodes@,
            final(self).top() == old(self).nodes@.len() + 1,
            !is_trivia_elem(final(self).nodes@[old(self).nodes@.len() as int]),
            final(self).nodes@[old(self).nodes@.len() as int] is Token,
            final(self).clean_ok(),
            final(self).pos() == advance(old(self).ks(), old(self).pos()),
            diag_views(final(self).errors@) == diag_views(old(self).errors@).push(
                unexpected_view(old(self).tv(), old(self).pos()),
            ),
    {
        proof {
            lemma_next_kind(*self);
        }
        let n = self.rest.len();
        let kind = self.rest[n - 1].kind;
        let span = self.rest[n - 1].span;
        self.eat();
        let message = "unexpected ".to_owned().concat(kind.name());
        self.error(DiagnosticKind::UnexpectedToken, message, span);
    }

    /// Reports an expression missing before the next token.
    fn missing_expression(&mut self)
        requires
            old(self).wf(),
        ensures
            final(self).nodes == old(self).nodes,
            final(self).rest == old(self).rest,
            final(self).n_trivia == old(self).n_trivia,
            final(self).closers@ == old(self).closers@,
            final(self).errors@.len() == old(self).errors@.len() + 1,
            final(self).last_end == old(self).last_end,
            final(self).clean_ok(),
            diag_views(final(self).errors@) == diag_views(old(self).errors@).push(
                missing_expression_view(old(self).tv(), old(self).pos()),
            ),
    {
        proof {
            lemma_next_kind(*self);
        }
        let n = self.rest.len();
        let span = if n > 0 {
            self.rest[n - 1].span
        } else {
            Span::new(self.last_end, self.last_end)
        };
        self.error(DiagnosticKind::MissingExpression, "expected expression".to_owned(), span);
    }

    /// The next token ends the expressions of the current container: its own
    /// closing delimiter, an enclosing one's, or the end of input.
    fn at_stop(&self, closer: SyntaxKind) -> (r: bool)
        ensures
            r == (self.next_kind() == closer || self.next_kind() == SyntaxKind::End
                || self.closers@.contains(self.next_kind())),
            r == stops(self.ks(), self.pos(), closer, self.closers@),
    {
        proof {
            lemma_next_kind(*self);
        }
        self.at(closer) || self.at(SyntaxKind::End) || self.at_enclosing_closer()
    }
}


proof fn lemma_in_order(r: Seq<Token>)
    ensures
        in_order(r).len() == r.len(),
        r.len() > 0 ==> in_order(r)[0] == r.last(),
    decreases r.len(),
{
    if r.len() > 0 {
        lemma_in_order(r.drop_last());
    }
}

/// The next token is the one at the parser's position.
proof fn lemma_next_kind(p: Parser)
    ensures
        0 <= p.pos() <= p.ks().len(),
        p.ks().len() == p.stream().len(),
        p.next_kind() == kind_at(p.ks(), p.pos()),
        p.rest@.len() > 0 ==> p.stream()[p.pos()] == p.rest@.last(),
        p.tv().len() == p.stream().len(),
{
    lemma_in_order(p.rest@);
    let l = leaves_of(p.nodes@);
    if p.rest@.len() > 0 {
        assert(p.stream()[l.len() as int] == in_order(p.rest@)[0]);
    }
}

/// A step stops where `r` says and adds the diagnostics of the kinds `r` lists.
spec fn records(old: Parser, new: Parser, r: (int, Seq<DiagnosticView>)) -> bool {
    &&& new.pos() == r.0
    &&& diag_views(new.errors@) == diag_views(old.errors@) + r.1
}

/// A step records no diagnostic exactly when `r` is some position, and
/// then stops there.
spec fn reads(old: Parser, new: Parser, r: Option<int>) -> bool {
    &&& (new.errors@.len() == old.errors@.len()) == (r is Some)
    &&& r is Some ==> new.pos() == r->0
}

/// A prefix of a prefix is a prefix.
proof fn lemma_prefix_trans(a: Seq<SyntaxElement>, b: Seq<SyntaxElement>, c: Seq<SyntaxElement>)
    requires
        a.len() <= b.len() <= c.len(),
        b.subrange(0, a.len() as int) == a,
        c.subrange(0, b.len() as int) == b,
    ensures
        c.subrange(0, a.len() as int) == a,
{
    assert(c.subrange(0, a.len() as int) =~= b.subrange(0, a.len() as int));
}

proof fn lemma_keeps_refl(a: Parser)
    requires
        a.wf(),
    ensures
        keeps(a, a),
{
    assert(a.nodes@.subrange(0, a.nodes@.len() as int) =~= a.nodes@);
}

proof fn lemma_keeps_trans(a: Parser, b: Parser, c: Parser)
    requires
        keeps(a, b),
        keeps(b, c),
    ensures
        keeps(a, c),
{
    lemma_prefix_trans(a.nodes@, b.nodes@, c.nodes@);
}

/// What every parsing step keeps: well-formedness, the text, the open
/// containers; it reads forward only and never drops a diagnostic.
spec fn keeps(old: Parser, new: Parser) -> bool {
    &&& new.wf()
    &&& new.text() == old.text()
    &&& new.stream() == old.stream()
    &&& new.rest@.len() <= old.rest@.len()
    &&& new.closers@ == old.closers@
    &&& new.errors@.len() >= old.errors@.len()
    &&& new.nodes@.len() >= old.nodes@.len()
    &&& new.nodes@.subrange(0, old.nodes@.len() as int) == old.nodes@
    &&& new.top() >= old.top()
    &&& old.clean_ok() ==> new.clean_ok()
}

/// Expressions until the current container's closing delimiter, an enclosing
/// one's, or the end of input.
fn exprs(p: &mut Parser, closer: SyntaxKind)
    requires
        old(p).wf(),
        prefix_followed(old(p).ks()),
    ensures
        keeps(*old(p), *final(p)),
        final(p).next_kind() == closer || final(p).next_kind() == SyntaxKind::End
            || final(p).closers@.contains(final(p).next_kind()),
        reads(*old(p), *final(p), clean_exprs(old(p).ks(), old(p).pos(), closer, old(p).closers@)),
        records(*old(p), *final(p), diag_exprs(old(p).ks(), old(p).tv(), old(p).pos(), closer, old(p).closers@)),
        final(p).errors@.len() == old(p).errors@.len() ==> forall|i: int|
            old(p).nodes@.len() <= i < final(p).nodes@.len() ==> !#[trigger] is_structural(
                final(p).nodes@[i],
            ),
        forall|i: int|
            old(p).nodes@.len() <= i < final(p).nodes@.len() ==> !#[trigger] is_root_node(final(p).nodes@[i])
                && !is_pair_node(final(p).nodes@[i]),
    decreases old(p).rest@.len(), 3nat,
{
    proof {
        lemma_keeps_refl(*p);
    }
    let ghost ks = p.ks();
    let ghost tv = p.tv();
    let ghost cl = p.closers@;
    let ghost goal = clean_exprs(ks, p.pos(), closer, cl);
    while !p.at_stop(closer)
        invariant
            keeps(*old(p), *p),
            ks == old(p).ks(),
            tv == old(p).tv(),
            prefix_followed(p.ks()),
            cl == old(p).closers@,
            goal == clean_exprs(old(p).ks(), old(p).pos(), closer, old(p).closers@),
            p.errors@.len() == old(p).errors@.len() ==> goal == clean_exprs(ks, p.pos(), closer, cl),
            p.errors@.len() > old(p).errors@.len() ==> goal is None,
            diag_exprs(ks, tv, p.pos(), closer, cl).0 == diag_exprs(ks, tv, old(p).pos(), closer, cl).0,
            p.errors@.len() == old(p).errors@.len() ==> forall|i: int|
                old(p).nodes@.len() <= i < p.nodes@.len() ==> !#[trigger] is_structural(p.nodes@[i]),
            forall|i: int|
                old(p).nodes@.len() <= i < p.nodes@.len() ==> !#[trigger] is_root_node(p.nodes@[i])
                    && !is_pair_node(p.nodes@[i]),
            diag_views(p.errors@) + diag_exprs(ks, tv, p.pos(), closer, cl).1 == diag_views(
                old(p).errors@,
            ) + diag_exprs(ks, tv, old(p).pos(), closer, cl).1,
        decreases p.rest@.len(),
    {
        let ghost before = *p;
        proof {
            lemma_next_kind(before);
        }
        expr(p);
        proof {
            lemma_keeps_trans(*old(p), before, *p);
            lemma_next_kind(*p);
            let r = diag_expr(ks, tv, before.pos(), cl);
            assert forall|i: int| old(p).nodes@.len() <= i < p.nodes@.len() implies !#[trigger] is_root_node(
                p.nodes@[i],
            ) && !is_pair_node(p.nodes@[i]) by {
                if i < before.nodes@.len() {
                    assert(p.nodes@[i] == p.nodes@.subrange(0, before.nodes@.len() as int)[i]);
                } else if i > before.nodes@.len() {
                    assert(is_trivia_elem(p.nodes@[i]));
                }
            }
            if p.errors@.len() == old(p).errors@.len() {
                assert forall|i: int| old(p).nodes@.len() <= i < p.nodes@.len() implies !#[trigger] is_structural(
                    p.nodes@[i],
                ) by {
                    if i < before.nodes@.len() {
                        assert(p.nodes@[i] == p.nodes@.subrange(0, before.nodes@.len() as int)[i]);
                    } else if i > before.nodes@.len() {
                        assert(is_trivia_elem(p.nodes@[i]));
                    }
                }
            }
            assert(diag_views(p.errors@) + diag_exprs(ks, tv, p.pos(), closer, cl).1 =~= diag_views(
                before.errors@,
            ) + diag_exprs(ks, tv, before.pos(), closer, cl).1);
        }
    }
    proof {
        lemma_next_kind(*p);
    }
}

/// One expression, with the trivia that follows it.
fn expr(p: &mut Parser)
    requires
        old(p).wf(),
        prefix_followed(old(p).ks()),
        old(p).rest@.len() > 0,
    ensures
        keeps(*old(p), *final(p)),
        final(p).rest@.len() < old(p).rest@.len(),
        final(p).top() == old(p).nodes@.len() + 1,
        !is_trivia_elem(final(p).nodes@[old(p).nodes@.len() as int]),
        !is_root_node(final(p).nodes@[old(p).nodes@.len() as int]),
        !is_pair_node(final(p).nodes@[old(p).nodes@.len() as int]),
        final(p).errors@.len() == old(p).errors@.len() ==> !is_structural(
            final(p).nodes@[old(p).nodes@.len() as int],
        ),
        reads(*old(p), *final(p), clean_expr(old(p).ks(), old(p).pos(), old(p).closers@)),
        records(*old(p), *final(p), diag_expr(old(p).ks(), old(p).tv(), old(p).pos(), old(p).closers@)),
    decreases old(p).rest@.len(), 2nat,
{
    proof {
        lemma_next_kind(*p);
    }
    match p.peek_kind() {
        SyntaxKind::LParen => list(p),
        SyntaxKind::LBracket => sequence(p),
        SyntaxKind::LBrace => table(p),
        SyntaxKind::Prefix => prefixed(p),
        SyntaxKind::Symbol
        | SyntaxKind::Number
        | SyntaxKind::String
        | SyntaxKind::Keyword
        | SyntaxKind::Boolean
        | SyntaxKind::HashDirective => {
            p.eat();
            assert(diag_views(p.errors@) + Seq::<DiagnosticView>::empty() =~= diag_views(
                p.errors@,
            ));
        },
        _ => {
            let ghost before = diag_views(p.errors@);
            let ghost v = unexpected_view(p.tv(), p.pos());
            p.unexpected();
            assert(diag_views(p.errors@) =~= before + seq![v]);
        },
    }
}

/// A container from its opening delimiter (the next token) to `closer`.
fn delimited(p: &mut Parser, closer: SyntaxKind, kind: SyntaxKind)
    requires
        old(p).wf(),
        prefix_followed(old(p).ks()),
        old(p).rest@.len() > 0,
        kind == SyntaxKind::List || kind == SyntaxKind::Sequence,
        old(p).next_kind() == opener_of(kind),
        closer == closer_of(kind),
    ensures
        keeps(*old(p), *final(p)),
        final(p).rest@.len() < old(p).rest@.len(),
        final(p).top() == old(p).nodes@.len() + 1,
        !is_trivia_elem(final(p).nodes@[old(p).nodes@.len() as int]),
        !is_root_node(final(p).nodes@[old(p).nodes@.len() as int]),
        !is_pair_node(final(p).nodes@[old(p).nodes@.len() as int]),
        final(p).errors@.len() == old(p).errors@.len() ==> !is_structural(
            final(p).nodes@[old(p).nodes@.len() as int],
        ),
        reads(*old(p), *final(p), clean_delimited(old(p).ks(), old(p).pos(), closer, old(p).closers@)),
        records(*old(p), *final(p), diag_delimited(old(p).ks(), old(p).tv(), old(p).pos(), closer, old(p).closers@)),
    decreases old(p).rest@.len(), 0nat,
{
    let ghost s0 = p.nodes@;
    let ghost q0 = *p;
    proof {
        lemma_next_kind(q0);
    }
    let m = p.nodes.len();
    p.eat();
    let ghost after_eat = p.nodes@;
    let ghost outer = p.closers@;
    p.closers.push(closer);
    let ghost q1 = *p;
    proof {
        lemma_next_kind(q1);
    }
    exprs(p, closer);
    p.closers.pop();
    assert(p.closers@ =~= outer);
    let ghost before_expect = p.nodes@;
    let ghost q2 = *p;
    p.expect(closer);
    let ghost s4 = p.nodes@;
    proof {
        let ks = q0.ks();
        assert(q1.ks() == ks);
        assert(q1.closers@ == q0.closers@.push(closer));
        assert(0 <= q0.pos() < q1.pos() <= ks.len());
        if q2.errors@.len() == q0.errors@.len() {
            assert(clean_exprs(ks, q1.pos(), closer, q0.closers@.push(closer)) == Some(q2.pos()));
        } else {
            assert(clean_exprs(ks, q1.pos(), closer, q0.closers@.push(closer)) is None);
        }
    }
    proof {
        assert(p.nodes@[m as int] == p.nodes@.subrange(0, before_expect.len() as int)[m as int]);
        assert(before_expect[m as int] == before_expect.subrange(0, after_eat.len() as int)[m as int]);
        lemma_prefix_trans(s0, after_eat, before_expect);
        lemma_prefix_trans(s0, before_expect, s4);
    }
    proof {
        if p.errors@.len() == 0 {
            let sub = p.nodes@.subrange(m as int, p.top());
            assert(sub[0] == p.nodes@[m as int]);
            assert(sub.last() == p.nodes@[before_expect.len() as int]);
            assert forall|i: int| 0 < i < sub.len() - 1 implies !#[trigger] is_structural(sub[i]) by {
                assert(sub[i] == p.nodes@.subrange(0, before_expect.len() as int)[m + i]);
                if m + i < after_eat.len() {
                    assert(before_expect[m + i] == before_expect.subrange(0, after_eat.len() as int)[m + i]);
                    assert(is_trivia_elem(after_eat[m + i]));
                }
            }
            assert forall|i: int| 0 <= i < sub.len() implies !#[trigger] is_root_node(sub[i])
                && !is_pair_node(sub[i]) by {
                if 0 < i < sub.len() - 1 {
                    assert(sub[i] == p.nodes@.subrange(0, before_expect.len() as int)[m + i]);
                    if m + i < after_eat.len() {
                        assert(before_expect[m + i] == before_expect.subrange(0, after_eat.len() as int)[m + i]);
                        assert(is_trivia_elem(after_eat[m + i]));
                    }
                }
            }
            assert(children_shape(kind, sub));
        }
    }
    p.wrap(m, kind);
    assert(p.nodes@.subrange(0, m as int) =~= s0);
}

fn list(p: &mut Parser)
    requires
        old(p).wf(),
        prefix_followed(old(p).ks()),
        old(p).rest@.len() > 0,
        old(p).next_kind() == SyntaxKind::LParen,
    ensures
        keeps(*old(p), *final(p)),
        final(p).rest@.len() < old(p).rest@.len(),
        final(p).top() == old(p).nodes@.len() + 1,
        !is_trivia_elem(final(p).nodes@[old(p).nodes@.len() as int]),
        !is_root_node(final(p).nodes@[old(p).nodes@.len() as int]),
        !is_pair_node(final(p).nodes@[old(p).nodes@.len() as int]),
        final(p).errors@.len() == old(p).errors@.len() ==> !is_structural(
            final(p).nodes@[old(p).nodes@.len() as int],
        ),
        reads(*old(p), *final(p), clean_delimited(old(p).ks(), old(p).pos(), SyntaxKind::RParen, old(p).closers@)),
        records(*old(p), *final(p), diag_delimited(old(p).ks(), old(p).tv(), old(p).pos(), SyntaxKind::RParen, old(p).closers@)),
    decreases old(p).rest@.len(), 1nat,
{
    delimited(p, SyntaxKind::RParen, SyntaxKind::List);
}

fn sequence(p: &mut Parser)
    requires
        old(p).wf(),
        prefix_followed(old(p).ks()),
        old(p).rest@.len() > 0,
        old(p).next_kind() == SyntaxKind::LBracket,
    ensures
        keeps(*old(p), *final(p)),
        final(p).rest@.len() < old(p).rest@.len(),
        final(p).top() == old(p).nodes@.len() + 1,
        !is_trivia_elem(final(p).nodes@[old(p).nodes@.len() as int]),
        !is_root_node(final(p).nodes@[old(p).nodes@.len() as int]),
        !is_pair_node(final(p).nodes@[old(p).nodes@.len() as int]),
        final(p).errors@.len() == old(p).errors@.len() ==> !is_structural(
            final(p).nodes@[old(p).nodes@.len() as int],
        ),
        reads(*old(p), *final(p), clean_delimited(old(p).ks(), old(p).pos(), SyntaxKind::RBracket, old(p).closers@)),
        records(*old(p), *final(p), diag_delimited(old(p).ks(), old(p).tv(), old(p).pos(), SyntaxKind::RBracket, old(p).closers@)),
    decreases old(p).rest@.len(), 1nat,
{
    delimited(p, SyntaxKind::RBracket, SyntaxKind::Sequence);
}

/// A table: key-value pairs between braces.
fn table(p: &mut Parser)
    requires
        old(p).wf(),
        prefix_followed(old(p).ks()),
        old(p).rest@.len() > 0,
        old(p).next_kind() == SyntaxKind::LBrace,
    ensures
        keeps(*old(p), *final(p)),
        final(p).rest@.len() < old(p).rest@.len(),
        final(p).top() == old(p).nodes@.len() + 1,
        !is_trivia_elem(final(p).nodes@[old(p).nodes@.len() as int]),
        !is_root_node(final(p).nodes@[old(p).nodes@.len() as int]),
        !is_pair_node(final(p).nodes@[old(p).nodes@.len() as int]),
        final(p).errors@.len() == old(p).errors@.len() ==> !is_structural(
            final(p).nodes@[old(p).nodes@.len() as int],
        ),
        reads(*old(p), *final(p), clean_table(old(p).ks(), old(p).pos(), old(p).closers@)),
        records(*old(p), *final(p), diag_table(old(p).ks(), old(p).tv(), old(p).pos(), old(p).closers@)),
    decreases old(p).rest@.len(), 1nat,
{
    let ghost s0 = p.nodes@;
    let ghost q0 = *p;
    proof {
        lemma_next_kind(q0);
    }
    let m = p.nodes.len();
    p.eat();
    let ghost after_eat = p.nodes@;
    let ghost outer = p.closers@;
    p.closers.push(SyntaxKind::RBrace);
    let ghost start = *p;
    proof {
        lemma_keeps_refl(start);
    }
    let ghost goal = clean_pairs(start.ks(), start.pos(), start.closers@);
    while !p.at_stop(SyntaxKind::RBrace)
        invariant
            keeps(start, *p),
            start.rest@.len() < old(p).rest@.len(),
            prefix_followed(p.ks()),
            start.nodes@.len() >= m + 1,
            start.top() == m + 1,
            forall|i: int|
                m < i < p.nodes@.len() ==> #[trigger] is_trivia_elem(p.nodes@[i]) || (p.nodes@[i] is Node
                    && p.nodes@[i].spec_kind() == SyntaxKind::Pair),
            p.errors@.len() == start.errors@.len() ==> goal == clean_pairs(p.ks(), p.pos(), p.closers@),
            p.errors@.len() > start.errors@.len() ==> goal is None,
            diag_pairs(p.ks(), p.tv(), p.pos(), p.closers@).0 == diag_pairs(start.ks(), start.tv(), start.pos(), start.closers@).0,
            diag_views(p.errors@) + diag_pairs(p.ks(), p.tv(), p.pos(), p.closers@).1 == diag_views(
                start.errors@,
            ) + diag_pairs(start.ks(), start.tv(), start.pos(), start.closers@).1,
        decreases p.rest@.len(),
    {
        let ghost before = *p;
        proof {
            lemma_next_kind(before);
        }
        pair(p);
        proof {
            lemma_keeps_trans(start, before, *p);
            lemma_next_kind(*p);
            assert(diag_views(p.errors@) + diag_pairs(p.ks(), p.tv(), p.pos(), p.closers@).1 =~= diag_views(
                before.errors@,
            ) + diag_pairs(before.ks(), before.tv(), before.pos(), before.closers@).1);
            assert forall|i: int| m < i < p.nodes@.len() implies #[trigger] is_trivia_elem(p.nodes@[i])
                || (p.nodes@[i] is Node && p.nodes@[i].spec_kind() == SyntaxKind::Pair) by {
                if i < before.nodes@.len() {
                    assert(p.nodes@[i] == p.nodes@.subrange(0, before.nodes@.len() as int)[i]);
                }
            }
        }
    }
    proof {
        lemma_next_kind(*p);
    }
    let ghost q2 = *p;
    p.closers.pop();
    assert(p.closers@ =~= outer);
    let ghost before_expect = p.nodes@;
    let ghost q3 = *p;
    p.expect(SyntaxKind::RBrace);
    proof {
        let ks = q0.ks();
        lemma_next_kind(start);
        assert(start.ks() == ks);
        assert(start.closers@ == q0.closers@.push(SyntaxKind::RBrace));
        assert(0 <= q0.pos() < start.pos() <= ks.len());
        if q2.errors@.len() == start.errors@.len() {
            assert(goal == Some(q2.pos()));
            assert(clean_pairs(ks, start.pos(), q0.closers@.push(SyntaxKind::RBrace)) == Some(q3.pos()));
        } else {
            assert(clean_pairs(ks, start.pos(), q0.closers@.push(SyntaxKind::RBrace)) is None);
        }
    }
    let ghost s4 = p.nodes@;
    proof {
        assert(p.nodes@[m as int] == p.nodes@.subrange(0, before_expect.len() as int)[m as int]);
        assert(before_expect[m as int] == before_expect.subrange(0, after_eat.len() as int)[m as int]);
        lemma_prefix_trans(s0, after_eat, before_expect);
        lemma_prefix_trans(s0, before_expect, s4);
    }
    proof {
        if p.errors@.len() == 0 {
            let sub = p.nodes@.subrange(m as int, p.top());
            assert(sub[0] == p.nodes@[m as int]);
            assert(sub.last() == p.nodes@[before_expect.len() as int]);
            assert forall|i: int| 0 < i < sub.len() - 1 implies #[trigger] is_trivia_elem(sub[i]) || (
            sub[i] is Node && sub[i].spec_kind() == SyntaxKind::Pair) by {
                assert(sub[i] == p.nodes@.subrange(0, before_expect.len() as int)[m + i]);
            }
            assert forall|i: int| 0 < i < sub.len() - 1 implies !#[trigger] is_structural(sub[i]) by {
                assert(is_trivia_elem(sub[i]) || (sub[i] is Node && sub[i].spec_kind() == SyntaxKind::Pair));
            }
            assert forall|i: int| 0 <= i < sub.len() implies !#[trigger] is_root_node(sub[i]) by {
                if 0 < i < sub.len() - 1 {
                    assert(is_trivia_elem(sub[i]) || (sub[i] is Node && sub[i].spec_kind() == SyntaxKind::Pair));
                }
            }
            assert(children_shape(SyntaxKind::Table, sub));
        }
    }
    p.wrap(m, SyntaxKind::Table);
    assert(p.nodes@.subrange(0, m as int) =~= s0);
}

/// A key and its value; a missing value is reported.
fn pair(p: &mut Parser)
    requires
        old(p).wf(),
        prefix_followed(old(p).ks()),
        old(p).rest@.len() > 0,
    ensures
        keeps(*old(p), *final(p)),
        final(p).rest@.len() < old(p).rest@.len(),
        final(p).top() == old(p).nodes@.len() + 1,
        !is_trivia_elem(final(p).nodes@[old(p).nodes@.len() as int]),
        !is_root_node(final(p).nodes@[old(p).nodes@.len() as int]),
        final(p).errors@.len() == old(p).errors@.len() ==> !is_structural(
            final(p).nodes@[old(p).nodes@.len() as int],
        ),
        reads(*old(p), *final(p), clean_pair(old(p).ks(), old(p).pos(), old(p).closers@)),
        final(p).nodes@[old(p).nodes@.len() as int] is Node,
        final(p).nodes@[old(p).nodes@.len() as int].spec_kind() == SyntaxKind::Pair,
        records(*old(p), *final(p), diag_pair(old(p).ks(), old(p).tv(), old(p).pos(), old(p).closers@)),
    decreases old(p).rest@.len(), 3nat,
{
    let ghost s0 = *p;
    proof {
        lemma_next_kind(s0);
    }
    let m = p.nodes.len();
    expr(p);
    let ghost s1 = *p;
    proof {
        lemma_next_kind(s1);
        if s1.errors@.len() == s0.errors@.len() {
            assert(clean_expr(s0.ks(), s0.pos(), s0.closers@) == Some(s1.pos()));
            assert(0 <= s0.pos() < s1.pos() <= s0.ks().len());
        }
    }
    if p.at(SyntaxKind::End) || p.at_enclosing_closer() {
        p.missing_expression();
        proof {
            let e = diag_expr(s0.ks(), s0.tv(), s0.pos(), s0.closers@).1;
            assert(diag_views(p.errors@) =~= diag_views(s0.errors@) + e.push(
                missing_expression_view(s0.tv(), s1.pos()),
            ));
        }
    } else {
        expr(p);
        proof {
            lemma_prefix_trans(s0.nodes@, s1.nodes@, p.nodes@);
            let e = diag_expr(s0.ks(), s0.tv(), s0.pos(), s0.closers@).1;
            let e2 = diag_expr(s0.ks(), s0.tv(), s1.pos(), s0.closers@).1;
            assert(diag_views(p.errors@) =~= diag_views(s0.errors@) + (e + e2));
        }
    }
    let ghost s2 = p.nodes@;
    proof {
        if p.errors@.len() == 0 {
            let sub = p.nodes@.subrange(m as int, p.top());
            assert(sub[0] == p.nodes@.subrange(0, s1.nodes@.len() as int)[m as int]);
            assert(sub.last() == p.nodes@[s1.nodes@.len() as int]);
            assert forall|i: int| 0 < i < sub.len() - 1 implies #[trigger] is_trivia_elem(sub[i]) by {
                assert(sub[i] == p.nodes@.subrange(0, s1.nodes@.len() as int)[m + i]);
            }
            assert forall|i: int| 0 <= i < sub.len() implies !#[trigger] is_structural(sub[i]) by {
                if 0 < i < sub.len() - 1 {
                    assert(is_trivia_elem(sub[i]));
                }
            }
            assert forall|i: int| 0 <= i < sub.len() implies !#[trigger] is_root_node(sub[i])
                && !is_pair_node(sub[i]) by {
                if 0 < i < sub.len() - 1 {
                    assert(is_trivia_elem(sub[i]));
                }
            }
            assert(children_shape(SyntaxKind::Pair, sub));
        }
    }
    p.wrap(m, SyntaxKind::Pair);
    assert(p.nodes@.subrange(0, m as int) =~= s2.subrange(0, m as int));
}

/// A prefix and the expression right after it; a missing expression is reported.
fn prefixed(p: &mut Parser)
    requires
        old(p).wf(),
        prefix_followed(old(p).ks()),
        old(p).rest@.len() > 0,
        old(p).next_kind() == SyntaxKind::Prefix,
    ensures
        keeps(*old(p), *final(p)),
        final(p).rest@.len() < old(p).rest@.len(),
        final(p).top() == old(p).nodes@.len() + 1,
        !is_trivia_elem(final(p).nodes@[old(p).nodes@.len() as int]),
        !is_root_node(final(p).nodes@[old(p).nodes@.len() as int]),
        !is_pair_node(final(p).nodes@[old(p).nodes@.len() as int]),
        final(p).errors@.len() == old(p).errors@.len() ==> !is_structural(
            final(p).nodes@[old(p).nodes@.len() as int],
        ),
        reads(*old(p), *final(p), clean_prefixed(old(p).ks(), old(p).pos(), old(p).closers@)),
        records(*old(p), *final(p), diag_prefixed(old(p).ks(), old(p).tv(), old(p).pos(), old(p).closers@)),
    decreases old(p).rest@.len(), 1nat,
{
    let ghost s0 = *p;
    proof {
        lemma_next_kind(s0);
    }
    let m = p.nodes.len();
    p.eat();
    let ghost s1 = *p;
    proof {
        lemma_next_kind(s1);
        assert(s1.pos() == advance(s0.ks(), s0.pos()));
        assert(s0.ks()[s0.pos()] == SyntaxKind::Prefix);
        assert(s1.pos() == s0.pos() + 1);
        assert(s1.nodes@.len() == m + 1);
        assert(0 <= s0.pos() < s1.pos() <= s0.ks().len());
    }
    if p.at(SyntaxKind::End) || p.at_enclosing_closer() {
        p.missing_expression();
        proof {
            assert(diag_views(p.errors@) =~= diag_views(s0.errors@) + seq![
                missing_expression_view(s0.tv(), s1.pos()),
            ]);
        }
    } else {
        expr(p);
        proof {
            lemma_prefix_trans(s0.nodes@, s1.nodes@, p.nodes@);
        }
    }
    let ghost s2 = p.nodes@;
    proof {
        if p.errors@.len() == 0 {
            let sub = p.nodes@.subrange(m as int, p.top());
            assert(sub[0] == p.nodes@.subrange(0, s1.nodes@.len() as int)[m as int]);
            assert(sub.last() == p.nodes@[s1.nodes@.len() as int]);
            assert forall|i: int| 0 < i < sub.len() - 1 implies #[trigger] is_trivia_elem(sub[i]) by {
                assert(sub[i] == p.nodes@.subrange(0, s1.nodes@.len() as int)[m + i]);
            }
            assert forall|i: int| 0 < i < sub.len() implies !#[trigger] is_structural(sub[i]) by {
                if i < sub.len() - 1 {
                    assert(is_trivia_elem(sub[i]));
                }
            }
            assert(children_shape(SyntaxKind::Prefixed, sub));
        }
    }
    p.wrap(m, SyntaxKind::Prefixed);
    assert(p.nodes@.subrange(0, m as int) =~= s2.subrange(0, m as int));
}

/// Parses `src` into a tree whose root covers the whole text, or returns
/// every diagnostic found: the lexer's if it failed, else the parser's.
pub fn parse(src: &str) -> (r: Result<SyntaxElement, Error>)
    ensures
        r matches Ok(root) ==> root.spec_kind() == SyntaxKind::Root && content(root) == src@,
        r matches Ok(root) ==> tokens_are(leaves(root), tokenize(src@, 0, true)->0, src@),
        r matches Ok(root) ==> well_formed(root),
        r matches Err(e) ==> e.spec_diagnostics().len() > 0,
        (r matches Err(e) && e is Lex) <==> tokenize(src@, 0, true) is None,
        (r matches Err(e) && e is Parse) <==> (tokenize(src@, 0, true) is Some && !parses_cleanly(
            lexeme_kinds(tokenize(src@, 0, true)->0),
        )),
        r matches Err(Error::Lex(d)) ==> lex_diagnostics_are(d@, src@),
        r matches Err(Error::Parse(d)) ==> diag_views(d@) == parse_diagnostics(
            lexeme_kinds(tokenize(src@, 0, true)->0),
            lexeme_views(tokenize(src@, 0, true)->0, src@),
        ),
{
    let tokens = match lex(src) {
        Ok(t) => t,
        Err(e) => return Err(e),
    };
    let ghost ls = tokenize(src@, 0, true)->0;
    let mut p = Parser::new(tokens);
    let ghost start = p;
    let ghost ks = p.ks();
    let ghost tv = p.tv();
    proof {
        lemma_keeps_refl(start);
        assert(ks =~= lexeme_kinds(ls));
        assert(tv =~= lexeme_views(ls, src@));
        lemma_prefix_followed(src@, 0, true);
        assert(diag_views(p.errors@) + diag_top(ks, tv, p.pos()) =~= parse_diagnostics(ks, tv));
        assert forall|i: int| 0 <= i < p.nodes@.len() implies !#[trigger] is_structural(p.nodes@[i]) by {
            assert(is_trivia_elem(p.nodes@[i]));
        }
        assert forall|i: int| 0 <= i < p.nodes@.len() implies !#[trigger] is_root_node(p.nodes@[i])
            && !is_pair_node(p.nodes@[i]) by {
            assert(is_trivia_elem(p.nodes@[i]));
        }
        assert(p.closers@ =~= Seq::<SyntaxKind>::empty());
    }
    while p.rest.len() > 0
        invariant
            keeps(start, p),
            ks == start.ks(),
            tv == start.tv(),
            prefix_followed(ks),
            start.errors@.len() == 0,
            start.closers@ == Seq::<SyntaxKind>::empty(),
            p.errors@.len() == 0 ==> (parses_cleanly(ks) == clean_top(ks, p.pos())),
            p.errors@.len() > 0 ==> !parses_cleanly(ks),
            diag_views(p.errors@) + diag_top(ks, tv, p.pos()) == parse_diagnostics(ks, tv),
            p.errors@.len() == 0 ==> forall|i: int|
                0 <= i < p.nodes@.len() ==> !#[trigger] is_structural(p.nodes@[i]),
            forall|i: int|
                0 <= i < p.nodes@.len() ==> !#[trigger] is_root_node(p.nodes@[i]) && !is_pair_node(p.nodes@[i]),
        decreases p.rest@.len(),
    {
        let ghost before = p;
        proof {
            lemma_next_kind(before);
        }
        expr(&mut p);
        proof {
            lemma_keeps_trans(start, before, p);
            lemma_next_kind(p);
            assert(before.closers@ =~= Seq::<SyntaxKind>::empty());
            assert forall|i: int| 0 <= i < p.nodes@.len() implies !#[trigger] is_root_node(p.nodes@[i])
                && !is_pair_node(p.nodes@[i]) by {
                if i < before.nodes@.len() {
                    assert(p.nodes@[i] == p.nodes@.subrange(0, before.nodes@.len() as int)[i]);
                } else if i > before.nodes@.len() {
                    assert(is_trivia_elem(p.nodes@[i]));
                }
            }
            if p.errors@.len() == 0 {
                assert(p.wf());
                assert(p.top() == before.nodes@.len() + 1);
                assert forall|i: int| 0 <= i < p.nodes@.len() implies !#[trigger] is_structural(p.nodes@[i]) by {
                    if i < before.nodes@.len() {
                        assert(p.nodes@[i] == p.nodes@.subrange(0, before.nodes@.len() as int)[i]);
                    } else if i > before.nodes@.len() {
                        assert(is_trivia_elem(p.nodes@[i]));
                    }
                }
            }
            let e = diag_expr(ks, tv, before.pos(), Seq::empty()).1;
            assert(diag_views(p.errors@) + diag_top(ks, tv, p.pos()) =~= diag_views(before.errors@)
                + diag_top(ks, tv, before.pos()));
        }
    }
    proof {
        lemma_next_kind(p);
    }
    proof {
        assert(rest_text(p.rest@) =~= Seq::<char>::empty());
        assert(contents(p.nodes@) =~= src@);
        assert(in_order(p.rest@) =~= Seq::<Token>::empty());
        assert(leaves_of(p.nodes@) =~= tokens@);
    }
    if p.errors.len() == 0 {
        let ghost nodes = p.nodes@;
        let root = SyntaxElement::node(SyntaxKind::Root, p.nodes);
        proof {
            assert(root->Node_0.children@ == nodes);
            lemma_well_formed_node(root->Node_0);
        }
        Ok(root)
    } else {
        Err(Error::Parse(p.errors))
    }
}

} // verus!
