use crate::kind::SyntaxKind;
use crate::lexer::{chars_of, string_of};
use vstd::prelude::*;

verus! {

/// A half-open range `[start, end)` of byte offsets into the source text.
#[derive(Copy, Clone, Debug, PartialEq, Eq, Structural)]
pub struct Span {
    pub start: usize,
    pub end: usize,
}

impl Span {
    pub fn new(start: usize, end: usize) -> (r: Span)
        ensures
            r.start == start,
            r.end == end,
    {
        Span { start, end }
    }
}

/// A leaf of the syntax tree: a token or a trivia piece with its text.
#[derive(Debug)]
pub struct Token {
    pub kind: SyntaxKind,
    pub span: Span,
    pub text: String,
}

impl Token {
    pub fn new(kind: SyntaxKind, text: String, span: Span) -> (r: Token)
        ensures
            r.kind == kind,
            r.span == span,
            r.text@ == text@,
    {
        Token { kind, span, text }
    }
}


/// A container node: its kind, its extent and its children in source order.
#[derive(Debug)]
pub struct Node {
    pub kind: SyntaxKind,
    pub span: Span,
    pub children: Vec<SyntaxElement>,
}

impl Node {
    pub fn new(kind: SyntaxKind, children: Vec<SyntaxElement>, span: Span) -> (r: Node)
        ensures
            r.kind == kind,
            r.span == span,
            r.children@ == children@,
    {
        Node { kind, span, children }
    }
}

/// An element of the syntax tree: a leaf or a container.
#[derive(Debug)]
pub enum SyntaxElement {
    Token(Token),
    Node(Node),
}

/// The source text that an element covers: its leaves' texts in order.
pub open spec fn content(e: SyntaxElement) -> Seq<char>
    decreases e, 0int,
{
    match e {
        SyntaxElement::Token(t) => t.text@,
        SyntaxElement::Node(n) => contents_upto(n.children@, n.children@.len() as int),
    }
}

/// The contents of the first `k` elements of `es`, joined.
pub open spec fn contents_upto(es: Seq<SyntaxElement>, k: int) -> Seq<char>
    decreases es, k,
{
    if k <= 0 || k > es.len() {
        Seq::empty()
    } else {
        contents_upto(es, k - 1) + content(es[k - 1])
    }
}

pub open spec fn contents(es: Seq<SyntaxElement>) -> Seq<char> {
    contents_upto(es, es.len() as int)
}

impl SyntaxElement {
    pub open spec fn spec_kind(&self) -> SyntaxKind {
        match self {
            SyntaxElement::Token(t) => t.kind,
            SyntaxElement::Node(n) => n.kind,
        }
    }

    pub open spec fn spec_span(&self) -> Span {
        match self {
            SyntaxElement::Token(t) => t.span,
            SyntaxElement::Node(n) => n.span,
        }
    }

    pub open spec fn spec_children(&self) -> Seq<SyntaxElement> {
        match self {
            SyntaxElement::Token(_) => Seq::empty(),
            SyntaxElement::Node(n) => n.children@,
        }
    }

    pub fn token(t: Token) -> (r: SyntaxElement)
        ensures
            r == SyntaxElement::Token(t),
    {
        SyntaxElement::Token(t)
    }

    /// A container over `children`, spanning from the first child's start to
    /// the last child's end (an empty range at 0 when there is no child).
    pub fn node(kind: SyntaxKind, children: Vec<SyntaxElement>) -> (r: SyntaxElement)
        ensures
            (r is Node),
            r.spec_kind() == kind,
            r.spec_children() == children@,
            children@.len() == 0 ==> r.spec_span() == (Span { start: 0, end: 0 }),
            children@.len() > 0 ==> r.spec_span() == (Span {
                start: children@[0].spec_span().start,
                end: children@.last().spec_span().end,
            }),
    {
        let n = children.len();
        let span = if n == 0 {
            Span::new(0, 0)
        } else {
            Span::new(children[0].span().start, children[n - 1].span().end)
        };
        SyntaxElement::Node(Node::new(kind, children, span))
    }

    pub fn kind(&self) -> (r: &SyntaxKind)
        ensures
            *r == self.spec_kind(),
    {
        match self {
            SyntaxElement::Token(token) => &token.kind,
            SyntaxElement::Node(node) => &node.kind,
        }
    }

    /// A leaf's own text; a container has none.
    pub fn text(&self) -> (r: &str)
        ensures
            self is Token ==> r@ == self->Token_0.text@,
            self is Node ==> r@ == Seq::<char>::empty(),
    {
        match self {
            SyntaxElement::Token(token) => token.text.as_str(),
            SyntaxElement::Node(_) => {
                proof {
                    reveal_strlit("");
                }
                ""
            },
        }
    }

    pub fn children(&self) -> (r: &[SyntaxElement])
        ensures
            r@ == self.spec_children(),
    {
        match self {
            SyntaxElement::Token(_) => &[],
            SyntaxElement::Node(node) => node.children.as_slice(),
        }
    }

    pub fn span(&self) -> (r: Span)
        ensures
            r == self.spec_span(),
    {
        match self {
            SyntaxElement::Token(t) => t.span,
            SyntaxElement::Node(node) => node.span,
        }
    }

    fn push_content(&self, out: &mut Vec<char>)
        ensures
            final(out)@ == old(out)@ + content(*self),
        decreases self,
    {
        match self {
            SyntaxElement::Token(t) => {
                let cs = chars_of(t.text.as_str());
                let mut i: usize = 0;
                while i < cs.len()
                    invariant
                        i <= cs@.len(),
                        cs@ == t.text@,
                        out@ == old(out)@ + cs@.subrange(0, i as int),
                    decreases cs@.len() - i,
                {
                    out.push(cs[i]);
                    i = i + 1;
                    assert(out@ =~= old(out)@ + cs@.subrange(0, i as int));
                }
                assert(cs@.subrange(0, i as int) =~= cs@);
            },
            SyntaxElement::Node(node) => {
                let mut i: usize = 0;
                while i < node.children.len()
                    invariant
                        i <= node.children@.len(),
                        *self == SyntaxElement::Node(*node),
                        out@ == old(out)@ + contents_upto(node.children@, i as int),
                    decreases node.children@.len() - i,
                {
                    proof {
                        vstd::std_specs::vec::axiom_vec_index_decreases(node.children, i as int);
                        assert(decreases_to!(*self => self->Node_0));
                        assert(decreases_to!(self->Node_0 => self->Node_0.children));
                    }
                    node.children[i].push_content(out);
                    i = i + 1;
                    assert(out@ =~= old(out)@ + contents_upto(node.children@, i as int));
                }
            },
        }
    }

    /// The source text this element covers.
    pub fn content(&self) -> (r: String)
        ensures
            r@ == content(*self),
    {
        let mut out: Vec<char> = Vec::new();
        self.push_content(&mut out);
        assert(out@ =~= content(*self));
        string_of(out)
    }
}


/// The contents of two element sequences, joined, are the contents of their join.
pub proof fn lemma_contents_append(a: Seq<SyntaxElement>, b: Seq<SyntaxElement>)
    ensures
        contents(a + b) == contents(a) + contents(b),
    decreases b.len(),
{
    if b.len() == 0 {
        assert(a + b =~= a);
        assert(contents(b) =~= Seq::<char>::empty());
        assert(contents(a) + contents(b) =~= contents(a));
    } else {
        let b0 = b.drop_last();
        lemma_contents_append(a, b0);
        assert((a + b).drop_last() =~= a + b0);
        lemma_contents_upto_prefix(a + b, (a + b).len() - 1);
        lemma_contents_upto_prefix(b, b.len() - 1);
        assert((a + b)[(a + b).len() - 1] == b[b.len() - 1]);
    }
}

/// The contents of the first `k` elements depend on those elements alone.
pub proof fn lemma_contents_upto_prefix(es: Seq<SyntaxElement>, k: int)
    requires
        0 <= k <= es.len(),
    ensures
        contents_upto(es, k) == contents(es.subrange(0, k)),
    decreases k,
{
    let sub = es.subrange(0, k);
    assert forall|j: int| 0 <= j <= k implies contents_upto(es, j) == contents_upto(sub, j) by {
        lemma_contents_upto_agree(es, sub, j);
    }
}

proof fn lemma_contents_upto_agree(a: Seq<SyntaxElement>, b: Seq<SyntaxElement>, j: int)
    requires
        0 <= j <= a.len(),
        j <= b.len(),
        forall|i: int| 0 <= i < j ==> a[i] == b[i],
    ensures
        contents_upto(a, j) == contents_upto(b, j),
    decreases j,
{
    if j > 0 {
        lemma_contents_upto_agree(a, b, j - 1);
    }
}


pub proof fn lemma_contents_single(e: SyntaxElement)
    ensures
        contents(seq![e]) == content(e),
{
    let s = seq![e];
    assert(contents_upto(s, 0) =~= Seq::<char>::empty());
    assert(contents_upto(s, 1) =~= content(e));
}


/// The source text that the elements of `es` cover, joined.
pub fn contents_string(es: &Vec<SyntaxElement>) -> (r: String)
    ensures
        r@ == contents(es@),
{
    let mut out: Vec<char> = Vec::new();
    let mut i: usize = 0;
    while i < es.len()
        invariant
            i <= es@.len(),
            out@ == contents_upto(es@, i as int),
        decreases es@.len() - i,
    {
        es[i].push_content(&mut out);
        i = i + 1;
        assert(out@ =~= contents_upto(es@, i as int));
    }
    string_of(out)
}


/// The leaves of an element, in source order.
pub open spec fn leaves(e: SyntaxElement) -> Seq<Token>
    decreases e, 0int,
{
    match e {
        SyntaxElement::Token(t) => seq![t],
        SyntaxElement::Node(n) => leaves_upto(n.children@, n.children@.len() as int),
    }
}

/// The leaves of the first `k` elements of `es`, in order.
pub open spec fn leaves_upto(es: Seq<SyntaxElement>, k: int) -> Seq<Token>
    decreases es, k,
{
    if k <= 0 || k > es.len() {
        Seq::empty()
    } else {
        leaves_upto(es, k - 1) + leaves(es[k - 1])
    }
}

pub open spec fn leaves_of(es: Seq<SyntaxElement>) -> Seq<Token> {
    leaves_upto(es, es.len() as int)
}

proof fn lemma_leaves_upto_agree(a: Seq<SyntaxElement>, b: Seq<SyntaxElement>, j: int)
    requires
        0 <= j <= a.len(),
        j <= b.len(),
        forall|i: int| 0 <= i < j ==> a[i] == b[i],
    ensures
        leaves_upto(a, j) == leaves_upto(b, j),
    decreases j,
{
    if j > 0 {
        lemma_leaves_upto_agree(a, b, j - 1);
    }
}

/// The leaves of two element sequences, joined, are the leaves of their join.
pub proof fn lemma_leaves_append(a: Seq<SyntaxElement>, b: Seq<SyntaxElement>)
    ensures
        leaves_of(a + b) == leaves_of(a) + leaves_of(b),
    decreases b.len(),
{
    if b.len() == 0 {
        assert(a + b =~= a);
        assert(leaves_of(a) + leaves_of(b) =~= leaves_of(a));
    } else {
        let b0 = b.drop_last();
        lemma_leaves_append(a, b0);
        assert((a + b).drop_last() =~= a + b0);
        let ab = a + b;
        lemma_leaves_upto_agree(ab, a + b0, ab.len() - 1);
        lemma_leaves_upto_agree(b, b0, b.len() - 1);
        assert(ab[ab.len() - 1] == b[b.len() - 1]);
        assert(leaves_of(ab) =~= leaves_of(a) + leaves_of(b));
    }
}

pub proof fn lemma_leaves_single(e: SyntaxElement)
    ensures
        leaves_of(seq![e]) == leaves(e),
{
    let s = seq![e];
    assert(leaves_upto(s, 0) =~= Seq::<Token>::empty());
    assert(leaves_upto(s, 1) =~= leaves(e));
}


/// The opening and closing delimiter kinds of a delimited container kind.
pub open spec fn delimiters_of(kind: SyntaxKind) -> Option<(SyntaxKind, SyntaxKind)> {
    match kind {
        SyntaxKind::List => Some((SyntaxKind::LParen, SyntaxKind::RParen)),
        SyntaxKind::Sequence => Some((SyntaxKind::LBracket, SyntaxKind::RBracket)),
        SyntaxKind::Table => Some((SyntaxKind::LBrace, SyntaxKind::RBrace)),
        _ => None,
    }
}

pub open spec fn opener_of(kind: SyntaxKind) -> SyntaxKind {
    match delimiters_of(kind) {
        Some((open, _)) => open,
        None => kind,
    }
}

pub open spec fn closer_of(kind: SyntaxKind) -> SyntaxKind {
    match delimiters_of(kind) {
        Some((_, close)) => close,
        None => kind,
    }
}

pub open spec fn is_token_of(e: SyntaxElement, kind: SyntaxKind) -> bool {
    e is Token && e->Token_0.kind == kind
}

pub open spec fn is_container_kind(kind: SyntaxKind) -> bool {
    kind == SyntaxKind::Root || kind == SyntaxKind::List || kind == SyntaxKind::Sequence || kind
        == SyntaxKind::Table || kind == SyntaxKind::Pair || kind == SyntaxKind::Prefixed
}

pub open spec fn is_trivia_elem(e: SyntaxElement) -> bool {
    e.spec_kind().spec_is_trivia()
}

/// A delimiter or prefix token: one that only stands at the edge of its container.
pub open spec fn is_structural(e: SyntaxElement) -> bool {
    e is Token && (e.spec_kind() == SyntaxKind::LParen || e.spec_kind() == SyntaxKind::RParen
        || e.spec_kind() == SyntaxKind::LBracket || e.spec_kind() == SyntaxKind::RBracket
        || e.spec_kind() == SyntaxKind::LBrace || e.spec_kind() == SyntaxKind::RBrace
        || e.spec_kind() == SyntaxKind::Prefix)
}

pub open spec fn is_root_node(e: SyntaxElement) -> bool {
    e is Node && e.spec_kind() == SyntaxKind::Root
}

pub open spec fn is_pair_node(e: SyntaxElement) -> bool {
    e is Node && e.spec_kind() == SyntaxKind::Pair
}

/// Two elements that are not trivia, with only trivia between them.
pub open spec fn two_ends(es: Seq<SyntaxElement>) -> bool {
    &&& es.len() >= 2
    &&& !is_trivia_elem(es[0])
    &&& !is_trivia_elem(es.last())
    &&& forall|i: int| 0 < i < es.len() - 1 ==> #[trigger] is_trivia_elem(es[i])
}

/// The children that a container of `kind` may have: any container but the
/// root starts and ends with an element that is not trivia; a delimited
/// container starts with its opening and ends with its closing delimiter; a
/// table holds pairs and trivia between them; a pair is two elements with
/// only trivia between; a prefixed expression is a prefix and an element.
/// Delimiter and prefix tokens stand nowhere else; a root is no child, and a
/// pair is a child of a table only.
pub open spec fn children_shape(kind: SyntaxKind, es: Seq<SyntaxElement>) -> bool {
    &&& kind != SyntaxKind::Root ==> es.len() >= 1 && !is_trivia_elem(es[0]) && !is_trivia_elem(
        es.last(),
    )
    &&& delimiters_of(kind) is Some ==> es.len() >= 2 && is_token_of(es[0], opener_of(kind))
        && is_token_of(es.last(), closer_of(kind))
    &&& kind == SyntaxKind::Table ==> forall|i: int|
        0 < i < es.len() - 1 ==> #[trigger] is_trivia_elem(es[i]) || (es[i] is Node
            && es[i].spec_kind() == SyntaxKind::Pair)
    &&& kind == SyntaxKind::Pair ==> two_ends(es)
    &&& kind == SyntaxKind::Prefixed ==> es.len() == 2 && two_ends(es) && is_token_of(
        es[0],
        SyntaxKind::Prefix,
    )
    &&& forall|i: int|
        0 <= i < es.len() && (kind == SyntaxKind::Root || (0 < i < es.len() - 1) || (kind
            == SyntaxKind::Pair) || (kind == SyntaxKind::Prefixed && i > 0)) ==> !#[trigger] is_structural(
            es[i],
        )
    &&& forall|i: int|
        0 <= i < es.len() ==> !#[trigger] is_root_node(es[i]) && (kind != SyntaxKind::Table
            ==> !is_pair_node(es[i]))
}

/// A node has a container kind and the children of its kind.
pub open spec fn shape_ok(e: SyntaxElement) -> bool {
    match e {
        SyntaxElement::Token(_) => true,
        SyntaxElement::Node(n) => is_container_kind(n.kind) && children_shape(n.kind, n.children@),
    }
}

/// Every container in the element has the shape of its kind.
pub open spec fn well_formed(e: SyntaxElement) -> bool
    decreases e, 0int,
{
    shape_ok(e) && match e {
        SyntaxElement::Token(_) => true,
        SyntaxElement::Node(n) => all_well_formed(n.children@, n.children@.len() as int),
    }
}

/// The first `k` elements of `es` are well formed.
pub open spec fn all_well_formed(es: Seq<SyntaxElement>, k: int) -> bool
    decreases es, k,
{
    if k <= 0 || k > es.len() {
        true
    } else {
        all_well_formed(es, k - 1) && well_formed(es[k - 1])
    }
}

pub proof fn lemma_all_well_formed(es: Seq<SyntaxElement>, k: int)
    requires
        0 <= k <= es.len(),
    ensures
        all_well_formed(es, k) <==> forall|i: int| 0 <= i < k ==> #[trigger] well_formed(es[i]),
    decreases k,
{
    if k > 0 {
        lemma_all_well_formed(es, k - 1);
        if all_well_formed(es, k) {
            assert forall|i: int| 0 <= i < k implies #[trigger] well_formed(es[i]) by {
                if i < k - 1 {
                    assert(well_formed(es[i]));
                }
            }
        }
        if forall|i: int| 0 <= i < k ==> #[trigger] well_formed(es[i]) {
            assert(well_formed(es[k - 1]));
            assert(all_well_formed(es, k - 1));
        }
    }
}

/// A container is well formed when it has the shape of its kind and its
/// children are well formed.
pub proof fn lemma_well_formed_node(n: Node)
    requires
        shape_ok(SyntaxElement::Node(n)),
        forall|i: int| 0 <= i < n.children@.len() ==> #[trigger] well_formed(n.children@[i]),
    ensures
        well_formed(SyntaxElement::Node(n)),
{
    lemma_all_well_formed(n.children@, n.children@.len() as int);
}

} // verus!
