use pretty::RcDoc;
use vstd::prelude::*;

verus! {

#[verifier::external_type_specification]
#[verifier::external_body]
#[verifier::reject_recursive_types(A)]
pub struct ExRcDoc<'a, A>(RcDoc<'a, A>);

/// The document algebra, in the forms the renderer stores.
pub enum Layout {
    /// The empty document.
    Nil,
    /// Literal ASCII text.
    Text(Seq<char>),
    /// Literal text with characters beyond ASCII, stored with its display width.
    Wide(Seq<char>),
    /// A mandatory line break.
    Hardline,
    /// The first document when its group is broken, the second when it is flat.
    FlatAlt(Box<Layout>, Box<Layout>),
    /// One document after the other.
    Append(Box<Layout>, Box<Layout>),
    /// Flat if it fits in the width that is left, broken otherwise.
    Group(Box<Layout>),
    /// Breaks inside are indented by the given amount more.
    Nest(int, Box<Layout>),
    /// Breaks inside are indented to the column where it starts.
    Align(Box<Layout>),
}

/// The document that a value built by the constructors below holds.
pub uninterp spec fn layout_of(d: RcDoc<'static, ()>) -> Layout;

pub open spec fn is_ascii_text(s: Seq<char>) -> bool {
    forall|i: int| 0 <= i < s.len() ==> (#[trigger] s[i] as u32) < 128
}

/// A text document: empty text is stored as the empty document.
pub open spec fn text_layout(s: Seq<char>) -> Layout {
    if s.len() == 0 {
        Layout::Nil
    } else if is_ascii_text(s) {
        Layout::Text(s)
    } else {
        Layout::Wide(s)
    }
}

/// `a` then `b`; the empty document on either side is dropped.
pub open spec fn cat(a: Layout, b: Layout) -> Layout {
    if a is Nil {
        b
    } else if b is Nil {
        a
    } else {
        Layout::Append(Box::new(a), Box::new(b))
    }
}

/// A group around `a`; a group, plain text or the empty document is left as it is.
pub open spec fn grouped(a: Layout) -> Layout {
    if a is Group || a is Text || a is Nil {
        a
    } else {
        Layout::Group(Box::new(a))
    }
}

/// `a` indented by `i` more; the empty document and a zero indent are left as they are.
pub open spec fn nested(i: int, a: Layout) -> Layout {
    if a is Nil || i == 0 {
        a
    } else {
        Layout::Nest(i, Box::new(a))
    }
}

/// `a` with breaks inside indented by `i` from the column where it starts.
pub open spec fn hung(i: int, a: Layout) -> Layout {
    Layout::Align(Box::new(nested(i, a)))
}

/// Relies on `RcDoc::nil`: the empty document.
#[verifier::external_body]
pub fn doc_nil() -> (r: RcDoc<'static, ()>)
    ensures
        layout_of(r) == Layout::Nil,
{
    RcDoc::nil()
}


/// What the renderer prints for a document at a line width: each group flat
/// when it fits in what is left of the line, broken otherwise.
pub uninterp spec fn rendered(d: Layout, width: int) -> Seq<char>;

/// Relies on `RcDoc::text`: a document of the given text; empty text is
/// stored as the empty document, text beyond ASCII with its display width.
/// Line breaks in the text are written as they stand.
#[verifier::external_body]
pub fn doc_text(s: String) -> (r: RcDoc<'static, ()>)
    ensures
        layout_of(r) == text_layout(s@),
{
    RcDoc::text(s)
}

/// Relies on `RcDoc::hardline`: a mandatory line break.
#[verifier::external_body]
pub fn doc_hardline() -> (r: RcDoc<'static, ()>)
    ensures
        layout_of(r) == Layout::Hardline,
{
    RcDoc::hardline()
}

/// Relies on `RcDoc::space`: the text `" "`.
#[verifier::external_body]
pub fn doc_space() -> (r: RcDoc<'static, ()>)
    ensures
        layout_of(r) == Layout::Text(seq![' ']),
{
    RcDoc::space()
}

/// Relies on `RcDoc::line`: a hardline that reads as a space when its group is flat.
#[verifier::external_body]
pub fn doc_line() -> (r: RcDoc<'static, ()>)
    ensures
        layout_of(r) == Layout::FlatAlt(
            Box::new(Layout::Hardline),
            Box::new(Layout::Text(seq![' '])),
        ),
{
    RcDoc::line()
}

/// Relies on `RcDoc::append`: `a`, then `b`, either side dropped when empty.
#[verifier::external_body]
pub fn doc_append(a: RcDoc<'static, ()>, b: RcDoc<'static, ()>) -> (r: RcDoc<'static, ()>)
    ensures
        layout_of(r) == cat(layout_of(a), layout_of(b)),
{
    a.append(b)
}

/// Relies on `RcDoc::flat_alt`: `a` when broken, `b` when flat.
#[verifier::external_body]
pub fn doc_flat_alt(a: RcDoc<'static, ()>, b: RcDoc<'static, ()>) -> (r: RcDoc<'static, ()>)
    ensures
        layout_of(r) == Layout::FlatAlt(Box::new(layout_of(a)), Box::new(layout_of(b))),
{
    a.flat_alt(b)
}

/// Relies on `RcDoc::group`: `a` laid out flat if it fits.
#[verifier::external_body]
pub fn doc_group(a: RcDoc<'static, ()>) -> (r: RcDoc<'static, ()>)
    ensures
        layout_of(r) == grouped(layout_of(a)),
{
    a.group()
}

/// Relies on `DocBuilder::hang`, which is `nest` then `align`: `a`, with
/// breaks inside it indented by `indent` from the column where it starts.
#[verifier::external_body]
pub fn doc_hang(a: RcDoc<'static, ()>, indent: isize) -> (r: RcDoc<'static, ()>)
    ensures
        layout_of(r) == hung(indent as int, layout_of(a)),
{
    pretty::DocBuilder(&pretty::RcAllocator, a.into()).hang(indent).into_doc()
}

/// Relies on `Doc::pretty`: the text of the document laid out at `width` columns.
#[verifier::external_body]
pub fn render(d: &RcDoc<'static, ()>, width: usize) -> (r: String)
    ensures
        r@ == rendered(layout_of(*d), width as int),
{
    d.pretty(width).to_string()
}

} // verus!
