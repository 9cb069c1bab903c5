use vstd::prelude::*;

verus! {

/// A document tree: text with break points, indentation, groups and annotations.
pub enum Doc<A> {
    /// The empty document.
    Nil,
    /// The left document followed by the right one.
    Append(std::rc::Rc<Doc<A>>, std::rc::Rc<Doc<A>>),
    /// A breakable point: a space when flat, a line break when broken.
    Space,
    /// A line break in every mode.
    Newline,
    /// Literal text that holds no line break.
    Text(String),
    /// The first document in break mode, the second one in flat mode.
    FlatAlt(std::rc::Rc<Doc<A>>, std::rc::Rc<Doc<A>>),
    /// The inner document with its line breaks indented by the offset more.
    Nest(usize, std::rc::Rc<Doc<A>>),
    /// A span laid out either wholly flat or wholly broken.
    Group(std::rc::Rc<Doc<A>>),
    /// The inner document, with the annotation active around it.
    Annotated(A, std::rc::Rc<Doc<A>>),
    /// The first document where it fits, else the second one.
    Union(std::rc::Rc<Doc<A>>, std::rc::Rc<Doc<A>>),
}

/// The bytes that a text is written as.
pub open spec fn text_bytes(s: Seq<char>) -> Seq<u8> {
    vstd::utf8::encode_utf8(s)
}

/// Number of nodes of a document.
pub open spec fn size<A>(d: Doc<A>) -> nat
    decreases d,
{
    match d {
        Doc::Append(l, r) => 1 + size(*l) + size(*r),
        Doc::FlatAlt(b, f) => 1 + size(*b) + size(*f),
        Doc::Union(l, r) => 1 + size(*l) + size(*r),
        Doc::Nest(_, i) => 1 + size(*i),
        Doc::Group(i) => 1 + size(*i),
        Doc::Annotated(_, i) => 1 + size(*i),
        _ => 1,
    }
}

/// Bytes of text, spaces and indentation offsets along the document, counting
/// only the larger of two alternatives: a bound on the columns that laying it
/// out can reach.
pub open spec fn weight<A>(d: Doc<A>) -> nat
    decreases d,
{
    match d {
        Doc::Append(l, r) => weight(*l) + weight(*r),
        Doc::FlatAlt(b, f) => if weight(*b) >= weight(*f) { weight(*b) } else { weight(*f) },
        Doc::Union(l, r) => if weight(*l) >= weight(*r) { weight(*l) } else { weight(*r) },
        Doc::Nest(off, i) => off as nat + weight(*i),
        Doc::Group(i) => weight(*i),
        Doc::Annotated(_, i) => weight(*i),
        Doc::Text(s) => text_bytes(s@).len(),
        Doc::Space => 1,
        _ => 0,
    }
}

} // verus!
