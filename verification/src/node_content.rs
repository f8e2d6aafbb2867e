//! The elements that make up the content of a node.

use vstd::prelude::*;

verus! {

/// A link to another node: `None` until the target exists, then its handle.
#[derive(Debug, Clone)]
pub struct Reference {
    pub link: Option<usize>,
}

/// Free text that points at another node.
#[derive(Debug, Clone)]
pub struct Blob {
    pub text: String,
    pub link: Option<usize>,
}

/// One element of a node's content, in document order.
#[derive(Debug, Clone)]
pub enum NodeContent {
    Text(String),
    Reference(Reference),
    Blob(Blob),
}

/// Which of the two linking elements a pending resolution is waiting to rewrite.
#[derive(Debug, Clone, Copy, PartialEq, Eq, Structural)]
pub enum ContentKind {
    Reference,
    Blob,
}

/// The mathematical value of a [`NodeContent`].
pub enum ContentView {
    Text(Seq<char>),
    Reference(Option<usize>),
    Blob(Seq<char>, Option<usize>),
}

impl ContentView {
    /// The kind of a linking element; `None` for plain text.
    pub open spec fn kind(self) -> Option<ContentKind> {
        match self {
            ContentView::Text(_) => None,
            ContentView::Reference(_) => Some(ContentKind::Reference),
            ContentView::Blob(_, _) => Some(ContentKind::Blob),
        }
    }

    /// The link of a linking element; `None` for plain text and for an unresolved link.
    pub open spec fn link(self) -> Option<usize> {
        match self {
            ContentView::Text(_) => None,
            ContentView::Reference(l) => l,
            ContentView::Blob(_, l) => l,
        }
    }

    /// The same element with its link replaced; text is left as it is.
    pub open spec fn with_link(self, link: Option<usize>) -> ContentView {
        match self {
            ContentView::Text(t) => ContentView::Text(t),
            ContentView::Reference(_) => ContentView::Reference(link),
            ContentView::Blob(t, _) => ContentView::Blob(t, link),
        }
    }
}

impl View for NodeContent {
    type V = ContentView;

    open spec fn view(&self) -> ContentView {
        match *self {
            NodeContent::Text(t) => ContentView::Text(t@),
            NodeContent::Reference(r) => ContentView::Reference(r.link),
            NodeContent::Blob(b) => ContentView::Blob(b.text@, b.link),
        }
    }
}

impl Blob {
    /// A blob with this text and this link.
    pub fn new(text: String, link: Option<usize>) -> (blob: Blob)
        ensures
            blob.text == text,
            blob.link == link,
    {
        Blob { text, link }
    }
}

impl Reference {
    /// A reference with this link.
    pub fn new(link: Option<usize>) -> (reference: Reference)
        ensures
            reference.link == link,
    {
        Reference { link }
    }
}

impl NodeContent {
    /// The kind of a linking element; `None` for plain text.
    pub fn kind(&self) -> (k: Option<ContentKind>)
        ensures
            k == self@.kind(),
    {
        match self {
            NodeContent::Text(_) => None,
            NodeContent::Reference(_) => Some(ContentKind::Reference),
            NodeContent::Blob(_) => Some(ContentKind::Blob),
        }
    }

    /// The node this element points at, if it has been resolved.
    pub fn link(&self) -> (l: Option<usize>)
        ensures
            l == self@.link(),
    {
        match self {
            NodeContent::Text(_) => None,
            NodeContent::Reference(r) => r.link,
            NodeContent::Blob(b) => b.link,
        }
    }
}

} // verus!
