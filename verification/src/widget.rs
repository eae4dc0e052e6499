//! The modes of the editor and the choices its commands take.
use crate::document::{EdgeId, NodeId};
use vstd::prelude::*;

verus! {

/// A direction along a sequence of siblings.
#[derive(Clone, Copy, Debug, PartialEq, Eq, Structural)]
pub enum Dir {
    Next,
    Prev,
}

/// What a search result does to the selection.
#[derive(Clone, Copy, Debug, PartialEq, Eq, Structural)]
pub enum SearchTarget {
    /// The result becomes the whole selection.
    Replace,
    /// The result becomes the primary node, the current primary the anchor.
    Extend,
}

/// What the editor is doing.
#[derive(Clone, Debug, PartialEq)]
pub enum Mode {
    Layers,
    EditNode(NodeId),
    EditEdge(EdgeId),
    Search(SearchTarget),
}

pub enum ModeView {
    Layers,
    EditNode(Seq<char>),
    EditEdge(Seq<char>),
    Search(SearchTarget),
}

impl View for Mode {
    type V = ModeView;

    open spec fn view(&self) -> ModeView {
        match self {
            Mode::Layers => ModeView::Layers,
            Mode::EditNode(n) => ModeView::EditNode(n@),
            Mode::EditEdge(e) => ModeView::EditEdge(e@),
            Mode::Search(t) => ModeView::Search(*t),
        }
    }
}

} // verus!
