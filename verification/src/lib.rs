//! Core model of a layered directed-graph editor: the document, its undo
//! history and selection, the editing commands, the ranking and nesting of
//! nodes for layout, and the decisions of the document server.
pub mod ancestry;
pub mod commands;
pub mod deletions;
pub mod document;
pub mod editor;
pub mod exits;
pub mod ids;
pub mod keys;
pub mod layout;
pub mod nesting;
pub mod panel;
pub mod paths;
pub mod rank;
pub mod render;
pub mod search;
pub mod selection;
pub mod server;
pub mod undo;
pub mod widget;
