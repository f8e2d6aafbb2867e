//! An outline parser: indentation-delimited text becomes a tree of nodes that
//! are addressed by their position, and references between nodes are linked
//! in the same pass that builds the tree, whichever of the two comes first.
//!
//! The nodes live in one table, the [`node::Arena`], and are named by their
//! place in it. [`parser::node`] reads a node and its subtree off a text;
//! what it could not link yet waits in the [`registry::Registry`].
//!
//! - [`tree`]: the mathematical model of the table, and what a lookup returns
//! - [`node`], [`node_content`]: the nodes and the operations on them
//! - [`registry`]: the references that wait for their target
//! - [`lexer`], [`grammar`], [`parser`]: the text format
//! - [`render`]: the diagnostic rendering
//! - [`laws`], [`linking`], [`indentation`], [`readback`]: what is proved of
//!   all trees and all texts
//! - [`scanner`], [`token`], [`head`]: a character cursor and a parser input
//!   that carries its place in the tree

pub mod grammar;
pub mod head;
pub mod indentation;
pub mod laws;
pub mod lexer;
pub mod linking;
pub mod node;
pub mod node_content;
pub mod parser;
pub mod readback;
pub mod registry;
pub mod render;
pub mod scanner;
pub mod token;
pub mod tree;
