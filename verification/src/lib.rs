//! Turns marked documentation comments inside a function body into named,
//! labelled scopes that are entered before the statement they document and
//! left after it.
//!
//! The engine works on a small uniform syntax tree ([`tree::Node`]). A front
//! end builds that tree from source code and renders the rewritten tree back;
//! everything in between is decided here:
//!
//! * [`args`] reads the text of an annotation: marker, label and fields;
//! * [`attr`] finds the annotation of a statement;
//! * [`scope`] makes the scope that an annotation asks for;
//! * [`awaits`] wraps the suspension points of an annotated statement;
//! * [`block`] rewrites the statements of every block, [`block::fold_block`]
//!   being the way in;
//! * [`guard`] is the guard that the rewritten code holds at run time;
//! * [`laws`] proves what rewriting keeps and what it adds;
//! * [`text`] holds white space, trimming and prefixes.

pub mod args;
pub mod attr;
pub mod awaits;
pub mod block;
pub mod guard;
pub mod laws;
pub mod scope;
pub mod text;
pub mod tree;
