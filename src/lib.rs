//! A whitespace formatting engine over a parsed syntax tree, with two small
//! companions.
//!
//! An [`edit_tree::EditTree`] mirrors a syntax tree with [`block::Block`]s that
//! carry spacing and indentation records. [`spacing`] writes the rules'
//! decisions into those records, and `apply_edits` renders the tokens back
//! into text with the one separator that wins at each boundary.
//!
//! [`lang_item`] collects the targets of language items from a crate's
//! modules and looks them up through its dependencies; [`metrics`] keeps build
//! measurements and writes them out with the [`json`] writer.

pub mod syntax;
pub mod whitespace;
pub mod block;
pub mod text;
pub mod edit_tree;
pub mod spacing;
pub mod json;
pub mod metrics;
pub mod lang_item;
