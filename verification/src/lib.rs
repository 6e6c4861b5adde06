//! rwr: structural search and rewrite for Ruby programs.

pub mod cli;
pub mod compare;
pub mod diff;
pub mod engine;
pub mod erb;
pub mod hierarchy;
pub mod load;
pub mod matcher;
pub mod metavar;
pub mod prefilter;
pub mod prepare;
pub mod profile;
pub mod residue;
pub mod ruby;
pub mod rewrite;
pub mod rule;
pub mod scan;
pub mod sarif;
pub mod schema;
pub mod source;
pub mod structure;
pub mod text;
pub mod tree;
pub mod verdict;

use vstd::prelude::*;

verus! {

} // verus!
