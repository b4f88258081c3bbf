use vstd::prelude::*;

pub mod builder;
pub mod catalog;
pub mod digest;
pub mod domain;
pub mod eval;
pub mod frontmatter;
pub mod hydrate;
pub mod index;
pub mod integrity;
pub mod json;
pub mod migrate;
pub mod resolve;
pub mod routing;
pub mod security;
pub mod snapshot;
pub mod strset;
pub mod sync;
pub mod text;
pub mod usage;

verus! {

} // verus!
