//! An issue tracker's core: a query engine that filters, sorts and projects
//! issue records, and a relationship subsystem that keeps links between
//! issues consistent on both sides.
pub mod fields;
pub mod link;
pub mod model;
pub mod parse;
pub mod query;
pub mod relmap;
pub mod render;
pub mod text;
pub mod update;

pub use crate::link::link;
pub use crate::query::list;

use vstd::prelude::*;

verus! {

/// The value of a command, with messages for the user.
pub struct CmdResult<T> {
    pub value: T,
    pub infos: Vec<String>,
}

} // verus!
