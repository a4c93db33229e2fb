//! What the repeating text monitor shows.

use vstd::prelude::*;
use crate::process::SortOrder;

verus! {

/// Selection for the text monitor: one process by id, or every process whose
/// name contains `name`, listed in `sort` order.
pub struct MonitorArgs<'a> {
    pub pid: Option<u32>,
    pub name: Option<&'a str>,
    pub sort: &'a SortOrder,
}

} // verus!
