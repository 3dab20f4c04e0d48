//! The link targets of a page of every kind: those that name embedded files
//! are kept beside those that name pages.

use crate::web_data_processing::{link_targets, targets_in};
use vstd::prelude::*;

verus! {

/// Every link target of the page text `haystack`, in order of occurrence.
pub fn links_helper(haystack: &str) -> (targets: Vec<String>)
    ensures
        targets.deep_view() == targets_in(haystack@),
{
    link_targets(haystack)
}

} // verus!
