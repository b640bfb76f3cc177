use vstd::prelude::*;

verus! {

/// Paging of a listing: which page, and how many items per page.
#[derive(Debug, Clone, Copy, PartialEq, Eq, Structural)]
pub struct PaginationQuery {
    pub page: Option<usize>,
    pub per_page: Option<usize>,
}

} // verus!
