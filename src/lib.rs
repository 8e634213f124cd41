use vstd::prelude::*;

pub mod error;
pub mod index_uid;
pub mod registry;
pub mod resolver;
pub mod store;

verus! {

/// A database location counts as empty when nothing exists there, when it
/// is a directory without entries, or when its entries cannot be listed.
pub open spec fn empty_db(present: bool, entry_count: Option<usize>) -> bool {
    !present || entry_count == Some(0usize) || entry_count.is_none()
}

/// Whether a database location holds no data.
pub fn is_empty_db(present: bool, entry_count: Option<usize>) -> (r: bool)
    ensures
        r == empty_db(present, entry_count),
{
    match entry_count {
        Some(n) => !present || n == 0,
        None => true,
    }
}

} // verus!
