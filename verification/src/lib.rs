//! A page store for a tree of HTML pages, each carrying a structured
//! document in a hidden element: revisioned saves with optimistic
//! concurrency, child-page creation, and whole-subtree moves that rewrite
//! every affected link.  Storage is an in-memory map of file texts; a
//! caller that serves real files mirrors it onto disk around each
//! operation.

use vstd::prelude::*;

pub mod codec;
pub mod doc;
pub mod embed;
pub mod errors;
pub mod jsontext;
pub mod link;
pub mod mover;
pub mod ops;
pub mod page;
pub mod rewrite;
pub mod store;
pub mod text;

verus! {

/// Prepares shared state before the first request is served.  The storage
/// model keeps all state in the store handed to each operation, so there
/// is nothing to set up; the hook stays for callers that run it once at
/// startup.
pub fn system_ini() {
}

/// Joins the storage root and a storage-relative page path into the
/// path of the canonical file that holds the page.
pub fn file_path(stor_root: &str, page_path: &str) -> (r: String)
    ensures
        r@ == stor_root@ + page_path@,
{
    let mut r = String::from_str(stor_root);
    r.append(page_path);
    r
}

} // verus!
