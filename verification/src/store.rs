//! How issue records are keyed in the document store.

use vstd::prelude::*;

verus! {

/// The id of the document that records the issue filed for a tag:
/// `{owner}_{repo}_{hash}`.
pub fn issue_doc_id(owner: &str, repo: &str, hash: &str) -> (r: String)
    ensures
        r@ == owner@ + "_"@ + repo@ + "_"@ + hash@,
{
    let mut id = String::new();
    id.append(owner);
    id.append("_");
    id.append(repo);
    id.append("_");
    id.append(hash);
    id
}

} // verus!
