//! The integer side of a feature ranking.

use vstd::prelude::*;

verus! {

/// How many features a ranking over `header_count` features selects, one of
/// them being the class: all the others, or `limit` of them when that is
/// fewer (so none for a limit of zero).
pub open spec fn spec_selection_size(limit: Option<usize>, header_count: nat) -> nat {
    let most = (header_count - 1) as nat;
    match limit {
        Some(n) => if n < most {
            n as nat
        } else {
            most
        },
        None => most,
    }
}

/// The number of features a ranking selects (see `spec_selection_size`).
pub fn selection_size(limit: Option<usize>, header_count: usize) -> (res: usize)
    requires
        header_count >= 1,
    ensures
        res == spec_selection_size(limit, header_count as nat),
        res <= header_count - 1,
        limit is None ==> res == header_count - 1,
        limit matches Some(n) ==> res <= n && (res == n || res == header_count - 1),
{
    let most = header_count - 1;
    match limit {
        Some(n) => if n < most {
            n
        } else {
            most
        },
        None => most,
    }
}

/// A ranking never selects more features than there are besides the class:
/// without a limit it selects all of them, and with a limit it selects as
/// many as the limit allows, the smaller of the limit and that number.
pub proof fn lemma_selection_size(limit: Option<usize>, header_count: nat)
    requires
        header_count >= 1,
    ensures
        spec_selection_size(limit, header_count) <= header_count - 1,
        limit is None ==> spec_selection_size(limit, header_count) == header_count - 1,
        limit matches Some(n) ==> spec_selection_size(limit, header_count) <= n,
        limit matches Some(n) ==> (spec_selection_size(limit, header_count) == n
            || spec_selection_size(limit, header_count) == header_count - 1),
{
}

} // verus!
