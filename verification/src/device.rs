//! The search for a device of the graphics hardware.

use crate::text::{begins, starts_with};
use vstd::prelude::*;

verus! {

/// How far the search is.
#[derive(Debug, Clone, Copy, PartialEq, Eq, Structural)]
pub enum Search {
    /// Try the candidate with this number.
    Try(usize),
    /// Use the candidate with this number.
    Use(usize),
    /// There is no further candidate.
    Exhausted,
}

/// The search from the candidate with the given number on.
pub open spec fn search_from(count: usize, at: int) -> Search {
    if at < count {
        Search::Try(at as usize)
    } else {
        Search::Exhausted
    }
}

/// How far the search is after a try.
pub open spec fn searched(count: usize, search: Search, ready: bool) -> Search {
    match search {
        Search::Try(at) => if ready {
            Search::Use(at)
        } else {
            search_from(count, at + 1)
        },
        _ => search,
    }
}

/// How far the search is after some tries.
pub open spec fn search_after(count: usize, tries: Seq<bool>) -> Search
    decreases tries.len(),
{
    if tries.len() == 0 {
        search_from(count, 0)
    } else {
        searched(count, search_after(count, tries.drop_last()), tries.last())
    }
}

/// The start of the search among so many candidates.
pub fn start_search(count: usize) -> (search: Search)
    ensures
        search == search_from(count, 0),
{
    if 0 < count {
        Search::Try(0)
    } else {
        Search::Exhausted
    }
}

/// How far the search is after a try.
pub fn advance_search(count: usize, search: Search, ready: bool) -> (next: Search)
    requires
        search matches Search::Try(at) ==> at < count,
    ensures
        next == searched(count, search, ready),
        next matches Search::Try(at) ==> at < count,
{
    match search {
        Search::Try(at) => if ready {
            Search::Use(at)
        } else if at + 1 < count {
            Search::Try(at + 1)
        } else {
            Search::Exhausted
        },
        _ => search,
    }
}

/// The candidates are tried in order, and the first one that is ready is used.
pub proof fn law_first_ready(count: usize, tries: Seq<bool>)
    ensures
        match search_after(count, tries) {
            Search::Try(at) => at < count && tries.len() == at && forall|i: int|
                0 <= i < at ==> !(#[trigger] tries[i]),
            Search::Use(at) => at < count && at < tries.len() && tries[at as int] && forall|i: int|
                0 <= i < at ==> !(#[trigger] tries[i]),
            Search::Exhausted => count <= tries.len() && forall|i: int|
                0 <= i < count ==> !(#[trigger] tries[i]),
        },
    decreases tries.len(),
{
    if tries.len() > 0 {
        let before = tries.drop_last();
        law_first_ready(count, before);
        assert(forall|i: int| 0 <= i < before.len() ==> before[i] == tries[i]);
    }
}

/// Whether an entry of the device directory is a render node.
pub fn is_render_node(name: Option<&str>) -> (found: bool)
    ensures
        found == (name matches Some(name) && begins(name@, "renderD"@)),
{
    match name {
        Some(name) => starts_with(name, "renderD"),
        None => false,
    }
}

/// Whether a device could be opened.
pub fn device_ready(result: i32, missing: bool) -> (ready: bool)
    ensures
        ready == (result >= 0 && !missing),
{
    result >= 0 && !missing
}

/// What is said of a device that could not be opened.
pub fn candidate_error(path: &str, error: &str) -> (message: String)
    ensures
        message@ == path@ + ": "@ + error@,
{
    String::from_str(path).concat(": ").concat(error)
}

/// What is said when no device could be opened, with the error of the last one that was tried.
pub fn device_error(last: Option<&str>) -> (message: String)
    ensures
        message@ == "initialising VAAPI device failed"@ + (match last {
            Some(last) => ": "@ + last@,
            None => Seq::empty(),
        }),
{
    let mut message = String::from_str("initialising VAAPI device failed");
    match last {
        Some(last) => {
            message.append(": ");
            message.append(last);
        },
        None => {},
    }
    proof {
        assert(message@ =~= "initialising VAAPI device failed"@ + (match last {
            Some(last) => ": "@ + last@,
            None => Seq::empty(),
        }));
    }
    message
}

} // verus!
