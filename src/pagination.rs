use crate::events::{is_finished_event, ExecutionEvent, ResponseWithCursor, Version};
use crate::ids::ExecutionId;
use vstd::prelude::*;

verus! {

/// How many events, and how many responses, one page request asks for.
pub const PAGE: u32 = 500;

/// Delay in milliseconds before the next page of an unfinished execution is asked for.
pub const SLEEP_MILLIS: u32 = 2500;

/// Where the next page of an execution starts: the first version not yet
/// loaded, and the cursor of the last response loaded.
#[derive(Clone, Copy, Debug, PartialEq, Eq, Structural)]
pub struct Cursors {
    pub version_from: u32,
    pub responses_cursor_from: u32,
}

impl Cursors {
    /// The cursors of an execution of which nothing has been loaded.
    pub fn initial() -> (r: Cursors)
        ensures
            r == (Cursors { version_from: 0, responses_cursor_from: 0 }),
    {
        Cursors { version_from: 0, responses_cursor_from: 0 }
    }
}

/// Where the fetching of one execution's log stands.
#[derive(Clone, Copy, Debug, PartialEq, Eq, Structural)]
pub enum FetchState {
    /// A page starting at these cursors is to be asked for.
    Requested(Cursors),
    /// A page is in flight, or the fetch stopped on an error.
    Pending,
    /// The terminal event was seen: nothing more is asked for.
    Finished,
}

/// One request of a page of an execution's events and responses.
#[derive(Debug)]
pub struct PageRequest {
    pub execution_id: ExecutionId,
    pub version_from: u32,
    pub events_length: u32,
    pub responses_cursor_from: u32,
    pub responses_length: u32,
    pub responses_including_cursor: bool,
    pub include_backtrace_id: bool,
}

/// The request of the page that starts at `c`: the first page includes the
/// response at the cursor, later ones start after it.
pub open spec fn request_for(id: Seq<char>, c: Cursors, r: PageRequest) -> bool {
    &&& r.execution_id@ == id
    &&& r.version_from == c.version_from
    &&& r.events_length == PAGE
    &&& r.responses_cursor_from == c.responses_cursor_from
    &&& r.responses_length == PAGE
    &&& r.responses_including_cursor == (c.responses_cursor_from == 0)
    &&& r.include_backtrace_id
}

/// Builds the request of the page that starts at `cursors`.
pub fn page_request(execution_id: &ExecutionId, cursors: Cursors) -> (r: PageRequest)
    ensures
        request_for(execution_id@, cursors, r),
{
    PageRequest {
        execution_id: execution_id.clone(),
        version_from: cursors.version_from,
        events_length: PAGE,
        responses_cursor_from: cursors.responses_cursor_from,
        responses_length: PAGE,
        responses_including_cursor: cursors.responses_cursor_from == 0,
        include_backtrace_id: true,
    }
}

/// Whether a page ends the log: its last event is `Finished`.
pub open spec fn page_finishes(events: Seq<ExecutionEvent>) -> bool {
    events.len() > 0 && is_finished_event(events.last())
}

/// The version after `v`, kept at the largest version where there is none.
pub open spec fn version_after(v: Version) -> u32 {
    if v < u32::MAX {
        (v + 1) as u32
    } else {
        u32::MAX
    }
}

/// The cursors after a page: past its last event and at its last response,
/// each falling back to `prev` where the page brought nothing.
pub open spec fn cursors_after(
    prev: Cursors,
    events: Seq<ExecutionEvent>,
    responses: Seq<ResponseWithCursor>,
) -> Cursors {
    Cursors {
        version_from: if events.len() > 0 {
            version_after(events.last().version)
        } else {
            prev.version_from
        },
        responses_cursor_from: if responses.len() > 0 {
            responses.last().cursor
        } else {
            prev.responses_cursor_from
        },
    }
}

/// Whether a page ends the log.
pub fn is_finishing_page(events: &Vec<ExecutionEvent>) -> (r: bool)
    ensures
        r == page_finishes(events@),
{
    if events.len() == 0 {
        false
    } else {
        events[events.len() - 1].is_finished()
    }
}

/// The cursors from which the page after this one starts.
pub fn next_cursors(
    prev: Cursors,
    events: &Vec<ExecutionEvent>,
    responses: &Vec<ResponseWithCursor>,
) -> (r: Cursors)
    ensures
        r == cursors_after(prev, events@, responses@),
{
    let version_from = if events.len() == 0 {
        prev.version_from
    } else {
        let v = events[events.len() - 1].version;
        if v < u32::MAX {
            v + 1
        } else {
            u32::MAX
        }
    };
    let responses_cursor_from = if responses.len() == 0 {
        prev.responses_cursor_from
    } else {
        responses[responses.len() - 1].cursor
    };
    Cursors { version_from, responses_cursor_from }
}

} // verus!
