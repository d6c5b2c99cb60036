use crate::events::{
    awaited_join_set, finished_child, requested_child, responses_on, EventKind, ExecutionEvent,
    JoinSetResponseEvent, Version,
};
use crate::ids::{ExecutionId, JoinSetId, JoinSetKind};
use crate::store::EventStore;
use vstd::prelude::*;

verus! {

/// How many `JoinNext`/`JoinNextTry` events of `events` wait on join set `j`.
pub open spec fn join_nexts_on(events: Seq<ExecutionEvent>, j: (JoinSetKind, Seq<char>)) -> nat
    decreases events.len(),
{
    if events.len() == 0 {
        0
    } else {
        join_nexts_on(events.drop_last(), j) + if awaited_join_set(events.last()) == Some(j) {
            1nat
        } else {
            0nat
        }
    }
}

/// The pairing of waits with responses: the k-th `JoinNext`/`JoinNextTry` on a
/// join set gets the k-th response recorded for that join set, if it arrived.
/// Entries are (version of the wait, response), in the order of the events.
pub open spec fn join_matches(events: Seq<ExecutionEvent>, rs: Seq<JoinSetResponseEvent>) -> Seq<
    (Version, JoinSetResponseEvent),
>
    decreases events.len(),
{
    if events.len() == 0 {
        seq![]
    } else {
        let prev = join_matches(events.drop_last(), rs);
        let e = events.last();
        match awaited_join_set(e) {
            Some(j) => {
                let k = join_nexts_on(events.drop_last(), j);
                if k < responses_on(rs, j).len() {
                    prev.push((e.version, responses_on(rs, j)[k as int]))
                } else {
                    prev
                }
            },
            None => prev,
        }
    }
}

/// The response paired with the wait at version `v`, if any.
pub open spec fn match_at(ms: Seq<(Version, JoinSetResponseEvent)>, v: Version) -> Option<
    JoinSetResponseEvent,
>
    decreases ms.len(),
{
    if ms.len() == 0 {
        None
    } else if ms.last().0 == v {
        Some(ms.last().1)
    } else {
        match_at(ms.drop_last(), v)
    }
}

/// Counts the waits on `j` among the first `end` events.
fn count_join_nexts(events: &Vec<ExecutionEvent>, end: usize, j: &JoinSetId) -> (r: usize)
    requires
        end <= events@.len(),
    ensures
        r == join_nexts_on(events@.take(end as int), j@),
{
    let mut count: usize = 0;
    for i in 0..end
        invariant
            end <= events@.len(),
            count == join_nexts_on(events@.take(i as int), j@),
            count <= i,
    {
        proof {
            assert(events@.take(i as int + 1).drop_last() =~= events@.take(i as int));
        }
        match events[i].awaited_join_set() {
            Some(other) => {
                if *other == *j {
                    count = count + 1;
                }
            },
            None => {},
        }
    }
    count
}

/// The `k`-th response recorded on join set `j`, if that many arrived.
fn nth_response<'a>(rs: &'a Vec<JoinSetResponseEvent>, j: &JoinSetId, k: usize) -> (r: Option<
    &'a JoinSetResponseEvent,
>)
    ensures
        match r {
            None => k >= responses_on(rs@, j@).len(),
            Some(x) => k < responses_on(rs@, j@).len() && *x == responses_on(rs@, j@)[k as int],
        },
{
    let mut seen: usize = 0;
    let n = rs.len();
    for i in 0..n
        invariant
            n == rs@.len(),
            seen == responses_on(rs@.take(i as int), j@).len(),
            seen <= k,
            seen <= i,
    {
        proof {
            assert(rs@.take(i as int + 1).drop_last() =~= rs@.take(i as int));
        }
        if rs[i].join_set_id == *j {
            if seen == k {
                proof {
                    lemma_responses_on_prefix(rs@, i as int + 1, j@);
                    assert(rs@.take(i as int + 1).last() == rs@[i as int]);
                    assert(responses_on(rs@.take(i as int + 1), j@) == responses_on(
                        rs@.take(i as int),
                        j@,
                    ).push(rs@[i as int]));
                    assert(responses_on(rs@.take(i as int + 1), j@)[k as int] == rs@[i as int]);
                }
                return Some(&rs[i]);
            }
            seen = seen + 1;
        }
    }
    proof {
        assert(rs@.take(n as int) =~= rs@);
    }
    None
}

/// The responses of a prefix are a prefix of the responses.
proof fn lemma_responses_on_prefix(
    rs: Seq<JoinSetResponseEvent>,
    n: int,
    j: (JoinSetKind, Seq<char>),
)
    requires
        0 <= n <= rs.len(),
    ensures
        responses_on(rs.take(n), j).len() <= responses_on(rs, j).len(),
        forall|k: int|
            0 <= k < responses_on(rs.take(n), j).len() ==> #[trigger] responses_on(rs.take(n), j)[k]
                == responses_on(rs, j)[k],
    decreases rs.len() - n,
{
    if n < rs.len() {
        lemma_responses_on_prefix(rs, n + 1, j);
        assert(rs.take(n + 1).drop_last() =~= rs.take(n));
        assert(rs.take(n + 1).last() == rs[n]);
        let a = responses_on(rs.take(n), j);
        let b = responses_on(rs.take(n + 1), j);
        assert(b == a || b == a.push(rs[n]));
        assert forall|k: int| 0 <= k < a.len() implies #[trigger] a[k] == responses_on(rs, j)[k] by {
            assert(a[k] == b[k]);
        }
    } else {
        assert(rs.take(n) =~= rs);
    }
}

/// Pairs every `JoinNext`/`JoinNextTry` event with the response it consumed:
/// the k-th wait on a join set with the k-th response recorded for it. Waits
/// beyond the responses that arrived get no entry.
pub fn compute_join_next_to_response(
    events: &Vec<ExecutionEvent>,
    responses: &Vec<JoinSetResponseEvent>,
) -> (r: Vec<(Version, JoinSetResponseEvent)>)
    ensures
        r@ == join_matches(events@, responses@),
{
    let mut out: Vec<(Version, JoinSetResponseEvent)> = Vec::new();
    let n = events.len();
    for i in 0..n
        invariant
            n == events@.len(),
            out@ == join_matches(events@.take(i as int), responses@),
    {
        proof {
            assert(events@.take(i as int + 1).drop_last() =~= events@.take(i as int));
            assert(events@.take(i as int + 1).last() == events@[i as int]);
        }
        match events[i].awaited_join_set() {
            Some(j) => {
                let k = count_join_nexts(events, i, j);
                match nth_response(responses, j, k) {
                    Some(resp) => {
                        out.push((events[i].version, resp.clone()));
                    },
                    None => {},
                }
            },
            None => {},
        }
    }
    proof {
        assert(events@.take(n as int) =~= events@);
    }
    out
}

/// The response paired with the wait at `version`, if any.
pub fn response_at_version(ms: &Vec<(Version, JoinSetResponseEvent)>, version: Version) -> (r:
    Option<&JoinSetResponseEvent>)
    ensures
        match r {
            None => match_at(ms@, version) is None,
            Some(x) => match_at(ms@, version) == Some(*x),
        },
{
    let mut i = ms.len();
    proof {
        assert(ms@.take(i as int) =~= ms@);
    }
    while i > 0
        invariant
            i <= ms@.len(),
            match_at(ms@, version) == match_at(ms@.take(i as int), version),
        decreases i,
    {
        proof {
            assert(ms@.take(i as int).drop_last() =~= ms@.take(i as int - 1));
        }
        if ms[i - 1].0 == version {
            return Some(&ms[i - 1].1);
        }
        i = i - 1;
    }
    None
}

/// Whether `e` is a `JoinNext` whose paired response reports that `child` finished.
pub open spec fn closes_child(
    e: ExecutionEvent,
    ms: Seq<(Version, JoinSetResponseEvent)>,
    child: Seq<char>,
) -> bool {
    &&& e.event is JoinNext
    &&& match match_at(ms, e.version) {
        Some(r) => finished_child(r) == Some(child),
        None => false,
    }
}

/// A scan of a parent's log for a child: the version of the request that
/// created it and the version of the `JoinNext` that consumed its result. The
/// scan stops at that `JoinNext`.
pub open spec fn child_bounds(
    events: Seq<ExecutionEvent>,
    ms: Seq<(Version, JoinSetResponseEvent)>,
    child: Seq<char>,
) -> (Option<Version>, Option<Version>)
    decreases events.len(),
{
    if events.len() == 0 {
        (None, None)
    } else {
        let prev = child_bounds(events.drop_last(), ms, child);
        let e = events.last();
        if prev.1 is Some {
            prev
        } else if requested_child(e) == Some(child) {
            (Some(e.version), None)
        } else if closes_child(e, ms, child) {
            (prev.0, Some(e.version))
        } else {
            prev
        }
    }
}

proof fn lemma_child_bounds_stop(
    events: Seq<ExecutionEvent>,
    n: int,
    ms: Seq<(Version, JoinSetResponseEvent)>,
    child: Seq<char>,
)
    requires
        0 <= n <= events.len(),
        child_bounds(events.take(n), ms, child).1 is Some,
    ensures
        child_bounds(events, ms, child) == child_bounds(events.take(n), ms, child),
    decreases events.len() - n,
{
    if n < events.len() {
        assert(events.take(n + 1).drop_last() =~= events.take(n));
        lemma_child_bounds_stop(events, n + 1, ms, child);
    } else {
        assert(events.take(n) =~= events);
    }
}

/// Where a child execution starts and ends in its parent's log: the version
/// of the request that created it, and the version of the `JoinNext` whose
/// paired response reports it finished. Either is `None` when not seen yet.
pub fn execution_bounds(
    parent_events: &Vec<ExecutionEvent>,
    parent_responses: &Vec<JoinSetResponseEvent>,
    child: &ExecutionId,
) -> (r: (Option<Version>, Option<Version>))
    ensures
        r == child_bounds(
            parent_events@,
            join_matches(parent_events@, parent_responses@),
            child@,
        ),
{
    let ms = compute_join_next_to_response(parent_events, parent_responses);
    let mut start: Option<Version> = None;
    let n = parent_events.len();
    for i in 0..n
        invariant
            n == parent_events@.len(),
            ms@ == join_matches(parent_events@, parent_responses@),
            child_bounds(parent_events@.take(i as int), ms@, child@) == (start, None::<Version>),
    {
        proof {
            assert(parent_events@.take(i as int + 1).drop_last() =~= parent_events@.take(i as int));
            assert(parent_events@.take(i as int + 1).last() == parent_events@[i as int]);
        }
        let e = &parent_events[i];
        let is_request = match e.requested_child() {
            Some(c) => *c == *child,
            None => false,
        };
        if is_request {
            start = Some(e.version);
        } else {
            match &e.event {
            EventKind::JoinNext { .. } => {
                match response_at_version(&ms, e.version) {
                    Some(resp) => {
                        match resp.finished_child() {
                            Some(c) => {
                                if *c == *child {
                                    proof {
                                        lemma_child_bounds_stop(
                                            parent_events@,
                                            i as int + 1,
                                            ms@,
                                            child@,
                                        );
                                    }
                                    return (start, Some(e.version));
                                }
                            },
                            None => {},
                        }
                    },
                    None => {},
                }
            },
            _ => {},
        }
        }
    }
    proof {
        assert(parent_events@.take(n as int) =~= parent_events@);
    }
    (start, None)
}

/// The bounds of `execution_id` in the loaded log of its parent `parent_id`.
pub fn get_parent_execution_bounds(
    store: &EventStore,
    parent_id: &ExecutionId,
    execution_id: &ExecutionId,
) -> (r: (Option<Version>, Option<Version>))
    requires
        store.wf(),
    ensures
        r == child_bounds(
            store.events_of(parent_id@),
            join_matches(store.events_of(parent_id@), store.responses_of(parent_id@)),
            execution_id@,
        ),
{
    match store.get(parent_id) {
        Some(log) => execution_bounds(&log.events, &log.responses, execution_id),
        None => {
            let empty_events: Vec<ExecutionEvent> = Vec::new();
            let empty_responses: Vec<JoinSetResponseEvent> = Vec::new();
            execution_bounds(&empty_events, &empty_responses, execution_id)
        },
    }
}


/// Every entry of the pairing carries the version of one of the events.
proof fn lemma_matches_versions(events: Seq<ExecutionEvent>, rs: Seq<JoinSetResponseEvent>)
    ensures
        forall|m: int|
            0 <= m < join_matches(events, rs).len() ==> exists|j: int|
                0 <= j < events.len() && #[trigger] join_matches(events, rs)[m].0 == events[j].version,
    decreases events.len(),
{
    if events.len() > 0 {
        lemma_matches_versions(events.drop_last(), rs);
        let prev = join_matches(events.drop_last(), rs);
        assert forall|m: int| 0 <= m < prev.len() implies exists|j: int|
            0 <= j < events.len() && #[trigger] prev[m].0 == events[j].version by {
            let j = choose|j: int| 0 <= j < events.drop_last().len() && prev[m].0 == events.drop_last()[j].version;
            assert(events[j] == events.drop_last()[j]);
        }
        assert(events[events.len() - 1] == events.last());
    }
}

proof fn lemma_match_at_absent(ms: Seq<(Version, JoinSetResponseEvent)>, v: Version)
    requires
        forall|m: int| 0 <= m < ms.len() ==> #[trigger] ms[m].0 != v,
    ensures
        match_at(ms, v) is None,
    decreases ms.len(),
{
    if ms.len() > 0 {
        assert(ms[ms.len() - 1] == ms.last());
        lemma_match_at_absent(ms.drop_last(), v);
    }
}

/// In a log whose versions strictly increase, the wait at position `i` on
/// join set `J` is paired with the k-th response recorded for `J`, where k
/// counts the earlier waits on `J`, if that response arrived; otherwise it
/// has no entry.
pub proof fn lemma_kth_wait_gets_kth_response(
    events: Seq<ExecutionEvent>,
    rs: Seq<JoinSetResponseEvent>,
    i: int,
)
    requires
        forall|a: int, b: int| 0 <= a < b < events.len() ==> #[trigger] events[a].version < #[trigger] events[b].version,
        0 <= i < events.len(),
        awaited_join_set(events[i]) is Some,
    ensures
        ({
            let j = awaited_join_set(events[i])->Some_0;
            let k = join_nexts_on(events.take(i), j);
            match_at(join_matches(events, rs), events[i].version) == if k < responses_on(rs, j).len() {
                Some(responses_on(rs, j)[k as int])
            } else {
                None
            }
        }),
    decreases events.len(),
{
    let n = events.len();
    let prev = join_matches(events.drop_last(), rs);
    let e = events.last();
    assert(events[n - 1] == e);
    if i == n - 1 {
        assert(events.take(i) =~= events.drop_last());
        let j = awaited_join_set(events[i])->Some_0;
        let k = join_nexts_on(events.drop_last(), j);
        if k >= responses_on(rs, j).len() {
            lemma_matches_versions(events.drop_last(), rs);
            assert forall|m: int| 0 <= m < prev.len() implies #[trigger] prev[m].0 != e.version by {
                let jj = choose|jj: int| 0 <= jj < events.drop_last().len() && prev[m].0 == events.drop_last()[jj].version;
                assert(events.drop_last()[jj] == events[jj]);
            }
            lemma_match_at_absent(prev, e.version);
            assert(join_matches(events, rs) == prev);
        } else {
            let full = join_matches(events, rs);
            assert(full == prev.push((e.version, responses_on(rs, j)[k as int])));
            assert(full.drop_last() =~= prev);
        }
    } else {
        let d = events.drop_last();
        assert forall|a: int, b: int| 0 <= a < b < d.len() implies #[trigger] d[a].version < #[trigger] d[b].version by {
            assert(d[a] == events[a] && d[b] == events[b]);
        }
        assert(d[i] == events[i]);
        assert(d.take(i) =~= events.take(i));
        lemma_kth_wait_gets_kth_response(d, rs, i);
        assert(events[i].version < e.version);
        let full = join_matches(events, rs);
        if full.len() > prev.len() {
            assert(full.drop_last() =~= prev);
            assert(full.last().0 == e.version);
        } else {
            assert(full == prev);
        }
        assert(match_at(full, events[i].version) == match_at(prev, events[i].version));
    }
}


proof fn lemma_bounds_prefix(
    events: Seq<ExecutionEvent>,
    ms: Seq<(Version, JoinSetResponseEvent)>,
    child: Seq<char>,
    a: int,
    b: int,
    n: int,
)
    requires
        0 <= a < b < events.len(),
        0 <= n <= events.len(),
        requested_child(events[a]) == Some(child),
        closes_child(events[b], ms, child),
        forall|i: int| 0 <= i < events.len() && i != a ==> requested_child(#[trigger] events[i]) != Some(child),
        forall|i: int| 0 <= i < events.len() && i != b ==> !closes_child(#[trigger] events[i], ms, child),
    ensures
        child_bounds(events.take(n), ms, child) == if n <= a {
            (None::<Version>, None::<Version>)
        } else if n <= b {
            (Some(events[a].version), None::<Version>)
        } else {
            (Some(events[a].version), Some(events[b].version))
        },
    decreases n,
{
    if n > 0 {
        lemma_bounds_prefix(events, ms, child, a, b, n - 1);
        assert(events.take(n).drop_last() =~= events.take(n - 1));
        assert(events.take(n).last() == events[n - 1]);
    }
}

/// A parent log that requests child `X` at one position and, later, has the
/// `JoinNext` that consumed `X`'s result, with no other event about `X`,
/// bounds `X` by the versions of exactly those two events.
pub proof fn lemma_bounds_of_requested_and_consumed_child(
    events: Seq<ExecutionEvent>,
    rs: Seq<JoinSetResponseEvent>,
    child: Seq<char>,
    a: int,
    b: int,
)
    requires
        0 <= a < b < events.len(),
        requested_child(events[a]) == Some(child),
        closes_child(events[b], join_matches(events, rs), child),
        forall|i: int| 0 <= i < events.len() && i != a ==> requested_child(#[trigger] events[i]) != Some(child),
        forall|i: int|
            0 <= i < events.len() && i != b ==> !closes_child(
                #[trigger] events[i],
                join_matches(events, rs),
                child,
            ),
    ensures
        child_bounds(events, join_matches(events, rs), child) == (
            Some(events[a].version),
            Some(events[b].version),
        ),
{
    lemma_bounds_prefix(events, join_matches(events, rs), child, a, b, events.len() as int);
    assert(events.take(events.len() as int) =~= events);
}

} // verus!
