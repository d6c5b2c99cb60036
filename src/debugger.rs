use crate::events::{requested_child, finished_child, EventKind, ExecutionEvent, JoinSetResponseEvent, Version};
use crate::ids::{parent_of, ExecutionId};
use crate::join::{child_bounds, get_parent_execution_bounds, join_matches, match_at, response_at_version};
use crate::store::EventStore;
use crate::version_path::{changed, stepped_into, stepped_out, BacktraceVersionsPath};
use vstd::prelude::*;

verus! {

/// The ancestry chain from an execution at a path up to the root: each level
/// pairs an execution id with the path shown there. It ends where either the
/// id has no parent or the path has no level left.
pub open spec fn ancestry(id: Seq<char>, path: Seq<Version>) -> Seq<(Seq<char>, Seq<Version>)>
    decreases id.len(),
{
    match (parent_of(id), stepped_out(path)) {
        (Some(p), Some(q)) => {
            if p.len() < id.len() {
                seq![(id, path)] + ancestry(p, q)
            } else {
                seq![(id, path)]
            }
        },
        _ => seq![(id, path)],
    }
}

/// Builds the ancestry chain, leaf first, by stepping out of both the id and
/// the path until either has no level left.
pub fn compute_ancestry(execution_id: &ExecutionId, versions: &BacktraceVersionsPath) -> (r: Vec<
    (ExecutionId, BacktraceVersionsPath),
>)
    ensures
        r@.len() == ancestry(execution_id@, versions@).len(),
        forall|i: int|
            0 <= i < r@.len() ==> (#[trigger] r@[i]).0@ == ancestry(execution_id@, versions@)[i].0
                && r@[i].1@ == ancestry(execution_id@, versions@)[i].1,
    decreases execution_id@.len(),
{
    let mut out = vec![(execution_id.clone(), versions.clone())];
    match (execution_id.parent_id(), versions.step_out()) {
        (Some(parent), Some(parent_path)) => {
            proof {
                crate::ids::lemma_last_infix_bounds(execution_id@);
            }
            let mut rest = compute_ancestry(&parent, &parent_path);
            let ghost rest_view = rest@;
            out.append(&mut rest);
            proof {
                let a = ancestry(execution_id@, versions@);
                assert(a == seq![(execution_id@, versions@)] + ancestry(parent@, parent_path@));
                assert forall|i: int| 0 <= i < out@.len() implies (#[trigger] out@[i]).0@ == a[i].0
                    && out@[i].1@ == a[i].1 by {
                    if i > 0 {
                        assert(out@[i] == rest_view[i - 1]);
                    }
                }
            }
            out
        },
        _ => out,
    }
}

/// Where "Step Out" leads from one level of the debugger.
#[derive(Debug)]
pub enum StepOut {
    /// There is no parent level.
    Disabled,
    /// One target.
    To { execution_id: ExecutionId, versions: BacktraceVersionsPath },
    /// The request that created the child, and the wait that consumed its
    /// result when that was seen.
    StartEnd {
        execution_id: ExecutionId,
        start: BacktraceVersionsPath,
        end: Option<BacktraceVersionsPath>,
    },
}

/// The versions path of the parent level of a leaf: its stepped-out path, or
/// the default path where there is none.
pub open spec fn parent_path_of(path: Seq<Version>) -> Seq<Version> {
    match stepped_out(path) {
        Some(q) => q,
        None => seq![0u32],
    }
}

/// Where "Step Out" leads, as (parent id, target paths): `None` when disabled;
/// otherwise one path, or a start and an optional end.
pub open spec fn step_out_spec(
    store_parent_events: Seq<ExecutionEvent>,
    store_parent_responses: Seq<JoinSetResponseEvent>,
    id: Seq<char>,
    path: Seq<Version>,
    is_leaf: bool,
) -> Option<(Seq<char>, Seq<Version>, Option<Option<Seq<Version>>>)> {
    match parent_of(id) {
        None => None,
        Some(parent) => {
            if is_leaf {
                let bounds = child_bounds(
                    store_parent_events,
                    join_matches(store_parent_events, store_parent_responses),
                    id,
                );
                let pp = parent_path_of(path);
                match bounds {
                    (Some(start), Some(end)) => {
                        if end as int == start as int + 1 {
                            Some((parent, changed(pp, start), None))
                        } else {
                            Some((parent, changed(pp, start), Some(Some(changed(pp, end)))))
                        }
                    },
                    (Some(start), None) => Some((parent, changed(pp, start), Some(None))),
                    _ => Some((parent, pp, None)),
                }
            } else {
                match stepped_out(path) {
                    Some(q) => Some((parent, q, None)),
                    None => None,
                }
            }
        },
    }
}

/// Whether a `StepOut` value is the one `step_out_spec` describes.
pub open spec fn step_out_is(
    r: StepOut,
    s: Option<(Seq<char>, Seq<Version>, Option<Option<Seq<Version>>>)>,
) -> bool {
    match s {
        None => r is Disabled,
        Some((parent, p, None)) => match r {
            StepOut::To { execution_id, versions } => execution_id@ == parent && versions@ == p,
            _ => false,
        },
        Some((parent, p, Some(e))) => match r {
            StepOut::StartEnd { execution_id, start, end } => execution_id@ == parent && start@
                == p && match (end, e) {
                (None, None) => true,
                (Some(x), Some(y)) => x@ == y,
                _ => false,
            },
            _ => false,
        },
    }
}

/// Decides where "Step Out" leads from the level `curr_id` at `curr_path`.
/// At the leaf, the bounds of the child in its parent's log decide: one
/// target when the wait follows the request at once, else the start and the
/// end apart. Above the leaf, the path is stepped out.
pub fn step_out_target(
    store: &EventStore,
    curr_id: &ExecutionId,
    curr_path: &BacktraceVersionsPath,
    is_leaf: bool,
) -> (r: StepOut)
    requires
        store.wf(),
        curr_path@.len() > 0,
    ensures
        step_out_is(
            r,
            step_out_spec(
                store.events_of(parent_of(curr_id@)->Some_0),
                store.responses_of(parent_of(curr_id@)->Some_0),
                curr_id@,
                curr_path@,
                is_leaf,
            ),
        ),
{
    match curr_id.parent_id() {
        None => StepOut::Disabled,
        Some(parent_id) => {
            if is_leaf {
                let bounds = get_parent_execution_bounds(store, &parent_id, curr_id);
                let parent_path = match curr_path.step_out() {
                    Some(p) => p,
                    None => BacktraceVersionsPath::default(),
                };
                match bounds {
                    (Some(start), Some(end)) => {
                        if start < end && end - start == 1 {
                            StepOut::To { execution_id: parent_id, versions: parent_path.change(start) }
                        } else {
                            StepOut::StartEnd {
                                execution_id: parent_id,
                                start: parent_path.change(start),
                                end: Some(parent_path.change(end)),
                            }
                        }
                    },
                    (Some(start), None) => StepOut::StartEnd {
                        execution_id: parent_id,
                        start: parent_path.change(start),
                        end: None,
                    },
                    _ => StepOut::To { execution_id: parent_id, versions: parent_path },
                }
            } else {
                match curr_path.step_out() {
                    Some(p) => StepOut::To { execution_id: parent_id, versions: p },
                    None => StepOut::Disabled,
                }
            }
        },
    }
}

/// The versions of an execution that have a backtrace: each event's
/// `backtrace_id`, where it has one.
pub open spec fn has_backtrace_at(events: Seq<ExecutionEvent>, v: Version) -> bool {
    exists|i: int| 0 <= i < events.len() && #[trigger] events[i].backtrace_id == Some(v)
}

/// The nearest version with a backtrace strictly before `version_min`, if any.
pub fn step_prev(events: &Vec<ExecutionEvent>, version_min: Version) -> (r: Option<Version>)
    ensures
        match r {
            None => forall|v: Version| v < version_min ==> !has_backtrace_at(events@, v),
            Some(p) => p < version_min && has_backtrace_at(events@, p) && forall|v: Version|
                p < v < version_min ==> !has_backtrace_at(events@, v),
        },
{
    let mut best: Option<Version> = None;
    for i in 0..events.len()
        invariant
            match best {
                None => forall|j: int|
                    0 <= j < i ==> match (#[trigger] events@[j]).backtrace_id {
                        Some(b) => b >= version_min,
                        None => true,
                    },
                Some(p) => p < version_min && (exists|j: int|
                    0 <= j < i && #[trigger] events@[j].backtrace_id == Some(p)) && forall|j: int|
                    0 <= j < i ==> match (#[trigger] events@[j]).backtrace_id {
                        Some(b) => b <= p || b >= version_min,
                        None => true,
                    },
            },
    {
        match events[i].backtrace_id {
            Some(b) => {
                if b < version_min {
                    match best {
                        None => {
                            best = Some(b);
                        },
                        Some(p) => {
                            if b > p {
                                best = Some(b);
                            }
                        },
                    }
                }
            },
            None => {},
        }
    }
    best
}

/// The nearest version with a backtrace at or after `version_max`, if any.
pub fn step_next(events: &Vec<ExecutionEvent>, version_max: Version) -> (r: Option<Version>)
    ensures
        match r {
            None => forall|v: Version| v >= version_max ==> !has_backtrace_at(events@, v),
            Some(n) => n >= version_max && has_backtrace_at(events@, n) && forall|v: Version|
                version_max <= v < n ==> !has_backtrace_at(events@, v),
        },
{
    let mut best: Option<Version> = None;
    for i in 0..events.len()
        invariant
            match best {
                None => forall|j: int|
                    0 <= j < i ==> match (#[trigger] events@[j]).backtrace_id {
                        Some(b) => b < version_max,
                        None => true,
                    },
                Some(n) => n >= version_max && (exists|j: int|
                    0 <= j < i && #[trigger] events@[j].backtrace_id == Some(n)) && forall|j: int|
                    0 <= j < i ==> match (#[trigger] events@[j]).backtrace_id {
                        Some(b) => b >= n || b < version_max,
                        None => true,
                    },
            },
    {
        match events[i].backtrace_id {
            Some(b) => {
                if b >= version_max {
                    match best {
                        None => {
                            best = Some(b);
                        },
                        Some(n) => {
                            if b < n {
                                best = Some(b);
                            }
                        },
                    }
                }
            },
            None => {},
        }
    }
    best
}

/// The version whose event may start a child: the first version of the
/// backtrace, or the one after it when the backtrace spans exactly three
/// versions (a one-off join set: create, request, wait).
pub open spec fn child_request_version_spec(min: Version, max: Version) -> Version {
    if max >= min && max - min == 3 && min < u32::MAX {
        (min + 1) as Version
    } else {
        min
    }
}

pub fn child_request_version(version_min_including: Version, version_max_excluding: Version) -> (r:
    Version)
    ensures
        r == child_request_version_spec(version_min_including, version_max_excluding),
{
    if version_max_excluding >= version_min_including && version_max_excluding
        - version_min_including == 3 && version_min_including < u32::MAX {
        version_min_including + 1
    } else {
        version_min_including
    }
}

/// The child that "Step Into" enters from a backtrace spanning
/// `[min, max)`: the event at the child-request version either requests a
/// child, or is a `JoinNext` whose paired response reports a child finished.
pub open spec fn step_into_child(
    events: Seq<ExecutionEvent>,
    ms: Seq<(Version, JoinSetResponseEvent)>,
    min: Version,
    max: Version,
) -> Option<Seq<char>> {
    let v = child_request_version_spec(min, max);
    if v < events.len() {
        let e = events[v as int];
        match requested_child(e) {
            Some(c) => Some(c),
            None => if e.event is JoinNext {
                match match_at(ms, e.version) {
                    Some(resp) => finished_child(resp),
                    None => None,
                }
            } else {
                None
            },
        }
    } else {
        None
    }
}

/// Where "Step Into" leads from the leaf: the child execution, at the path
/// one level deeper.
pub fn step_into_target(
    events: &Vec<ExecutionEvent>,
    join_matches: &Vec<(Version, JoinSetResponseEvent)>,
    version_min_including: Version,
    version_max_excluding: Version,
    curr_path: &BacktraceVersionsPath,
) -> (r: Option<(ExecutionId, BacktraceVersionsPath)>)
    ensures
        match r {
            None => step_into_child(
                events@,
                join_matches@,
                version_min_including,
                version_max_excluding,
            ) is None,
            Some((c, p)) => step_into_child(
                events@,
                join_matches@,
                version_min_including,
                version_max_excluding,
            ) == Some(c@) && p@ == stepped_into(curr_path@),
        },
{
    let v = child_request_version(version_min_including, version_max_excluding);
    if (v as usize) < events.len() {
        let e = &events[v as usize];
        match e.requested_child() {
            Some(c) => Some((c.clone(), curr_path.step_into())),
            None => match &e.event {
                EventKind::JoinNext { .. } => match response_at_version(join_matches, e.version) {
                    Some(resp) => match resp.finished_child() {
                        Some(c) => Some((c.clone(), curr_path.step_into())),
                        None => None,
                    },
                    None => None,
                },
                _ => None,
            },
        }
    } else {
        None
    }
}


/// The events the debugger's log lists: creation, the final result, and
/// every event that has a backtrace.
pub open spec fn listed_in_debugger(e: ExecutionEvent) -> bool {
    e.event is Created || e.event is Finished || e.backtrace_id is Some
}

pub fn is_listed_in_debugger(e: &ExecutionEvent) -> (r: bool)
    ensures
        r == listed_in_debugger(*e),
{
    match &e.event {
        EventKind::Created { .. } | EventKind::Finished { .. } => true,
        _ => e.backtrace_id.is_some(),
    }
}

/// The events the trace view's log lists: all but locking, unlocking and
/// join-set creation.
pub open spec fn listed_in_trace(e: ExecutionEvent) -> bool {
    !(e.event is Locked || e.event is Unlocked || e.event is JoinSetCreated)
}

pub fn is_listed_in_trace(e: &ExecutionEvent) -> (r: bool)
    ensures
        r == listed_in_trace(*e),
{
    match &e.event {
        EventKind::Locked { .. } | EventKind::Unlocked | EventKind::JoinSetCreated { .. } => false,
        _ => true,
    }
}

/// Whether an event lies in the version range a backtrace covers, and is
/// thus highlighted.
pub fn is_selected(version: Version, version_min_including: Version, version_max_excluding: Version) -> (r:
    bool)
    ensures
        r == (version_min_including <= version && version < version_max_excluding),
{
    version_min_including <= version && version < version_max_excluding
}

} // verus!
