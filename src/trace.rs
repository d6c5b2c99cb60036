use crate::events::{
    requested_child, EventKind, ExecutionEvent, FinishedResult, JoinSetResponse,
    JoinSetResponseEvent, Millis, ExecutionStatus,
};
use crate::ids::ExecutionId;
use crate::store::{longest_id, EventStore};
use vstd::prelude::*;
use vstd::string::*;

verus! {

/// What an interval of an execution's timeline stands for.
#[derive(Clone, Copy, Debug, PartialEq, Eq, Structural)]
pub enum BusyStatus {
    /// From scheduling to the last activity seen.
    ExecutionSinceScheduled,
    /// Held by a worker.
    ExecutionLocked,
    /// Ended by a temporary failure.
    ExecutionErrorTemporary,
    /// Ended by a temporary timeout.
    ExecutionTimeoutTemporary,
    /// Ended by the final result.
    ExecutionFinished(FinishedResult),
    /// Still running, or its state is not known yet.
    ExecutionUnfinishedWithoutPendingState,
}

/// One interval of a timeline; an open interval has no end yet.
#[derive(Clone, Copy, Debug, PartialEq, Eq, Structural)]
pub struct BusyInterval {
    pub started_at: Millis,
    pub finished_at: Option<Millis>,
    pub status: BusyStatus,
}

/// The status of the interval that an event closes, if it closes one.
pub open spec fn closing_status(e: EventKind) -> Option<BusyStatus> {
    match e {
        EventKind::TemporarilyFailed => Some(BusyStatus::ExecutionErrorTemporary),
        EventKind::Unlocked => Some(BusyStatus::ExecutionLocked),
        EventKind::TemporarilyTimedOut => Some(BusyStatus::ExecutionTimeoutTemporary),
        EventKind::Finished { result } => Some(BusyStatus::ExecutionFinished(result)),
        _ => None,
    }
}

/// The closed intervals of a log, and the lock still open after it (locked
/// at, expires at). A lock followed by another lock counts as held until it
/// expired; an event that ends work closes the open lock, or, without one,
/// the time since scheduling.
pub open spec fn busy_fold(events: Seq<ExecutionEvent>, scheduled_at: Millis) -> (
    Seq<BusyInterval>,
    Option<(Millis, Millis)>,
)
    decreases events.len(),
{
    if events.len() == 0 {
        (seq![], None)
    } else {
        let prev = busy_fold(events.drop_last(), scheduled_at);
        let e = events.last();
        match e.event {
            EventKind::Locked { lock_expires_at } => {
                let acc = match prev.1 {
                    Some((la, le)) => prev.0.push(
                        BusyInterval {
                            started_at: la,
                            finished_at: Some(le),
                            status: BusyStatus::ExecutionLocked,
                        },
                    ),
                    None => prev.0,
                };
                (acc, Some((e.created_at, lock_expires_at)))
            },
            _ => match closing_status(e.event) {
                Some(st) => {
                    let started = match prev.1 {
                        Some((la, _)) => la,
                        None => scheduled_at,
                    };
                    (
                        prev.0.push(
                            BusyInterval {
                                started_at: started,
                                finished_at: Some(e.created_at),
                                status: st,
                            },
                        ),
                        None,
                    )
                },
                None => prev,
            },
        }
    }
}

/// The timeline of an execution: the span from scheduling to the last
/// activity, then each closed interval, then the lock still held, if any, as
/// an open interval.
pub open spec fn busy_intervals(
    events: Seq<ExecutionEvent>,
    scheduled_at: Millis,
    last_event_at: Millis,
) -> Seq<BusyInterval> {
    let f = busy_fold(events, scheduled_at);
    seq![
        BusyInterval {
            started_at: scheduled_at,
            finished_at: Some(last_event_at),
            status: BusyStatus::ExecutionSinceScheduled,
        },
    ] + f.0 + match f.1 {
        Some((la, _)) => seq![
            BusyInterval {
                started_at: la,
                finished_at: None,
                status: BusyStatus::ExecutionUnfinishedWithoutPendingState,
            },
        ],
        None => seq![],
    }
}

/// Computes the timeline of an execution from its events.
pub fn compute_busy_intervals(
    events: &Vec<ExecutionEvent>,
    scheduled_at: Millis,
    last_event_at: Millis,
) -> (r: Vec<BusyInterval>)
    ensures
        r@ == busy_intervals(events@, scheduled_at, last_event_at),
{
    let mut out = vec![
        BusyInterval {
            started_at: scheduled_at,
            finished_at: Some(last_event_at),
            status: BusyStatus::ExecutionSinceScheduled,
        },
    ];
    let ghost first = out@;
    let mut current: Option<(Millis, Millis)> = None;
    for i in 0..events.len()
        invariant
            first.len() == 1,
            out@ == first + busy_fold(events@.take(i as int), scheduled_at).0,
            current == busy_fold(events@.take(i as int), scheduled_at).1,
    {
        proof {
            assert(events@.take(i as int + 1).drop_last() =~= events@.take(i as int));
            assert(events@.take(i as int + 1).last() == events@[i as int]);
        }
        let e = &events[i];
        let ghost before = out@;
        match &e.event {
            EventKind::Locked { lock_expires_at } => {
                match current {
                    Some((la, le)) => {
                        out.push(
                            BusyInterval {
                                started_at: la,
                                finished_at: Some(le),
                                status: BusyStatus::ExecutionLocked,
                            },
                        );
                    },
                    None => {},
                }
                current = Some((e.created_at, *lock_expires_at));
            },
            _ => {
                let status = match &e.event {
                    EventKind::TemporarilyFailed => Some(BusyStatus::ExecutionErrorTemporary),
                    EventKind::Unlocked => Some(BusyStatus::ExecutionLocked),
                    EventKind::TemporarilyTimedOut => Some(BusyStatus::ExecutionTimeoutTemporary),
                    EventKind::Finished { result } => Some(BusyStatus::ExecutionFinished(*result)),
                    _ => None,
                };
                match status {
                    Some(st) => {
                        let started = match current {
                            Some((la, _)) => la,
                            None => scheduled_at,
                        };
                        out.push(
                            BusyInterval {
                                started_at: started,
                                finished_at: Some(e.created_at),
                                status: st,
                            },
                        );
                        current = None;
                    },
                    None => {},
                }
            },
        }
        proof {
            assert(first + busy_fold(events@.take(i as int + 1), scheduled_at).0 =~= out@);
        }
    }
    proof {
        assert(events@.take(events@.len() as int) =~= events@);
    }
    match current {
        Some((la, _)) => {
            out.push(
                BusyInterval {
                    started_at: la,
                    finished_at: None,
                    status: BusyStatus::ExecutionUnfinishedWithoutPendingState,
                },
            );
        },
        None => {},
    }
    proof {
        assert(out@ =~= busy_intervals(events@, scheduled_at, last_event_at));
    }
    out
}

/// Whether response `i` is the last one recorded on its join set.
pub open spec fn last_on_its_join_set(rs: Seq<JoinSetResponseEvent>, i: int) -> bool {
    forall|j: int| i < j < rs.len() ==> #[trigger] rs[j].join_set_id@ != rs[i].join_set_id@
}

/// The latest of `base` and the times of the first `n` responses that are
/// the last on their join sets.
pub open spec fn latest_activity(rs: Seq<JoinSetResponseEvent>, n: int, base: Millis) -> Millis
    decreases n,
{
    if n <= 0 {
        base
    } else {
        let prev = latest_activity(rs, n - 1, base);
        if last_on_its_join_set(rs, n - 1) && rs[n - 1].created_at > prev {
            rs[n - 1].created_at
        } else {
            prev
        }
    }
}

fn is_last_on_its_join_set(rs: &Vec<JoinSetResponseEvent>, i: usize) -> (r: bool)
    requires
        i < rs@.len(),
    ensures
        r == last_on_its_join_set(rs@, i as int),
{
    let n = rs.len();
    let mut j = i + 1;
    while j < n
        invariant
            i < j <= rs@.len(),
            n == rs@.len(),
            forall|k: int| i < k < j ==> #[trigger] rs@[k].join_set_id@ != rs@[i as int].join_set_id@,
        decreases rs@.len() - j,
    {
        if rs[j].join_set_id == rs[i].join_set_id {
            return false;
        }
        j = j + 1;
    }
    true
}

/// When an execution was last seen active: its last event; while it is not
/// finished, also the last response on each of its join sets, if later.
pub fn compute_last_event_at(
    last_event: &ExecutionEvent,
    is_finished: bool,
    responses: &Vec<JoinSetResponseEvent>,
) -> (r: Millis)
    ensures
        r == if is_finished {
            last_event.created_at
        } else {
            latest_activity(responses@, responses@.len() as int, last_event.created_at)
        },
{
    let candidate = last_event.created_at;
    if is_finished {
        return candidate;
    }
    let mut best = candidate;
    for i in 0..responses.len()
        invariant
            best == latest_activity(responses@, i as int, candidate),
    {
        if is_last_on_its_join_set(responses, i) && responses[i].created_at > best {
            best = responses[i].created_at;
        }
    }
    best
}

/// The result and time of the last response reporting that `child` finished.
pub open spec fn child_finished(rs: Seq<JoinSetResponseEvent>, child: Seq<char>) -> Option<
    (FinishedResult, Millis),
>
    decreases rs.len(),
{
    if rs.len() == 0 {
        None
    } else {
        match rs.last().response {
            JoinSetResponse::ChildExecutionFinished { child_execution_id, result } => {
                if child_execution_id@ == child {
                    Some((result, rs.last().created_at))
                } else {
                    child_finished(rs.drop_last(), child)
                }
            },
            _ => child_finished(rs.drop_last(), child),
        }
    }
}

/// How and when a child execution finished, as its parent's responses report it.
pub fn child_execution_finished(responses: &Vec<JoinSetResponseEvent>, child: &ExecutionId) -> (r:
    Option<(FinishedResult, Millis)>)
    ensures
        r == child_finished(responses@, child@),
{
    let mut i = responses.len();
    proof {
        assert(responses@.take(i as int) =~= responses@);
    }
    while i > 0
        invariant
            i <= responses@.len(),
            child_finished(responses@, child@) == child_finished(
                responses@.take(i as int),
                child@,
            ),
        decreases i,
    {
        proof {
            assert(responses@.take(i as int).drop_last() =~= responses@.take(i as int - 1));
        }
        match &responses[i - 1].response {
            JoinSetResponse::ChildExecutionFinished { child_execution_id, result } => {
                if *child_execution_id == *child {
                    return Some((*result, responses[i - 1].created_at));
                }
            },
            _ => {},
        }
        i = i - 1;
    }
    None
}


/// One node of a trace tree. A loaded node is built from the execution's
/// own log; a summary node stands for a child whose log is not loaded, as
/// its parent's responses show it.
#[derive(Debug)]
pub struct TraceNode {
    pub execution_id: ExecutionId,
    pub loaded: bool,
    pub scheduled_at: Millis,
    pub last_event_at: Millis,
    /// The status last reported for the execution; none for a summary node.
    pub current_status: Option<ExecutionStatus>,
    pub busy: Vec<BusyInterval>,
    /// Positions of the child nodes in the tree's arena; each is smaller than
    /// the position of this node.
    pub children: Vec<usize>,
}

/// A trace tree in an arena: children come before their parent, and the
/// root is the node at `root`. `missing_ids` lists the children that are
/// referenced but not registered for loading, depth first in request order.
#[derive(Debug)]
pub struct TraceTree {
    pub nodes: Vec<TraceNode>,
    pub root: usize,
    pub missing_ids: Vec<ExecutionId>,
}

/// When an execution was scheduled: as its `Created` event says, else the
/// time of its first event.
pub open spec fn scheduled_of(events: Seq<ExecutionEvent>) -> Millis {
    match events[0].event {
        EventKind::Created { scheduled_at } => scheduled_at,
        _ => events[0].created_at,
    }
}

/// When an execution was last seen active, from its own log.
pub open spec fn own_last_event_at(events: Seq<ExecutionEvent>, rs: Seq<JoinSetResponseEvent>) -> Millis {
    if events.last().event is Finished {
        events.last().created_at
    } else {
        latest_activity(rs, rs.len() as int, events.last().created_at)
    }
}

/// The children a node shows, in the order they were requested, each with
/// the time of its request; with `hide_finished`, the finished ones are left out.
pub open spec fn shown_children(
    events: Seq<ExecutionEvent>,
    rs: Seq<JoinSetResponseEvent>,
    hide_finished: bool,
) -> Seq<(Seq<char>, Millis)>
    decreases events.len(),
{
    if events.len() == 0 {
        seq![]
    } else {
        let prev = shown_children(events.drop_last(), rs, hide_finished);
        match requested_child(events.last()) {
            Some(c) => if hide_finished && child_finished(rs, c) is Some {
                prev
            } else {
                prev.push((c, events.last().created_at))
            },
            None => prev,
        }
    }
}

proof fn lemma_shown_prefix(
    events: Seq<ExecutionEvent>,
    n: int,
    rs: Seq<JoinSetResponseEvent>,
    hide_finished: bool,
)
    requires
        0 <= n <= events.len(),
    ensures
        shown_children(events.take(n), rs, hide_finished).len() <= shown_children(
            events,
            rs,
            hide_finished,
        ).len(),
        forall|c: int|
            0 <= c < shown_children(events.take(n), rs, hide_finished).len() ==> #[trigger] shown_children(
                events.take(n),
                rs,
                hide_finished,
            )[c] == shown_children(events, rs, hide_finished)[c],
    decreases events.len() - n,
{
    if n < events.len() {
        lemma_shown_prefix(events, n + 1, rs, hide_finished);
        assert(events.take(n + 1).drop_last() =~= events.take(n));
        let a = shown_children(events.take(n), rs, hide_finished);
        let b = shown_children(events.take(n + 1), rs, hide_finished);
        assert forall|c: int| 0 <= c < a.len() implies #[trigger] a[c] == shown_children(
            events,
            rs,
            hide_finished,
        )[c] by {
            assert(a[c] == b[c]);
        }
    } else {
        assert(events.take(n) =~= events);
    }
}

/// The one interval of a summary node: from the request to the reported
/// finish, or open when no finish was reported.
pub open spec fn summary_interval(
    requested_at: Millis,
    rs: Seq<JoinSetResponseEvent>,
    child: Seq<char>,
) -> BusyInterval {
    match child_finished(rs, child) {
        Some((result, at)) => BusyInterval {
            started_at: requested_at,
            finished_at: Some(at),
            status: BusyStatus::ExecutionFinished(result),
        },
        None => BusyInterval {
            started_at: requested_at,
            finished_at: None,
            status: BusyStatus::ExecutionUnfinishedWithoutPendingState,
        },
    }
}

/// Whether `child` is an id below `parent`: the parent's id, the separator,
/// then the rest.
pub open spec fn descends(parent: Seq<char>, child: Seq<char>) -> bool {
    let prefix = parent.push(crate::ids::EXECUTION_ID_INFIX);
    prefix.len() <= child.len() && child.take(prefix.len() as int) == prefix
}

/// Whether a shown child is built from its own log: its id is below its
/// parent's, and its log holds events.
pub open spec fn expands(store: EventStore, parent: Seq<char>, child: Seq<char>) -> bool {
    descends(parent, child) && store.events_of(child).len() > 0
}

/// Node `ch` is a correct child of `parent`, whose last activity is `last`,
/// for the shown child `shown`.
pub open spec fn child_ok(
    store: EventStore,
    nodes: Seq<TraceNode>,
    rs: Seq<JoinSetResponseEvent>,
    parent: Seq<char>,
    last: Millis,
    ch: usize,
    shown: (Seq<char>, Millis),
) -> bool {
    &&& ch < nodes.len()
    &&& nodes[ch as int].execution_id@ == shown.0
    &&& nodes[ch as int].loaded == expands(store, parent, shown.0)
    &&& nodes[ch as int].loaded ==> last >= nodes[ch as int].last_event_at
    &&& !nodes[ch as int].loaded ==> nodes[ch as int].busy@ == seq![
        summary_interval(shown.1, rs, shown.0),
    ] && nodes[ch as int].children@.len() == 0 && nodes[ch as int].current_status is None
}

/// A loaded node `i` is built as its execution's log says.
pub open spec fn loaded_node_ok(
    store: EventStore,
    nodes: Seq<TraceNode>,
    i: int,
    hide_finished: bool,
) -> bool {
    let n = nodes[i];
    let events = store.events_of(n.execution_id@);
    let rs = store.responses_of(n.execution_id@);
    let shown = shown_children(events, rs, hide_finished);
    &&& events.len() > 0
    &&& n.scheduled_at == scheduled_of(events)
    &&& n.current_status == store.status_of(n.execution_id@)
    &&& n.busy@ == busy_intervals(events, n.scheduled_at, n.last_event_at)
    &&& n.children@.len() == shown.len()
    &&& forall|c: int|
        0 <= c < shown.len() ==> #[trigger] n.children@[c] < i && child_ok(
            store,
            nodes,
            rs,
            n.execution_id@,
            n.last_event_at,
            n.children@[c],
            shown[c],
        )
    &&& n.last_event_at >= own_last_event_at(events, rs)
    &&& (n.last_event_at == own_last_event_at(events, rs) || exists|c: int|
        0 <= c < n.children@.len() && nodes[#[trigger] n.children@[c] as int].loaded
            && nodes[n.children@[c] as int].last_event_at == n.last_event_at)
}

/// Every loaded node is built as its log says.
pub open spec fn tree_ok(store: EventStore, nodes: Seq<TraceNode>, hide_finished: bool) -> bool {
    forall|k: int|
        0 <= k < nodes.len() && (#[trigger] nodes[k]).loaded ==> loaded_node_ok(
            store,
            nodes,
            k,
            hide_finished,
        )
}

/// The ids of a list of executions.
pub open spec fn id_views(ms: Seq<ExecutionId>) -> Seq<Seq<char>> {
    ms.map_values(|m: ExecutionId| m@)
}

/// What the first `n` shown children of `id` add to the missing list, depth
/// first: each child that is not registered, then what the children built
/// from their own logs add. Ids longer than `bound` are not followed.
pub open spec fn missing_upto(
    store: EventStore,
    id: Seq<char>,
    n: int,
    hide_finished: bool,
    bound: int,
) -> Seq<Seq<char>>
    decreases bound - id.len(), n,
{
    let shown = shown_children(store.events_of(id), store.responses_of(id), hide_finished);
    if n <= 0 || n > shown.len() || id.len() > bound {
        seq![]
    } else {
        let c = shown[n - 1].0;
        let own = if store.log(c) is None {
            seq![c]
        } else {
            seq![]
        };
        let sub = if descends(id, c) && c.len() <= bound {
            missing_upto(
                store,
                c,
                shown_children(store.events_of(c), store.responses_of(c), hide_finished).len() as int,
                hide_finished,
                bound,
            )
        } else {
            seq![]
        };
        missing_upto(store, id, n - 1, hide_finished, bound) + own + sub
    }
}

/// The missing list of the tree of `id`.
pub open spec fn missing_of(store: EventStore, id: Seq<char>, hide_finished: bool, bound: int) -> Seq<
    Seq<char>,
> {
    missing_upto(
        store,
        id,
        shown_children(store.events_of(id), store.responses_of(id), hide_finished).len() as int,
        hide_finished,
        bound,
    )
}

proof fn lemma_tree_ok_extend(
    store: EventStore,
    nodes: Seq<TraceNode>,
    nodes2: Seq<TraceNode>,
    hide_finished: bool,
)
    requires
        tree_ok(store, nodes, hide_finished),
        nodes2.len() >= nodes.len(),
        forall|j: int| 0 <= j < nodes.len() ==> nodes2[j] == nodes[j],
        forall|j: int|
            nodes.len() <= j < nodes2.len() && (#[trigger] nodes2[j]).loaded ==> loaded_node_ok(
                store,
                nodes2,
                j,
                hide_finished,
            ),
    ensures
        tree_ok(store, nodes2, hide_finished),
{
    assert forall|k: int| 0 <= k < nodes2.len() && (#[trigger] nodes2[k]).loaded implies loaded_node_ok(
        store,
        nodes2,
        k,
        hide_finished,
    ) by {
        if k < nodes.len() {
            assert(nodes2[k] == nodes[k]);
            assert(loaded_node_ok(store, nodes, k, hide_finished));
            let n = nodes[k];
            let events = store.events_of(n.execution_id@);
            let rs = store.responses_of(n.execution_id@);
            let shown = shown_children(events, rs, hide_finished);
            assert forall|c: int| 0 <= c < shown.len() implies #[trigger] n.children@[c] < k
                && child_ok(store, nodes2, rs, n.execution_id@, n.last_event_at, n.children@[c], shown[c]) by {
                assert(child_ok(store, nodes, rs, n.execution_id@, n.last_event_at, n.children@[c], shown[c]));
                let ch = n.children@[c] as int;
                assert(nodes2[ch] == nodes[ch]);
            }
            if n.last_event_at != own_last_event_at(events, rs) {
                let c = choose|c: int|
                    0 <= c < n.children@.len() && nodes[#[trigger] n.children@[c] as int].loaded
                        && nodes[n.children@[c] as int].last_event_at == n.last_event_at;
                assert(nodes2[n.children@[c] as int] == nodes[n.children@[c] as int]);
            }
        }
    }
}

/// Whether `child` is an id below `parent`.
pub fn descends_from(parent: &ExecutionId, child: &ExecutionId) -> (r: bool)
    ensures
        r == descends(parent@, child@),
{
    let p = parent.id.as_str();
    let c = child.id.as_str();
    let pn = p.unicode_len();
    let cn = c.unicode_len();
    let ghost prefix = parent@.push(crate::ids::EXECUTION_ID_INFIX);
    if pn >= cn {
        return false;
    }
    if c.get_char(pn) != crate::ids::EXECUTION_ID_INFIX {
        proof {
            assert(child@.take(prefix.len() as int)[pn as int] != prefix[pn as int]);
        }
        return false;
    }
    for i in 0..pn
        invariant
            pn == parent@.len(),
            cn == child@.len(),
            pn < cn,
            p@ == parent@,
            c@ == child@,
            prefix == parent@.push(crate::ids::EXECUTION_ID_INFIX),
            child@[pn as int] == crate::ids::EXECUTION_ID_INFIX,
            forall|j: int| 0 <= j < i ==> child@[j] == parent@[j],
    {
        if c.get_char(i) != p.get_char(i) {
            proof {
                assert(child@.take(prefix.len() as int)[i as int] != prefix[i as int]);
            }
            return false;
        }
    }
    proof {
        assert(child@.take(prefix.len() as int) =~= prefix);
    }
    true
}

fn clone_status(s: &Option<ExecutionStatus>) -> (r: Option<ExecutionStatus>)
    ensures
        r == *s,
{
    match s {
        Some(st) => Some(st.clone()),
        None => None,
    }
}

/// Builds the node of `id` and, before it, the nodes of its children; `None`
/// when its log holds no event yet. A child is built from its own log when
/// its id is below `id` and it is registered; `bound` bounds the length of
/// every registered id, so the descent ends.
fn build_node(
    store: &EventStore,
    id: &ExecutionId,
    bound: usize,
    hide_finished: bool,
    tree: &mut TraceTree,
) -> (r: Option<usize>)
    requires
        store.wf(),
        id@.len() <= bound,
        forall|k: Seq<char>| #[trigger] store.log(k) is Some ==> k.len() <= bound,
        tree_ok(*store, old(tree).nodes@, hide_finished),
    ensures
        tree_ok(*store, final(tree).nodes@, hide_finished),
        final(tree).nodes@.len() >= old(tree).nodes@.len(),
        forall|j: int| 0 <= j < old(tree).nodes@.len() ==> final(tree).nodes@[j] == old(tree).nodes@[j],
        id_views(final(tree).missing_ids@) == id_views(old(tree).missing_ids@) + missing_of(
            *store,
            id@,
            hide_finished,
            bound as int,
        ),
        final(tree).root == old(tree).root,
        r is None <==> store.events_of(id@).len() == 0,
        match r {
            Some(i) => i + 1 == final(tree).nodes@.len() && final(tree).nodes@[i as int].loaded
                && final(tree).nodes@[i as int].execution_id@ == id@,
            None => final(tree).nodes@ == old(tree).nodes@ && final(tree).missing_ids@ == old(
                tree,
            ).missing_ids@,
        },
    decreases bound - id@.len(),
{
    let log = match store.get(id) {
        Some(log) => log,
        None => {
            proof {
                assert(id_views(old(tree).missing_ids@) + missing_of(*store, id@, hide_finished, bound as int)
                    =~= id_views(old(tree).missing_ids@));
            }
            return None;
        },
    };
    let events = &log.events;
    let responses = &log.responses;
    if events.len() == 0 {
        proof {
            assert(id_views(old(tree).missing_ids@) + missing_of(*store, id@, hide_finished, bound as int)
                =~= id_views(old(tree).missing_ids@));
        }
        return None;
    }
    let last_event = &events[events.len() - 1];
    let is_finished = last_event.is_finished();
    let own_last = compute_last_event_at(last_event, is_finished, responses);
    let scheduled_at = match &events[0].event {
        EventKind::Created { scheduled_at } => *scheduled_at,
        _ => events[0].created_at,
    };
    let ghost start_nodes = tree.nodes@;
    let ghost start_missing = tree.missing_ids@;
    let mut children: Vec<usize> = Vec::new();
    let mut last = own_last;
    let ghost ev = events@;
    let ghost rs = responses@;
    let ghost full_shown = shown_children(ev, rs, hide_finished);
    for i in 0..events.len()
        invariant
            store.wf(),
            id@.len() <= bound,
            forall|k: Seq<char>| #[trigger] store.log(k) is Some ==> k.len() <= bound,
            ev == store.events_of(id@),
            rs == store.responses_of(id@),
            ev == events@,
            rs == responses@,
            full_shown == shown_children(ev, rs, hide_finished),
            ev.len() > 0,
            own_last == own_last_event_at(ev, rs),
            tree_ok(*store, tree.nodes@, hide_finished),
            tree.nodes@.len() >= start_nodes.len(),
            forall|j: int| 0 <= j < start_nodes.len() ==> tree.nodes@[j] == start_nodes[j],
            id_views(tree.missing_ids@) == id_views(start_missing) + missing_upto(
                *store,
                id@,
                children@.len() as int,
                hide_finished,
                bound as int,
            ),
            tree.root == old(tree).root,
            start_nodes == old(tree).nodes@,
            start_missing == old(tree).missing_ids@,
            children@.len() == shown_children(ev.take(i as int), rs, hide_finished).len(),
            forall|c: int|
                0 <= c < children@.len() ==> child_ok(
                    *store,
                    tree.nodes@,
                    rs,
                    id@,
                    last,
                    #[trigger] children@[c],
                    full_shown[c],
                ),
            last >= own_last,
            last == own_last || exists|c: int|
                0 <= c < children@.len() && tree.nodes@[#[trigger] children@[c] as int].loaded
                    && tree.nodes@[children@[c] as int].last_event_at == last,
    {
        proof {
            assert(ev.take(i as int + 1).drop_last() =~= ev.take(i as int));
            assert(ev.take(i as int + 1).last() == ev[i as int]);
            lemma_shown_prefix(ev, i as int + 1, rs, hide_finished);
        }
        let e = &events[i];
        match e.requested_child() {
            None => {},
            Some(child) => {
                let finished = child_execution_finished(responses, child);
                if !(hide_finished && finished.is_some()) {
                    let ghost n = children@.len() as int;
                    let ghost shown_c = (child@, e.created_at);
                    assert(shown_children(ev.take(i as int + 1), rs, hide_finished)[n] == shown_c);
                    assert(full_shown[n] == shown_c);
                    assert(n + 1 <= full_shown.len());
                    let ghost nodes0 = tree.nodes@;
                    let ghost missing0 = tree.missing_ids@;
                    let ghost last0 = last;
                    let registered = store.get(child).is_some();
                    if !registered {
                        tree.missing_ids.push(child.clone());
                    }
                    let ghost missing1 = tree.missing_ids@;
                    assert(id_views(missing1) == id_views(missing0) + (if store.log(child@) is None {
                        seq![child@]
                    } else {
                        seq![]
                    })) by {
                        if !registered {
                            assert(id_views(missing1) =~= id_views(missing0).push(child@));
                        }
                    }
                    let below = descends_from(id, child);
                    let built = if below && registered {
                        build_node(store, child, bound, hide_finished, tree)
                    } else {
                        proof {
                            if below {
                                assert(store.events_of(child@).len() == 0);
                                assert(missing_of(*store, child@, hide_finished, bound as int) =~= seq![]);
                            }
                        }
                        None
                    };
                    proof {
                        let sub = if descends(id@, child@) && child@.len() <= bound {
                            missing_of(*store, child@, hide_finished, bound as int)
                        } else {
                            seq![]
                        };
                        assert(id_views(tree.missing_ids@) == id_views(missing1) + sub);
                        assert(missing_upto(*store, id@, n + 1, hide_finished, bound as int)
                            == missing_upto(*store, id@, n, hide_finished, bound as int) + (
                            if store.log(child@) is None {
                                seq![child@]
                            } else {
                                seq![]
                            }) + sub);
                        assert(id_views(tree.missing_ids@) =~= id_views(start_missing) + missing_upto(
                            *store,
                            id@,
                            n + 1,
                            hide_finished,
                            bound as int,
                        ));
                    }
                    let idx: usize = match built {
                        Some(ci) => {
                            if tree.nodes[ci].last_event_at > last {
                                last = tree.nodes[ci].last_event_at;
                            }
                            ci
                        },
                        None => {
                            let interval = match finished {
                                Some((result, at)) => BusyInterval {
                                    started_at: e.created_at,
                                    finished_at: Some(at),
                                    status: BusyStatus::ExecutionFinished(result),
                                },
                                None => BusyInterval {
                                    started_at: e.created_at,
                                    finished_at: None,
                                    status: BusyStatus::ExecutionUnfinishedWithoutPendingState,
                                },
                            };
                            let summary = TraceNode {
                                execution_id: child.clone(),
                                loaded: false,
                                scheduled_at: e.created_at,
                                last_event_at: e.created_at,
                                current_status: None,
                                busy: vec![interval],
                                children: Vec::new(),
                            };
                            let ghost nodes2 = tree.nodes@;
                            tree.nodes.push(summary);
                            proof {
                                lemma_tree_ok_extend(*store, nodes2, tree.nodes@, hide_finished);
                            }
                            tree.nodes.len() - 1
                        },
                    };
                    let ghost children0 = children@;
                    children.push(idx);
                    proof {
                        assert(tree.nodes@[idx as int].loaded == expands(*store, id@, child@));
                        assert forall|c: int| 0 <= c < children@.len() implies child_ok(
                            *store,
                            tree.nodes@,
                            rs,
                            id@,
                            last,
                            #[trigger] children@[c],
                            full_shown[c],
                        ) by {
                            if c < children0.len() {
                                assert(children@[c] == children0[c]);
                                assert(child_ok(*store, nodes0, rs, id@, last0, children0[c], full_shown[c]));
                                let ch = children0[c] as int;
                                assert(tree.nodes@[ch] == nodes0[ch]);
                            } else {
                                assert(c == n);
                                assert(children@[c] == idx);
                                assert(full_shown[c] == shown_c);
                                assert(tree.nodes@[idx as int].execution_id@ == child@);
                                assert(tree.nodes@[idx as int].loaded ==> last >= tree.nodes@[idx as int].last_event_at);
                                if !tree.nodes@[idx as int].loaded {
                                    assert(tree.nodes@[idx as int].busy@ == seq![summary_interval(shown_c.1, rs, shown_c.0)]);
                                    assert(tree.nodes@[idx as int].current_status is None);
                                }
                            }
                        }
                        if last != own_last {
                            if last == last0 {
                                let c = choose|c: int|
                                    0 <= c < children0.len() && nodes0[#[trigger] children0[c] as int].loaded
                                        && nodes0[children0[c] as int].last_event_at == last0;
                                assert(children@[c] == children0[c]);
                                assert(tree.nodes@[children0[c] as int] == nodes0[children0[c] as int]);
                            } else {
                                assert(children@[children0.len() as int] == idx);
                            }
                        }
                    }
                }
            },
        }
    }
    proof {
        assert(ev.take(ev.len() as int) =~= ev);
    }
    let busy = compute_busy_intervals(events, scheduled_at, last);
    let node = TraceNode {
        execution_id: id.clone(),
        loaded: true,
        scheduled_at,
        last_event_at: last,
        current_status: clone_status(&log.status),
        busy,
        children,
    };
    let ghost nodes3 = tree.nodes@;
    tree.nodes.push(node);
    proof {
        let p = nodes3.len() as int;
        let n = tree.nodes@[p];
        assert(n.execution_id@ == id@);
        let shown = shown_children(ev, rs, hide_finished);
        assert forall|c: int| 0 <= c < shown.len() implies #[trigger] n.children@[c] < p && child_ok(
            *store,
            tree.nodes@,
            rs,
            id@,
            n.last_event_at,
            n.children@[c],
            shown[c],
        ) by {
            let ch = n.children@[c] as int;
            assert(child_ok(*store, nodes3, rs, id@, last, n.children@[c], shown[c]));
            assert(tree.nodes@[ch] == nodes3[ch]);
        }
        if last != own_last {
            let c = choose|c: int|
                0 <= c < n.children@.len() && nodes3[#[trigger] n.children@[c] as int].loaded
                    && nodes3[n.children@[c] as int].last_event_at == last;
            assert(tree.nodes@[n.children@[c] as int] == nodes3[n.children@[c] as int]);
        }
        assert(loaded_node_ok(*store, tree.nodes@, p, hide_finished));
        lemma_tree_ok_extend(*store, nodes3, tree.nodes@, hide_finished);
    }
    Some(tree.nodes.len() - 1)
}

/// The trace tree of an execution and its children, or `None` while no event
/// of the execution is loaded. Children below the execution whose logs hold
/// events are built from them, recursively; the others are summarised from
/// the parent's responses. Children that are referenced but not registered
/// are listed as missing, depth first in request order.
pub fn compute_root_trace(store: &EventStore, execution_id: &ExecutionId, hide_finished: bool) -> (r:
    Option<TraceTree>)
    requires
        store.wf(),
    ensures
        r is None <==> store.events_of(execution_id@).len() == 0,
        match r {
            Some(t) => t.root < t.nodes@.len() && t.nodes@[t.root as int].loaded
                && t.nodes@[t.root as int].execution_id@ == execution_id@ && tree_ok(
                *store,
                t.nodes@,
                hide_finished,
            ) && id_views(t.missing_ids@) == missing_of(
                *store,
                execution_id@,
                hide_finished,
                longest_id(store.logs()) as int,
            ),
            None => true,
        },
{
    let mut tree = TraceTree { nodes: Vec::new(), root: 0, missing_ids: Vec::new() };
    if store.get(execution_id).is_none() {
        return None;
    }
    let bound = store.longest_id_len();
    proof {
        store.lemma_registered_id_len(execution_id@);
        assert forall|k: Seq<char>| #[trigger] store.log(k) is Some implies k.len() <= bound by {
            store.lemma_registered_id_len(k);
        }
        assert(id_views(tree.missing_ids@) =~= seq![]);
    }
    match build_node(store, execution_id, bound, hide_finished, &mut tree) {
        Some(i) => {
            tree.root = i;
            proof {
                assert(id_views(tree.missing_ids@) =~= seq![] + missing_of(
                    *store,
                    execution_id@,
                    hide_finished,
                    bound as int,
                ));
            }
            Some(tree)
        },
        None => None,
    }
}

/// Registers every missing child for loading, as the autoload setting of the
/// trace view does; executions already registered are left as they are.
pub fn load_missing(store: &mut EventStore, missing_ids: &Vec<ExecutionId>)
    requires
        old(store).wf(),
    ensures
        final(store).wf(),
        forall|i: int| 0 <= i < missing_ids@.len() ==> final(store).log((#[trigger] missing_ids@[i])@) is Some,
        forall|k: Seq<char>| old(store).log(k) is Some ==> #[trigger] final(store).log(k) == old(store).log(k),
        forall|k: Seq<char>|
            (forall|i: int| 0 <= i < missing_ids@.len() ==> (#[trigger] missing_ids@[i])@ != k)
                ==> #[trigger] final(store).log(k) == old(store).log(k),
{
    for i in 0..missing_ids.len()
        invariant
            store.wf(),
            forall|j: int| 0 <= j < i ==> store.log((#[trigger] missing_ids@[j])@) is Some,
            forall|k: Seq<char>| old(store).log(k) is Some ==> #[trigger] store.log(k) == old(store).log(k),
            forall|k: Seq<char>|
                (forall|j: int| 0 <= j < i ==> (#[trigger] missing_ids@[j])@ != k)
                    ==> #[trigger] store.log(k) == old(store).log(k),
    {
        store.add_execution_id(missing_ids[i].clone());
    }
}

/// The name a child is shown under: its id without the parent's id and the
/// separator when it lies below the parent, else its whole id.
pub open spec fn child_name(parent: Seq<char>, child: Seq<char>) -> Seq<char> {
    if descends(parent, child) {
        child.skip(parent.len() + 1int)
    } else {
        child
    }
}

/// The name a child execution is shown under in its parent's trace.
pub fn child_display_name(parent: &ExecutionId, child: &ExecutionId) -> (r: String)
    ensures
        r@ == child_name(parent@, child@),
{
    if descends_from(parent, child) {
        let pn = parent.id.as_str().unicode_len();
        let cn = child.id.as_str().unicode_len();
        child.id.as_str().substring_char(pn + 1, cn).to_string()
    } else {
        child.id.clone()
    }
}

} // verus!
