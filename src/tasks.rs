use crate::events::{
    EventKind, ExecutionEvent, JoinSetRequestKind, JoinSetResponse, JoinSetResponseEvent, Version,
};
use crate::join::{match_at, response_at_version};
use vstd::prelude::*;

verus! {

/// The task (child execution or delay, by its id) that an event requests.
pub open spec fn requested_task(e: ExecutionEvent) -> Option<Seq<char>> {
    match e.event {
        EventKind::JoinSetRequest { request, .. } => match request {
            JoinSetRequestKind::ChildExecutionRequest { child_execution_id } => Some(
                child_execution_id@,
            ),
            JoinSetRequestKind::DelayRequest { delay_id } => Some(delay_id@),
        },
        _ => None,
    }
}

/// The task whose completion a response reports.
pub open spec fn response_task(r: JoinSetResponseEvent) -> Seq<char> {
    match r.response {
        JoinSetResponse::ChildExecutionFinished { child_execution_id, .. } => child_execution_id@,
        JoinSetResponse::DelayFinished { delay_id } => delay_id@,
    }
}

/// The task that a `JoinNext` event consumed, by its paired response.
pub open spec fn consumed_task(e: ExecutionEvent, ms: Seq<(Version, JoinSetResponseEvent)>) -> Option<
    Seq<char>,
> {
    if e.event is JoinNext {
        match match_at(ms, e.version) {
            Some(r) => Some(response_task(r)),
            None => None,
        }
    } else {
        None
    }
}

/// For each task requested in the log: (version of the request, version of
/// the wait that consumed it or `last_version` while none did, consumed).
/// A task requested again starts over.
pub open spec fn task_spans(
    events: Seq<ExecutionEvent>,
    ms: Seq<(Version, JoinSetResponseEvent)>,
    last_version: Version,
) -> Map<Seq<char>, (Version, Version, bool)>
    decreases events.len(),
{
    if events.len() == 0 {
        Map::empty()
    } else {
        let prev = task_spans(events.drop_last(), ms, last_version);
        let e = events.last();
        match requested_task(e) {
            Some(t) => prev.insert(t, (e.version, last_version, false)),
            None => match consumed_task(e, ms) {
                Some(t) => if prev.contains_key(t) {
                    prev.insert(t, (prev[t].0, e.version, true))
                } else {
                    prev
                },
                None => prev,
            },
        }
    }
}

/// The span of one task in an execution's log.
#[derive(Debug)]
pub struct TaskSpan {
    pub task_id: String,
    pub start_version: Version,
    pub end_version: Version,
    pub is_completed: bool,
}

/// The map that a list of spans describes: a later span of a task wins.
pub open spec fn span_map(spans: Seq<TaskSpan>) -> Map<Seq<char>, (Version, Version, bool)>
    decreases spans.len(),
{
    if spans.len() == 0 {
        Map::empty()
    } else {
        span_map(spans.drop_last()).insert(
            spans.last().task_id@,
            (spans.last().start_version, spans.last().end_version, spans.last().is_completed),
        )
    }
}

proof fn lemma_span_map_contains(spans: Seq<TaskSpan>, k: Seq<char>)
    ensures
        span_map(spans).contains_key(k) <==> exists|i: int|
            0 <= i < spans.len() && (#[trigger] spans[i]).task_id@ == k,
    decreases spans.len(),
{
    if spans.len() > 0 {
        lemma_span_map_contains(spans.drop_last(), k);
        if span_map(spans.drop_last()).contains_key(k) {
            let i = choose|i: int| 0 <= i < spans.drop_last().len() && (#[trigger] spans.drop_last()[i]).task_id@ == k;
            assert(spans[i] == spans.drop_last()[i]);
        }
        if exists|i: int| 0 <= i < spans.len() && (#[trigger] spans[i]).task_id@ == k {
            let i = choose|i: int| 0 <= i < spans.len() && (#[trigger] spans[i]).task_id@ == k;
            if i < spans.len() - 1 {
                assert(spans.drop_last()[i] == spans[i]);
            }
        }
    }
}

proof fn lemma_span_map_update(spans: Seq<TaskSpan>, i: int, s: TaskSpan)
    requires
        0 <= i < spans.len(),
        spans[i].task_id@ == s.task_id@,
        forall|j: int| i < j < spans.len() ==> (#[trigger] spans[j]).task_id@ != s.task_id@,
    ensures
        span_map(spans.update(i, s)) == span_map(spans).insert(
            s.task_id@,
            (s.start_version, s.end_version, s.is_completed),
        ),
    decreases spans.len(),
{
    let v = (s.start_version, s.end_version, s.is_completed);
    if i == spans.len() - 1 {
        assert(spans.update(i, s).drop_last() =~= spans.drop_last());
        assert(span_map(spans.update(i, s)) =~= span_map(spans).insert(s.task_id@, v));
    } else {
        assert(spans.update(i, s).drop_last() =~= spans.drop_last().update(i, s));
        lemma_span_map_update(spans.drop_last(), i, s);
        assert(span_map(spans.update(i, s)) =~= span_map(spans).insert(s.task_id@, v));
    }
}

fn find_span(spans: &Vec<TaskSpan>, task: &String) -> (r: Option<usize>)
    ensures
        match r {
            None => !span_map(spans@).contains_key(task@),
            Some(i) => i < spans@.len() && spans@[i as int].task_id@ == task@ && forall|j: int|
                i < j < spans@.len() ==> (#[trigger] spans@[j]).task_id@ != task@,
        },
{
    let mut i = spans.len();
    while i > 0
        invariant
            i <= spans@.len(),
            forall|j: int| i <= j < spans@.len() ==> (#[trigger] spans@[j]).task_id@ != task@,
        decreases i,
    {
        if spans[i - 1].task_id == *task {
            return Some(i - 1);
        }
        i = i - 1;
    }
    proof {
        lemma_span_map_contains(spans@, task@);
    }
    None
}

proof fn lemma_span_map_at(spans: Seq<TaskSpan>, i: int)
    requires
        0 <= i < spans.len(),
        forall|j: int| i < j < spans.len() ==> (#[trigger] spans[j]).task_id@ != spans[i].task_id@,
    ensures
        span_map(spans).contains_key(spans[i].task_id@),
        span_map(spans)[spans[i].task_id@] == (
            spans[i].start_version,
            spans[i].end_version,
            spans[i].is_completed,
        ),
    decreases spans.len(),
{
    if i < spans.len() - 1 {
        assert forall|j: int| i < j < spans.drop_last().len() implies (#[trigger] spans.drop_last()[j]).task_id@ != spans.drop_last()[i].task_id@ by {
            assert(spans.drop_last()[j] == spans[j]);
        }
        lemma_span_map_at(spans.drop_last(), i);
    }
}

/// Follows each task through the log: where it was requested and where the
/// wait that consumed it stands, for the links between the two.
pub fn compute_task_spans(
    events: &Vec<ExecutionEvent>,
    join_matches: &Vec<(Version, JoinSetResponseEvent)>,
    last_version: Version,
) -> (r: Vec<TaskSpan>)
    ensures
        span_map(r@) == task_spans(events@, join_matches@, last_version),
{
    let mut spans: Vec<TaskSpan> = Vec::new();
    for i in 0..events.len()
        invariant
            span_map(spans@) == task_spans(events@.take(i as int), join_matches@, last_version),
    {
        proof {
            assert(events@.take(i as int + 1).drop_last() =~= events@.take(i as int));
            assert(events@.take(i as int + 1).last() == events@[i as int]);
        }
        let e = &events[i];
        let requested: Option<String> = match &e.event {
            EventKind::JoinSetRequest { request, .. } => match request {
                JoinSetRequestKind::ChildExecutionRequest { child_execution_id } => Some(
                    child_execution_id.id.clone(),
                ),
                JoinSetRequestKind::DelayRequest { delay_id } => Some(delay_id.id.clone()),
            },
            _ => None,
        };
        match requested {
            Some(task) => {
                let span = TaskSpan {
                    task_id: task,
                    start_version: e.version,
                    end_version: last_version,
                    is_completed: false,
                };
                let ghost gs = span;
                match find_span(&spans, &span.task_id) {
                    Some(j) => {
                        let ghost before = spans@;
                        spans.set(j, span);
                        proof {
                            lemma_span_map_update(before, j as int, gs);
                        }
                    },
                    None => {
                        let ghost before = spans@;
                        spans.push(span);
                        proof {
                            assert(spans@.drop_last() =~= before);
                        }
                    },
                }
            },
            None => {
                let is_join_next = match &e.event {
                    EventKind::JoinNext { .. } => true,
                    _ => false,
                };
                if is_join_next {
                    match response_at_version(join_matches, e.version) {
                        Some(resp) => {
                            let task = match &resp.response {
                                JoinSetResponse::ChildExecutionFinished {
                                    child_execution_id,
                                    ..
                                } => child_execution_id.id.clone(),
                                JoinSetResponse::DelayFinished { delay_id } => delay_id.id.clone(),
                            };
                            match find_span(&spans, &task) {
                                Some(j) => {
                                    let span = TaskSpan {
                                        task_id: task,
                                        start_version: spans[j].start_version,
                                        end_version: e.version,
                                        is_completed: true,
                                    };
                                    let ghost gs = span;
                                    let ghost before = spans@;
                                    proof {
                                        lemma_span_map_at(before, j as int);
                                    }
                                    spans.set(j, span);
                                    proof {
                                        lemma_span_map_update(before, j as int, gs);
                                    }
                                },
                                None => {},
                            }
                        },
                        None => {},
                    }
                }
            },
        }
    }
    proof {
        assert(events@.take(events@.len() as int) =~= events@);
    }
    spans
}

} // verus!
