use webui::backtrace::{
    BacktraceCache, BacktraceError, BacktraceFilter, BacktraceResponse, BacktraceStatus,
    FrameInfo, FrameSymbol, SourceCache, SourceCodeState, WasmBacktrace,
};
use webui::debugger::{
    child_request_version, compute_ancestry, step_into_target, step_next, step_out_target,
    step_prev, StepOut,
};
use webui::events::{
    EventKind, ExecutionEvent, ExecutionStatus, FinishedResult, JoinSetRequestKind, JoinSetResponse,
    JoinSetResponseEvent, ResponseWithCursor,
};
use webui::ids::{ComponentId, ComponentType, DelayId, ExecutionId, JoinSetId, JoinSetKind};
use webui::join::{compute_join_next_to_response, execution_bounds, get_parent_execution_bounds, response_at_version};
use webui::pagination::{next_cursors, Cursors, FetchState, PAGE};
use webui::store::{EventStore, PageAction};
use webui::trace::{
    child_execution_finished, compute_busy_intervals, compute_last_event_at, compute_root_trace,
    BusyInterval, BusyStatus,
};
use webui::version_path::BacktraceVersionsPath;
use webui::trace::child_display_name;
use webui::debugger::{is_listed_in_debugger, is_listed_in_trace, is_selected};

fn eid(s: &str) -> ExecutionId {
    ExecutionId { id: s.to_string() }
}

fn js(name: &str) -> JoinSetId {
    JoinSetId { kind: JoinSetKind::OneOff, name: name.to_string() }
}

fn ev(version: u32, at: i64, event: EventKind) -> ExecutionEvent {
    ExecutionEvent { version, created_at: at, backtrace_id: None, event }
}

fn child_request(version: u32, at: i64, set: &str, child: &str) -> ExecutionEvent {
    ev(
        version,
        at,
        EventKind::JoinSetRequest {
            join_set_id: js(set),
            request: JoinSetRequestKind::ChildExecutionRequest { child_execution_id: eid(child) },
        },
    )
}

fn join_next(version: u32, at: i64, set: &str) -> ExecutionEvent {
    ev(version, at, EventKind::JoinNext { join_set_id: js(set) })
}

fn child_done(at: i64, set: &str, child: &str) -> JoinSetResponseEvent {
    JoinSetResponseEvent {
        created_at: at,
        join_set_id: js(set),
        response: JoinSetResponse::ChildExecutionFinished {
            child_execution_id: eid(child),
            result: FinishedResult::Succeeded,
        },
    }
}

fn delay_done(at: i64, set: &str, delay: &str) -> JoinSetResponseEvent {
    JoinSetResponseEvent {
        created_at: at,
        join_set_id: js(set),
        response: JoinSetResponse::DelayFinished { delay_id: DelayId { id: delay.to_string() } },
    }
}

fn with_cursor(cursor: u32, event: JoinSetResponseEvent) -> ResponseWithCursor {
    ResponseWithCursor { cursor, event }
}

#[test]
fn store_appends_pages_in_order() {
    let mut store = EventStore::new();
    let id = eid("E1");
    store.add_execution_id(id.clone());
    store.append(&id, vec![ev(0, 10, EventKind::Created { scheduled_at: 5 }), ev(1, 11, EventKind::Other)], vec![]);
    store.append(&id, vec![ev(2, 12, EventKind::Other)], vec![with_cursor(3, delay_done(12, "a", "D1"))]);
    let log = store.get(&id).unwrap();
    let versions: Vec<u32> = log.events.iter().map(|e| e.version).collect();
    assert_eq!(versions, vec![0, 1, 2]);
    assert_eq!(log.responses.len(), 1);
    assert!(store.get(&eid("E2")).is_none());
}

#[test]
fn add_execution_id_requests_first_page_once() {
    let mut store = EventStore::new();
    let id = eid("E1");
    store.add_execution_id(id.clone());
    assert_eq!(store.get(&id).unwrap().fetch_state, FetchState::Requested(Cursors { version_from: 0, responses_cursor_from: 0 }));
    let reqs = store.take_requested();
    assert_eq!(reqs.len(), 1);
    assert_eq!(reqs[0].execution_id, id);
    assert_eq!(reqs[0].events_length, PAGE);
    assert!(reqs[0].responses_including_cursor);
    assert_eq!(store.get(&id).unwrap().fetch_state, FetchState::Pending);
    store.add_execution_id(id.clone());
    assert!(store.take_requested().is_empty());
}

#[test]
fn finished_page_stops_fetching() {
    let mut store = EventStore::new();
    let id = eid("E1");
    store.add_execution_id(id.clone());
    let reqs = store.take_requested();
    assert_eq!(reqs.len(), 1);
    let action = store.save_page(
        &id,
        Cursors { version_from: 0, responses_cursor_from: 0 },
        vec![
            ev(0, 10, EventKind::Created { scheduled_at: 10 }),
            ev(1, 20, EventKind::Finished { result: FinishedResult::Succeeded }),
        ],
        vec![],
        ExecutionStatus::Finished { result: FinishedResult::Succeeded },
    );
    assert_eq!(action, PageAction::Stop);
    assert_eq!(store.get(&id).unwrap().fetch_state, FetchState::Finished);
    assert!(store.take_requested().is_empty());
    store.request_next_page(&id, Cursors { version_from: 2, responses_cursor_from: 0 });
    assert_eq!(store.get(&id).unwrap().fetch_state, FetchState::Finished);
    assert!(store.take_requested().is_empty());
}

#[test]
fn unfinished_page_continues_from_next_cursors() {
    let mut store = EventStore::new();
    let id = eid("E1");
    store.add_execution_id(id.clone());
    store.take_requested();
    let action = store.save_page(
        &id,
        Cursors { version_from: 0, responses_cursor_from: 0 },
        vec![ev(0, 10, EventKind::Created { scheduled_at: 10 }), ev(1, 11, EventKind::Other)],
        vec![with_cursor(7, delay_done(11, "a", "D1"))],
        ExecutionStatus::BlockedByJoinSet { join_set_id: js("a") },
    );
    assert!(matches!(
        &store.get(&id).unwrap().status,
        Some(ExecutionStatus::BlockedByJoinSet { join_set_id }) if join_set_id == &js("a")
    ));
    let next = Cursors { version_from: 2, responses_cursor_from: 7 };
    assert_eq!(action, PageAction::ContinueAfterDelay(next));
    assert_eq!(store.get(&id).unwrap().fetch_state, FetchState::Pending);
    store.request_next_page(&id, next);
    let reqs = store.take_requested();
    assert_eq!(reqs.len(), 1);
    assert_eq!(reqs[0].version_from, 2);
    assert_eq!(reqs[0].responses_cursor_from, 7);
    assert!(!reqs[0].responses_including_cursor);
}

#[test]
fn empty_page_keeps_cursors() {
    let prev = Cursors { version_from: 4, responses_cursor_from: 9 };
    assert_eq!(next_cursors(prev, &vec![], &vec![]), prev);
    let last = vec![ev(u32::MAX, 1, EventKind::Other)];
    assert_eq!(next_cursors(prev, &last, &vec![]).version_from, u32::MAX);
}

#[test]
fn join_next_pairs_kth_wait_with_kth_response() {
    let events = vec![
        join_next(1, 1, "a"),
        join_next(2, 2, "b"),
        ev(3, 3, EventKind::JoinNextTry { join_set_id: js("a") }),
        join_next(4, 4, "a"),
    ];
    let responses = vec![delay_done(1, "a", "D1"), delay_done(2, "b", "D2"), delay_done(3, "a", "D3")];
    let ms = compute_join_next_to_response(&events, &responses);
    let pairs: Vec<(u32, String)> = ms
        .iter()
        .map(|(v, r)| match &r.response {
            JoinSetResponse::DelayFinished { delay_id } => (*v, delay_id.id.clone()),
            _ => (*v, String::new()),
        })
        .collect();
    assert_eq!(pairs, vec![(1, "D1".to_string()), (2, "D2".to_string()), (3, "D3".to_string())]);
    assert!(response_at_version(&ms, 4).is_none());
    assert!(response_at_version(&ms, 2).is_some());
}

#[test]
fn parent_bounds_of_child() {
    let mut events = vec![ev(0, 0, EventKind::Created { scheduled_at: 0 })];
    for v in 1..5 {
        events.push(ev(v, v as i64, EventKind::Other));
    }
    events.push(child_request(5, 5, "c", "P.c"));
    for v in 6..9 {
        events.push(ev(v, v as i64, EventKind::Other));
    }
    events.push(join_next(9, 9, "c"));
    let responses = vec![child_done(8, "c", "P.c")];
    assert_eq!(execution_bounds(&events, &responses, &eid("P.c")), (Some(5), Some(9)));
    assert_eq!(execution_bounds(&events, &vec![], &eid("P.c")), (Some(5), None));
    assert_eq!(execution_bounds(&events, &responses, &eid("P.x")), (None, None));

    let mut store = EventStore::new();
    store.append(&eid("P"), events, responses.into_iter().map(|e| with_cursor(1, e)).collect());
    assert_eq!(get_parent_execution_bounds(&store, &eid("P"), &eid("P.c")), (Some(5), Some(9)));
    assert_eq!(get_parent_execution_bounds(&store, &eid("Q"), &eid("P.c")), (None, None));
}

#[test]
fn step_into_child_from_request_and_from_join_next() {
    let events = vec![
        ev(0, 0, EventKind::Created { scheduled_at: 0 }),
        ev(1, 1, EventKind::Locked { lock_expires_at: 100 }),
        child_request(2, 2, "o1", "E1.0"),
        join_next(3, 3, "o1"),
    ];
    let responses = vec![child_done(3, "o1", "E1.0")];
    let ms = compute_join_next_to_response(&events, &responses);
    let path = BacktraceVersionsPath(vec![0]);
    let (child, p) = step_into_target(&events, &ms, 2, 3, &path).unwrap();
    assert_eq!(child, eid("E1.0"));
    assert_eq!(p.0, vec![0, 0]);
    let (child, p) = step_into_target(&events, &ms, 3, 4, &path).unwrap();
    assert_eq!(child, eid("E1.0"));
    assert_eq!(p.0, vec![0, 0]);
    assert!(step_into_target(&events, &ms, 1, 2, &path).is_none());
    assert!(step_into_target(&events, &ms, 9, 10, &path).is_none());
    assert_eq!(child_request_version(1, 4), 2);
    assert_eq!(child_request_version(1, 3), 1);
}

#[test]
fn step_prev_and_next_find_nearest_backtraces() {
    let mut events = Vec::new();
    for v in 0..10u32 {
        let mut e = ev(v, v as i64, EventKind::Other);
        if v % 3 == 0 {
            e.backtrace_id = Some(v);
        }
        events.push(e);
    }
    assert_eq!(step_prev(&events, 6), Some(3));
    assert_eq!(step_prev(&events, 0), None);
    assert_eq!(step_next(&events, 4), Some(6));
    assert_eq!(step_next(&events, 6), Some(6));
    assert_eq!(step_next(&events, 10), None);
}

#[test]
fn ancestry_runs_from_leaf_to_root() {
    let a = compute_ancestry(&eid("R.a.b"), &BacktraceVersionsPath(vec![1, 2, 3]));
    let got: Vec<(String, Vec<u32>)> = a.into_iter().map(|(i, p)| (i.id, p.0)).collect();
    assert_eq!(
        got,
        vec![
            ("R.a.b".to_string(), vec![1, 2, 3]),
            ("R.a".to_string(), vec![1, 2]),
            ("R".to_string(), vec![1]),
        ]
    );
    let short = compute_ancestry(&eid("R.a.b"), &BacktraceVersionsPath(vec![3]));
    assert_eq!(short.len(), 1);
}

#[test]
fn step_out_targets() {
    let mut store = EventStore::new();
    let parent_events = vec![
        ev(0, 0, EventKind::Created { scheduled_at: 0 }),
        child_request(1, 1, "o", "P.c"),
        join_next(2, 2, "o"),
    ];
    store.append(&eid("P"), parent_events, vec![with_cursor(0, child_done(2, "o", "P.c"))]);
    match step_out_target(&store, &eid("P.c"), &BacktraceVersionsPath(vec![7, 0]), true) {
        StepOut::To { execution_id, versions } => {
            assert_eq!(execution_id, eid("P"));
            assert_eq!(versions.0, vec![1]);
        }
        other => panic!("unexpected {other:?}"),
    }
    match step_out_target(&store, &eid("P.c"), &BacktraceVersionsPath(vec![0]), false) {
        StepOut::Disabled => {}
        other => panic!("unexpected {other:?}"),
    }
    match step_out_target(&store, &eid("P"), &BacktraceVersionsPath(vec![0]), true) {
        StepOut::Disabled => {}
        other => panic!("unexpected {other:?}"),
    }
    let mut store2 = EventStore::new();
    store2.append(
        &eid("P"),
        vec![
            ev(0, 0, EventKind::Created { scheduled_at: 0 }),
            child_request(1, 1, "n", "P.c"),
            ev(2, 2, EventKind::Other),
            join_next(3, 3, "n"),
        ],
        vec![with_cursor(0, child_done(2, "n", "P.c"))],
    );
    match step_out_target(&store2, &eid("P.c"), &BacktraceVersionsPath(vec![5, 0]), true) {
        StepOut::StartEnd { execution_id, start, end } => {
            assert_eq!(execution_id, eid("P"));
            assert_eq!(start.0, vec![1]);
            assert_eq!(end.unwrap().0, vec![3]);
        }
        other => panic!("unexpected {other:?}"),
    }
}

fn sample_backtrace() -> BacktraceResponse {
    let cid = ComponentId {
        component_type: ComponentType::Workflow,
        name: "wf".to_string(),
        digest: "d".to_string(),
    };
    BacktraceResponse {
        component_id: cid,
        wasm_backtrace: WasmBacktrace {
            version_min_including: 2,
            version_max_excluding: 3,
            frames: vec![FrameInfo {
                module: "m".to_string(),
                func_name: "f".to_string(),
                symbols: vec![
                    FrameSymbol { func_name: None, file: Some("src/lib.rs".to_string()), line: Some(3), col: None },
                    FrameSymbol { func_name: None, file: None, line: None, col: None },
                    FrameSymbol { func_name: None, file: Some("src/lib.rs".to_string()), line: Some(9), col: None },
                ],
            }],
        },
    }
}

#[test]
fn backtrace_fetched_once_per_key() {
    let mut cache = BacktraceCache::new();
    let id = eid("E1");
    assert_eq!(cache.request(&id, 0), Some(BacktraceFilter::First));
    assert_eq!(cache.request(&id, 0), None);
    assert_eq!(cache.request(&id, 4), Some(BacktraceFilter::Specific(4)));
    assert_eq!(cache.status(&id, 4), BacktraceStatus::Loading);
    cache.record(&id, 4, Ok(sample_backtrace()));
    assert_eq!(cache.status(&id, 4), BacktraceStatus::Loaded);
    assert_eq!(cache.get(&id, 4).unwrap().wasm_backtrace.version_min_including, 2);
    assert_eq!(cache.request(&id, 4), None);
}

#[test]
fn backtrace_not_found_is_shown_and_not_retried() {
    let mut cache = BacktraceCache::new();
    let id = eid("E1");
    assert_eq!(cache.request(&id, 0), Some(BacktraceFilter::First));
    cache.record(&id, 0, Err(BacktraceError::NotFound));
    assert_eq!(cache.status(&id, 0), BacktraceStatus::NotFound);
    assert_eq!(cache.request(&id, 0), None);
    cache.record(&id, 0, Err(BacktraceError::Other));
    assert_eq!(cache.status(&id, 0), BacktraceStatus::NotFound);
    assert_eq!(cache.status(&id, 1), BacktraceStatus::Loading);
    cache.record(&id, 1, Err(BacktraceError::Other));
    assert_eq!(cache.status(&id, 1), BacktraceStatus::Failed);
}

#[test]
fn sources_requested_once_and_recorded() {
    let b = sample_backtrace();
    let mut sources = SourceCache::new();
    sources.request_files_of(&b);
    let wanted = sources.take_requested();
    assert_eq!(wanted.len(), 1);
    assert_eq!(wanted[0].1, "src/lib.rs");
    assert!(sources.take_requested().is_empty());
    sources.request_files_of(&b);
    assert!(sources.take_requested().is_empty());
    let file = "src/lib.rs".to_string();
    match sources.get(&b.component_id, &file) {
        Some(SourceCodeState::InFlight) => {}
        other => panic!("unexpected {other:?}"),
    }
    sources.record(&b.component_id, &file, Some(vec!["a".to_string(), "b".to_string()]));
    match sources.get(&b.component_id, &file) {
        Some(SourceCodeState::Found(lines)) => {
            assert_eq!(lines, &vec![("a".to_string(), 1), ("b".to_string(), 2)]);
        }
        other => panic!("unexpected {other:?}"),
    }
    let other = "other.rs".to_string();
    sources.record(&b.component_id, &other, None);
    assert!(matches!(sources.get(&b.component_id, &other), Some(SourceCodeState::NotFoundOrErr)));
}

#[test]
fn busy_intervals_follow_locks() {
    let events = vec![
        ev(0, 0, EventKind::Created { scheduled_at: 5 }),
        ev(1, 10, EventKind::Locked { lock_expires_at: 50 }),
        ev(2, 20, EventKind::Locked { lock_expires_at: 60 }),
        ev(3, 30, EventKind::TemporarilyFailed),
        ev(4, 40, EventKind::Locked { lock_expires_at: 90 }),
    ];
    let busy = compute_busy_intervals(&events, 5, 40);
    assert_eq!(
        busy,
        vec![
            BusyInterval { started_at: 5, finished_at: Some(40), status: BusyStatus::ExecutionSinceScheduled },
            BusyInterval { started_at: 10, finished_at: Some(50), status: BusyStatus::ExecutionLocked },
            BusyInterval { started_at: 20, finished_at: Some(30), status: BusyStatus::ExecutionErrorTemporary },
            BusyInterval { started_at: 40, finished_at: None, status: BusyStatus::ExecutionUnfinishedWithoutPendingState },
        ]
    );
    let finished = vec![
        ev(0, 0, EventKind::Created { scheduled_at: 0 }),
        ev(1, 7, EventKind::Finished { result: FinishedResult::FallibleError }),
    ];
    assert_eq!(
        compute_busy_intervals(&finished, 0, 7)[1],
        BusyInterval { started_at: 0, finished_at: Some(7), status: BusyStatus::ExecutionFinished(FinishedResult::FallibleError) }
    );
}

#[test]
fn last_event_at_considers_last_responses_until_finished() {
    let last = ev(3, 30, EventKind::Other);
    let rs = vec![delay_done(50, "a", "D1"), delay_done(40, "a", "D2"), delay_done(35, "b", "D3")];
    assert_eq!(compute_last_event_at(&last, false, &rs), 40);
    assert_eq!(compute_last_event_at(&last, true, &rs), 30);
    assert_eq!(compute_last_event_at(&last, false, &vec![]), 30);
    assert_eq!(child_execution_finished(&vec![child_done(9, "a", "P.c")], &eid("P.c")), Some((FinishedResult::Succeeded, 9)));
    assert_eq!(child_execution_finished(&vec![child_done(9, "a", "P.c")], &eid("P.d")), None);
}

#[test]
fn root_trace_builds_loaded_and_summary_children() {
    let mut store = EventStore::new();
    assert!(compute_root_trace(&store, &eid("R"), false).is_none());
    store.add_execution_id(eid("R"));
    assert!(compute_root_trace(&store, &eid("R"), false).is_none());
    store.append(
        &eid("R"),
        vec![
            ev(0, 0, EventKind::Created { scheduled_at: 0 }),
            child_request(1, 10, "o", "R.a"),
            child_request(2, 11, "o", "R.b"),
            join_next(3, 12, "o"),
        ],
        vec![with_cursor(0, child_done(15, "o", "R.b"))],
    );
    store.append(
        &eid("R.a"),
        vec![ev(0, 20, EventKind::Created { scheduled_at: 20 }), ev(1, 80, EventKind::Other)],
        vec![],
    );
    let tree = compute_root_trace(&store, &eid("R"), false).unwrap();
    let root = &tree.nodes[tree.root];
    assert_eq!(root.execution_id, eid("R"));
    assert_eq!(root.children.len(), 2);
    let a = &tree.nodes[root.children[0]];
    let b = &tree.nodes[root.children[1]];
    assert!(a.loaded);
    assert_eq!(a.execution_id, eid("R.a"));
    assert!(!b.loaded);
    assert_eq!(b.busy, vec![BusyInterval { started_at: 11, finished_at: Some(15), status: BusyStatus::ExecutionFinished(FinishedResult::Succeeded) }]);
    assert_eq!(root.last_event_at, 80);
    assert_eq!(tree.missing_ids, vec![eid("R.b")]);

    let hidden = compute_root_trace(&store, &eid("R"), true).unwrap();
    assert_eq!(hidden.nodes[hidden.root].children.len(), 1);
    assert!(hidden.missing_ids.is_empty());
}

#[test]
fn autoload_registers_missing_children() {
    let mut store = EventStore::new();
    store.append(
        &eid("R"),
        vec![ev(0, 0, EventKind::Created { scheduled_at: 0 }), child_request(1, 1, "o", "R.a")],
        vec![],
    );
    let tree = compute_root_trace(&store, &eid("R"), false).unwrap();
    assert_eq!(tree.missing_ids, vec![eid("R.a")]);
    webui::trace::load_missing(&mut store, &tree.missing_ids);
    assert_eq!(
        store.get(&eid("R.a")).unwrap().fetch_state,
        FetchState::Requested(Cursors { version_from: 0, responses_cursor_from: 0 })
    );
    let again = compute_root_trace(&store, &eid("R"), false).unwrap();
    assert!(again.missing_ids.is_empty());
}

#[test]
fn child_names_drop_the_parent_prefix() {
    assert_eq!(child_display_name(&eid("E1"), &eid("E1.o:2")), "o:2");
    assert_eq!(child_display_name(&eid("E1"), &eid("E2.o:2")), "E2.o:2");
    assert_eq!(child_display_name(&eid("E1"), &eid("E1")), "E1");
    assert_eq!(child_display_name(&eid("E1"), &eid("E1x")), "E1x");
}

#[test]
fn log_filters_and_selection() {
    let created = ev(0, 0, EventKind::Created { scheduled_at: 0 });
    let locked = ev(1, 1, EventKind::Locked { lock_expires_at: 9 });
    let mut other = ev(2, 2, EventKind::Other);
    assert!(is_listed_in_debugger(&created));
    assert!(!is_listed_in_debugger(&other));
    other.backtrace_id = Some(2);
    assert!(is_listed_in_debugger(&other));
    assert!(!is_listed_in_trace(&locked));
    assert!(is_listed_in_trace(&created));
    assert!(is_selected(3, 3, 4));
    assert!(!is_selected(4, 3, 4));
}

#[test]
fn page_status_is_kept_and_shown_on_the_root() {
    let mut store = EventStore::new();
    let id = eid("R");
    store.add_execution_id(id.clone());
    assert!(store.get(&id).unwrap().status.is_none());
    store.take_requested();
    store.save_page(
        &id,
        Cursors { version_from: 0, responses_cursor_from: 0 },
        vec![ev(0, 0, EventKind::Created { scheduled_at: 0 })],
        vec![],
        ExecutionStatus::PendingAt { scheduled_at: Some(0) },
    );
    store.save_page(
        &id,
        Cursors { version_from: 1, responses_cursor_from: 0 },
        vec![ev(1, 5, EventKind::Locked { lock_expires_at: 50 })],
        vec![],
        ExecutionStatus::Locked { lock_expires_at: Some(50) },
    );
    assert!(matches!(store.get(&id).unwrap().status, Some(ExecutionStatus::Locked { lock_expires_at: Some(50) })));
    let tree = compute_root_trace(&store, &id, false).unwrap();
    assert!(matches!(tree.nodes[tree.root].current_status, Some(ExecutionStatus::Locked { lock_expires_at: Some(50) })));
}

#[test]
fn take_requested_issues_one_request_per_requested_execution() {
    let mut store = EventStore::new();
    store.add_execution_id(eid("A"));
    store.add_execution_id(eid("B"));
    store.add_execution_id(eid("C"));
    let first = store.take_requested();
    let ids: Vec<String> = first.iter().map(|r| r.execution_id.id.clone()).collect();
    assert_eq!(ids, vec!["A".to_string(), "B".to_string(), "C".to_string()]);
    store.request_next_page(&eid("B"), Cursors { version_from: 3, responses_cursor_from: 2 });
    let second = store.take_requested();
    assert_eq!(second.len(), 1);
    assert_eq!(second[0].execution_id, eid("B"));
    assert_eq!(second[0].version_from, 3);
}

#[test]
fn missing_ids_follow_depth_first_request_order() {
    let mut store = EventStore::new();
    store.append(
        &eid("R"),
        vec![
            ev(0, 0, EventKind::Created { scheduled_at: 0 }),
            child_request(1, 1, "o", "R.a"),
            child_request(2, 2, "o", "R.x"),
        ],
        vec![],
    );
    store.append(
        &eid("R.a"),
        vec![ev(0, 3, EventKind::Created { scheduled_at: 3 }), child_request(1, 4, "p", "R.a.y")],
        vec![],
    );
    let tree = compute_root_trace(&store, &eid("R"), false).unwrap();
    assert_eq!(tree.missing_ids, vec![eid("R.a.y"), eid("R.x")]);
    let root = &tree.nodes[tree.root];
    assert!(tree.nodes[root.children[0]].loaded);
    assert!(!tree.nodes[root.children[1]].loaded);
}
