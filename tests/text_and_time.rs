use webui::events::{EventKind, ExecutionEvent, JoinSetRequestKind, JoinSetResponse, JoinSetResponseEvent};
use webui::ids::{ComponentId, ComponentType, DelayId, ExecutionId, JoinSetId, JoinSetKind};
use webui::join::compute_join_next_to_response;
use webui::tasks::compute_task_spans;
use webui::text::{parse_u32, split_text};
use webui::time::{human_formatted_timedelta, relative_time};
use webui::time::TimeGranularity::{Coarse, Fine};
use webui::version_path::BacktraceVersionsPath;

#[test]
fn timedelta_in_words() {
    assert_eq!(human_formatted_timedelta(500, Fine), "500 ms");
    assert_eq!(human_formatted_timedelta(-500, Fine), "-500 ms");
    assert_eq!(human_formatted_timedelta(-1000, Fine), "in the future");
    assert_eq!(human_formatted_timedelta(1000, Fine), "1 sec");
    assert_eq!(human_formatted_timedelta(59_999, Fine), "59 secs");
    assert_eq!(human_formatted_timedelta(30_000, Coarse), "just now");
    assert_eq!(human_formatted_timedelta(500, Coarse), "just now");
    assert_eq!(human_formatted_timedelta(60_000, Coarse), "1 min");
    assert_eq!(human_formatted_timedelta(7_200_000, Fine), "2 hours");
    assert_eq!(human_formatted_timedelta(86_400_000, Fine), "1 day");
    assert_eq!(human_formatted_timedelta(30 * 86_400_000, Fine), "1 month");
    assert_eq!(human_formatted_timedelta(400 * 86_400_000, Fine), "1 year");
    assert_eq!(human_formatted_timedelta(800 * 86_400_000, Fine), "2 years");
    assert_eq!(relative_time(1_000, 121_000), "2 mins");
    assert_eq!(relative_time(5_000, 1_000), "in the future");
}

#[test]
fn u32_parsing_matches_std() {
    for s in ["0", "42", "+7", "4294967295", "4294967296", "", "+", "-1", "1a", "007"] {
        assert_eq!(parse_u32(s), s.parse::<u32>().ok(), "input {s:?}");
    }
}

#[test]
fn split_matches_std() {
    for s in ["", "a", "a_b", "_a_", "__", "1_2_3"] {
        let expected: Vec<String> = s.split('_').map(|x| x.to_string()).collect();
        assert_eq!(split_text(s, '_'), expected, "input {s:?}");
    }
}

#[test]
fn version_path_text_round_trips() {
    let p = BacktraceVersionsPath(vec![12, 0, 7]);
    assert_eq!(p.to_string(), "12_0_7");
    assert_eq!(BacktraceVersionsPath::from_str("12_0_7").unwrap().0, vec![12, 0, 7]);
    assert_eq!(BacktraceVersionsPath::from_str("5").unwrap().0, vec![5]);
    assert!(BacktraceVersionsPath::from_str("").is_err());
    assert!(BacktraceVersionsPath::from_str("1__2").is_err());
    assert!(BacktraceVersionsPath::from_str("1_x").is_err());
}

#[test]
fn component_type_names() {
    assert_eq!(ComponentType::ActivityWasm.to_string(), "activity_wasm");
    assert_eq!(ComponentType::from_str("webhook_endpoint"), Ok(ComponentType::WebhookEndpoint));
    assert_eq!(ComponentType::from_str("nope"), Err("invalid ComponentType: nope".to_string()));
}

#[test]
fn component_id_text_form() {
    let id = ComponentId {
        component_type: ComponentType::Workflow,
        name: "checkout".to_string(),
        digest: "sha256:abc".to_string(),
    };
    assert_eq!(id.to_string(), "workflow:checkout:sha256:abc");
    assert_eq!(ComponentId::from_str("workflow:checkout:sha256:abc"), Ok(id));
    assert_eq!(ComponentId::from_str("workflow:checkout"), Err(()));
    assert_eq!(ComponentId::from_str("bogus:a:b"), Err(()));
}

#[test]
fn generated_execution_ids_are_top_level() {
    let a = ExecutionId::generate();
    let b = ExecutionId::generate();
    assert_eq!(a.id.len(), 28);
    assert!(a.id.starts_with("E_"));
    assert!(a.parent_id().is_none());
    assert_ne!(a, b);
}

fn js() -> JoinSetId {
    JoinSetId { kind: JoinSetKind::Generated, name: "g".to_string() }
}

fn ev(version: u32, event: EventKind) -> ExecutionEvent {
    ExecutionEvent { version, created_at: version as i64, backtrace_id: None, event }
}

#[test]
fn task_spans_link_requests_to_their_waits() {
    let events = vec![
        ev(0, EventKind::Created { scheduled_at: 0 }),
        ev(1, EventKind::JoinSetRequest {
            join_set_id: js(),
            request: JoinSetRequestKind::DelayRequest { delay_id: DelayId { id: "D1".to_string() } },
        }),
        ev(2, EventKind::JoinSetRequest {
            join_set_id: js(),
            request: JoinSetRequestKind::ChildExecutionRequest { child_execution_id: ExecutionId { id: "E.c".to_string() } },
        }),
        ev(3, EventKind::JoinNext { join_set_id: js() }),
    ];
    let responses = vec![JoinSetResponseEvent {
        created_at: 3,
        join_set_id: js(),
        response: JoinSetResponse::DelayFinished { delay_id: DelayId { id: "D1".to_string() } },
    }];
    let ms = compute_join_next_to_response(&events, &responses);
    let spans = compute_task_spans(&events, &ms, 3);
    let got: Vec<(String, u32, u32, bool)> = spans
        .into_iter()
        .map(|s| (s.task_id, s.start_version, s.end_version, s.is_completed))
        .collect();
    assert_eq!(
        got,
        vec![("D1".to_string(), 1, 3, true), ("E.c".to_string(), 2, 3, false)]
    );
}
