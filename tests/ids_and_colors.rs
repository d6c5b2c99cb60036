use std::hash::{DefaultHasher, Hash, Hasher};
use webui::color::{generate_color, generate_color_from_hash};
use webui::ids::{Component, ComponentId, ComponentType, DelayId, ExecutionId, JoinSetId, JoinSetKind};
use webui::version_path::BacktraceVersionsPath;

fn eid(s: &str) -> ExecutionId {
    ExecutionId { id: s.to_string() }
}

fn hash_of_str(s: &str) -> u64 {
    let mut h = DefaultHasher::new();
    s.hash(&mut h);
    h.finish()
}

#[test]
fn color_from_hash_exact_values() {
    assert_eq!(generate_color_from_hash(0), "hsl(0, 70%, 65%)");
    assert_eq!(generate_color_from_hash(123456789012345), "hsl(105, 84%, 81%)");
    assert_eq!(generate_color_from_hash(u64::MAX), "hsl(15, 77%, 68%)");
}

#[test]
fn color_of_string_uses_its_hash() {
    assert_eq!(generate_color("E_01"), generate_color_from_hash(hash_of_str("E_01")));
    assert_eq!(eid("E_01.o:1_1").color(), generate_color_from_hash(hash_of_str("E_01.o:1_1")));
    let delay = DelayId { id: "D_7".to_string() };
    assert_eq!(delay.color(), generate_color_from_hash(hash_of_str("D_7")));
}

#[test]
fn join_set_color_hashes_kind_then_name() {
    let j = JoinSetId { kind: JoinSetKind::Named, name: "batch".to_string() };
    let mut h = DefaultHasher::new();
    1i32.hash(&mut h);
    "batch".hash(&mut h);
    assert_eq!(j.color(), generate_color_from_hash(h.finish()));
    assert_eq!(j.to_string(), "n:batch");
    let o = JoinSetId { kind: JoinSetKind::OneOff, name: "x".to_string() };
    assert_eq!(o.to_string(), "o:x");
}

#[test]
fn parent_id_strips_last_segment() {
    assert_eq!(eid("E_1.o:1_2.n:a_3").parent_id(), Some(eid("E_1.o:1_2")));
    assert_eq!(eid("E_1.o:1_2").parent_id(), Some(eid("E_1")));
    assert_eq!(eid("E_1").parent_id(), None);
    assert_eq!(eid("").parent_id(), None);
}

#[test]
fn hierarchy_lists_cumulative_prefixes() {
    let h = eid("E_1.a.b").as_hierarchy();
    let parts: Vec<(String, String)> = h.into_iter().map(|(p, id)| (p, id.id)).collect();
    assert_eq!(
        parts,
        vec![
            ("E_1".to_string(), "E_1".to_string()),
            ("a".to_string(), "E_1.a".to_string()),
            ("b".to_string(), "E_1.a.b".to_string()),
        ]
    );
    let top = eid("E_9").as_hierarchy();
    assert_eq!(top.len(), 1);
    assert_eq!(top[0].0, "E_9");
    assert_eq!(eid("E_1.a.b").last_segment(), "b");
}

#[test]
fn component_type_of_component() {
    let c = Component {
        component_id: Some(ComponentId {
            component_type: ComponentType::ActivityWasm,
            name: "fetch".to_string(),
            digest: "sha256:00".to_string(),
        }),
        name: "fetch".to_string(),
    };
    assert_eq!(c.as_type(), ComponentType::ActivityWasm);
}

#[test]
fn version_path_step_into_then_out_round_trips() {
    let p = BacktraceVersionsPath(vec![4, 7]);
    let into = p.step_into();
    assert_eq!(into.0, vec![4, 7, 0]);
    assert_eq!(into.step_out().unwrap().0, vec![4, 7]);
    assert!(BacktraceVersionsPath(vec![3]).step_out().is_none());
    assert_eq!(p.change(9).0, vec![4, 9]);
    assert_eq!(p.last(), 7);
    assert_eq!(BacktraceVersionsPath::default().0, vec![0]);
    assert_eq!(BacktraceVersionsPath::from_version(5).0, vec![5]);
}
