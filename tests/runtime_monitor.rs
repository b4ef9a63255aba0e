use petri_monitor::{
    format_violation, ArcDef, ArcTokenDef, JsonValue, NetDef, PetriConfig, PetriEvent,
    PetriRuntime, SpanLike, Token, TransitionDef,
};

fn var_arc(place: &str, var: &str) -> ArcDef {
    ArcDef {
        place: place.to_string(),
        token: ArcTokenDef::Variable { variable: var.to_string() },
    }
}

fn mutex_def(initial: Vec<(String, Vec<JsonValue>)>) -> NetDef {
    NetDef {
        places: vec!["free".to_string(), "held".to_string()],
        transitions: vec![
            (
                "acquire".to_string(),
                TransitionDef { pre: vec![var_arc("free", "L")], post: vec![var_arc("held", "L")] },
            ),
            (
                "release".to_string(),
                TransitionDef { pre: vec![var_arc("held", "L")], post: vec![var_arc("free", "L")] },
            ),
        ],
        event_mapping: vec![],
        initial_marking: initial,
    }
}

fn runtime(initial: Vec<(String, Vec<JsonValue>)>) -> PetriRuntime {
    PetriRuntime::load(PetriConfig::new("net.json".to_string()), mutex_def(initial))
}

fn lock_desc(id: u64) -> JsonValue {
    JsonValue::Array(vec![JsonValue::Str("Lock".to_string()), JsonValue::Number(Some(id))])
}

#[test]
fn lazy_seeding_lets_unknown_lock_be_acquired() {
    let mut rt = runtime(vec![]);
    rt.on_event(PetriEvent::LockAcquire { tid: 1, lock_id: 7 }, None).unwrap();
    let m = rt.marking();
    assert_eq!(m.get("held").unwrap().count(&Token::Lock(7)), 1);
    assert!(m.get("free").unwrap().is_empty());
}

#[test]
fn release_without_acquire_is_a_violation() {
    let mut rt = runtime(vec![]);
    let before = rt.marking_hash();
    let span = SpanLike { file: "main.rs".to_string(), line: 3, column: 9 };
    let v = rt
        .on_event(PetriEvent::LockRelease { tid: 2, lock_id: 5 }, Some(span))
        .unwrap_err();
    assert_eq!(v.tid, 2);
    assert_eq!(v.object_id, Some(5));
    assert_eq!(v.missing_tokens, vec![("held".to_string(), Token::Lock(5))]);
    assert_eq!(rt.marking_hash(), before);
    assert_eq!(
        format_violation(&v),
        "Petri net protocol violation: transition not enabled\n  Event: LockRelease { tid: 2, lock_id: 5 }\n  Thread ID: 2\n  Object ID: 5\n  Location: main.rs:3:9\n  Missing tokens:\n    - Lock(5) in place 'held'\n  Current marking (key places):\n"
    );
}

#[test]
fn report_lists_non_empty_places_in_order() {
    let mut rt = runtime(vec![(
        "free".to_string(),
        vec![lock_desc(2), lock_desc(1), lock_desc(1)],
    )]);
    rt.on_event(PetriEvent::LockAcquire { tid: 1, lock_id: 1 }, None).unwrap();
    let v = rt
        .on_event(PetriEvent::LockRelease { tid: 1, lock_id: 9 }, None)
        .unwrap_err();
    assert_eq!(
        PetriRuntime::format_violation(&v),
        "Petri net protocol violation: transition not enabled\n  Event: LockRelease { tid: 1, lock_id: 9 }\n  Thread ID: 1\n  Object ID: 9\n  Missing tokens:\n    - Lock(9) in place 'held'\n  Current marking (key places):\n    free: [Lock(1) x1, Lock(2) x1]\n    held: [Lock(1) x1]\n"
    );
}

#[test]
fn report_quotes_string_fields() {
    let mut def = mutex_def(vec![]);
    def.event_mapping = vec![("Block".to_string(), "wait".to_string())];
    let mut rt = PetriRuntime::load(PetriConfig::new("n".to_string()), def);
    let v = rt
        .on_event(PetriEvent::Block { tid: 4, reason: "a\"b".to_string() }, None)
        .unwrap_err();
    assert!(v.missing_tokens.is_empty());
    assert_eq!(v.object_id, None);
    let text = format_violation(&v);
    assert!(text.contains("  Event: Block { tid: 4, reason: \"a\\\"b\" }\n"));
    assert!(!text.contains("Object ID"));
}

#[test]
fn unmapped_events_are_accepted_without_change() {
    let mut rt = runtime(vec![]);
    let before = rt.marking_hash();
    rt.on_event(PetriEvent::Yield { tid: 1 }, None).unwrap();
    rt.on_event(PetriEvent::AtomicLoad { tid: 1, loc_id: 3, ordering: "SeqCst".to_string() }, None)
        .unwrap();
    assert_eq!(rt.marking_hash(), before);
}

#[test]
fn explicit_mapping_wins_over_defaults() {
    let mut def = mutex_def(vec![]);
    def.event_mapping = vec![("LockAcquire".to_string(), "release".to_string())];
    let mut rt = PetriRuntime::load(PetriConfig::new("n".to_string()), def);
    let v = rt
        .on_event(PetriEvent::LockAcquire { tid: 1, lock_id: 3 }, None)
        .unwrap_err();
    assert_eq!(v.missing_tokens, vec![("held".to_string(), Token::Lock(3))]);
}

#[test]
fn record_execution_end_reports_new_states() {
    let mut rt = runtime(vec![("free".to_string(), vec![lock_desc(1)])]);
    let (h1, new1) = rt.record_execution_end();
    assert!(new1);
    let (h2, new2) = rt.record_execution_end();
    assert_eq!(h1, h2);
    assert!(!new2);
    rt.on_event(PetriEvent::LockAcquire { tid: 1, lock_id: 1 }, None).unwrap();
    let (h3, new3) = rt.record_execution_end();
    assert_ne!(h3, h1);
    assert!(new3);
    assert_eq!(rt.seen_markings_count(), 2);
}

#[test]
fn reset_restores_marking_and_keeps_coverage() {
    let mut rt = runtime(vec![("free".to_string(), vec![lock_desc(1)])]);
    let initial = rt.marking_hash();
    rt.on_event(PetriEvent::LockAcquire { tid: 1, lock_id: 1 }, None).unwrap();
    rt.record_execution_end();
    rt.reset();
    assert_eq!(rt.marking_hash(), initial);
    assert_eq!(rt.seen_markings_count(), 1);
    rt.clear_coverage();
    assert_eq!(rt.seen_markings_count(), 0);
}

#[test]
fn config_builders_and_flags() {
    let c = PetriConfig::new("net.json".to_string())
        .with_log_path("log.ndjson".to_string())
        .with_fail_fast(false)
        .with_print_marking_on_each_event(true);
    assert_eq!(c.config_path, "net.json");
    assert_eq!(c.log_path.as_deref(), Some("log.ndjson"));
    assert!(!c.fail_fast);
    assert!(c.print_marking_on_each_event);
    let d = PetriConfig::new("x".to_string());
    assert!(d.fail_fast);
    assert!(d.log_path.is_none());
    let rt = PetriRuntime::load(c, mutex_def(vec![]));
    assert!(!rt.fail_fast());
    assert_eq!(rt.config().config_path, "net.json");
}

#[test]
fn event_accessors() {
    let e = PetriEvent::ThreadSpawn { parent: 1, child: 2 };
    assert_eq!(e.tid(), 1);
    assert_eq!(e.object_id(), None);
    assert_eq!(e.event_type_name(), "ThreadSpawn");
    let e = PetriEvent::ThreadJoin { joiner: 5, joinee: 6 };
    assert_eq!(e.tid(), 5);
    let e = PetriEvent::UnsafeWrite { tid: 3, region_id: 8, size: 4 };
    assert_eq!(e.object_id(), Some(8));
    assert_eq!(e.event_type_name(), "UnsafeWrite");
    let e = PetriEvent::AtomicStore { tid: 3, loc_id: 11, ordering: "Relaxed".to_string() };
    assert_eq!(e.object_id(), Some(11));
    assert_eq!(e.event_type_name(), "AtomicStore");
}

#[test]
fn repeated_run_with_empty_place_is_not_new() {
    let mut rt = runtime(vec![("free".to_string(), vec![lock_desc(1)])]);
    let (_, first) = rt.record_execution_end();
    assert!(first);
    rt.on_event(PetriEvent::LockAcquire { tid: 1, lock_id: 1 }, None).unwrap();
    rt.on_event(PetriEvent::LockRelease { tid: 1, lock_id: 1 }, None).unwrap();
    let (_, second) = rt.record_execution_end();
    assert!(!second);
    assert_eq!(rt.seen_markings_count(), 1);
    assert!(rt.room_for_event());
}
