use deployer::deploy_layer::{
    event_log, state_scope_log, Log, LogType, ScopeDetails, STATE_MESSAGE,
};
use deployer::lifecycle::{
    kill_row, next_state, run_from, scope_has_address, ActiveDeployments, PipelineEvent,
};
use deployer::persistence::address::parse_address;
use deployer::persistence::{
    Address, Deployment, FieldObject, FieldValue, Fields, Id, LogLevel, Persistence, State,
    Timestamp,
};

fn fresh_id() -> Id {
    Id::new(uuid::Uuid::new_v4().as_u128())
}

fn now() -> Timestamp {
    Timestamp::from_millis(chrono::Utc::now().timestamp_millis())
}

fn address_pattern(states: &[State]) -> Vec<bool> {
    states.iter().map(|s| scope_has_address(*s)).collect()
}

#[test]
fn deployment_to_be_queued() {
    // The sleep-async service: builds, binds, and keeps running until killed.
    let events = vec![
        PipelineEvent::Advance,
        PipelineEvent::Advance,
        PipelineEvent::Advance,
        PipelineEvent::Advance,
    ];
    let states = run_from(State::Queued, &events);
    assert_eq!(
        states,
        vec![
            State::Queued,
            State::Building,
            State::Built,
            State::Loading,
            State::Running,
        ],
        "did not expect these states:\n\t{states:#?}"
    );
    assert_eq!(
        address_pattern(&states),
        vec![false, false, false, true, true],
        "states should go into 'Running' for a valid service"
    );

    // Send kill signal.
    let killed = vec![
        PipelineEvent::Advance,
        PipelineEvent::Advance,
        PipelineEvent::Advance,
        PipelineEvent::Advance,
        PipelineEvent::Stop,
    ];
    let states = run_from(State::Queued, &killed);
    assert_eq!(
        states,
        vec![
            State::Queued,
            State::Building,
            State::Built,
            State::Loading,
            State::Running,
            State::Stopped,
        ]
    );
    assert_eq!(
        address_pattern(&states),
        vec![false, false, false, true, true, false]
    );
}

#[test]
fn deployment_self_stop() {
    // The self-stop service: exits cleanly after binding.
    let events = vec![
        PipelineEvent::Advance,
        PipelineEvent::Advance,
        PipelineEvent::Advance,
        PipelineEvent::Advance,
        PipelineEvent::Advance,
    ];
    let states = run_from(State::Queued, &events);
    assert_eq!(
        states,
        vec![
            State::Queued,
            State::Building,
            State::Built,
            State::Loading,
            State::Running,
            State::Completed,
        ],
        "states should go into 'Completed' when a service stops by itself"
    );
    assert_eq!(
        address_pattern(&states),
        vec![false, false, false, true, true, false]
    );
}

#[test]
fn deployment_bind_panic() {
    // The bind-panic service: panics after binding.
    let events = vec![
        PipelineEvent::Advance,
        PipelineEvent::Advance,
        PipelineEvent::Advance,
        PipelineEvent::Advance,
        PipelineEvent::Crash,
    ];
    let states = run_from(State::Queued, &events);
    assert_eq!(
        states,
        vec![
            State::Queued,
            State::Building,
            State::Built,
            State::Loading,
            State::Running,
            State::Crashed,
        ],
        "states should go into 'Crashed' panicing in bind"
    );
    assert_eq!(
        address_pattern(&states),
        vec![false, false, false, true, true, false]
    );
}

#[test]
fn deployment_main_panic() {
    // The main-panic service: panics while loading, so `Running` is never
    // reached.
    let events = vec![
        PipelineEvent::Advance,
        PipelineEvent::Advance,
        PipelineEvent::Advance,
        PipelineEvent::Crash,
    ];
    let states = run_from(State::Queued, &events);
    assert_eq!(
        states,
        vec![
            State::Queued,
            State::Building,
            State::Built,
            State::Loading,
            State::Crashed,
        ],
        "states should go into 'Crashed' when panicing in main"
    );
    assert_eq!(
        address_pattern(&states),
        vec![false, false, false, true, false]
    );
}

#[test]
fn deployment_from_run() {
    // A pre-built deployment pushed straight onto the run queue that panics
    // in main.
    let events = vec![PipelineEvent::Advance, PipelineEvent::Crash];
    let states = run_from(State::Built, &events);
    assert_eq!(
        states,
        vec![State::Built, State::Loading, State::Crashed],
        "did not expect these states:\n\t{states:#?}"
    );
}

#[test]
fn scope_with_nil_id() {
    let mut details = ScopeDetails::default();
    details.record_field("id", "00000000-0000-0000-0000-000000000000");
    details.record_field("state", "queued");

    let log = state_scope_log(
        details,
        LogLevel::Info,
        now(),
        None,
        None,
        "nil_id".to_string(),
    );
    assert!(
        log.is_none(),
        "no logs should be recorded when the scope id is invalid"
    );

    // Nothing was emitted, so nothing reaches the store for the nil id.
    let p = Persistence::new();
    assert!(p.get_deployment_logs(Id::nil()).is_empty());
    assert!(p.get_deployment(Id::nil()).is_none());
}

#[test]
fn scope_fields_are_parsed() {
    let mut details = ScopeDetails::default();
    details.record_field("id", "550e8400-e29b-41d4-a716-446655440000");
    details.record_field("state", "running");
    details.record_field("address", "127.0.0.1:8000");
    details.record_field("elapsed", "3ms");

    assert_eq!(details.id, Id::new(0x550e8400e29b41d4a716446655440000));
    assert_eq!(details.state, State::Running);
    assert_eq!(details.address, Some("127.0.0.1:8000".to_string()));
}

#[test]
fn unreadable_scope_fields_fall_back() {
    let mut details = ScopeDetails::default();
    details.record_field("id", "not-a-uuid");
    details.record_field("state", "unheard-of");

    assert_eq!(details.id, Id::nil());
    assert_eq!(details.state, State::Queued);
}

#[test]
fn state_scope_emits_one_state_log() {
    let mut details = ScopeDetails::default();
    details.record_field("id", "550e8400-e29b-41d4-a716-446655440000");
    details.record_field("state", "loading");
    details.record_field("address", "10.0.0.5:9000");

    let t = now();
    let log = state_scope_log(
        details,
        LogLevel::Info,
        t,
        Some("run.rs".to_string()),
        Some(7),
        "deployment::run".to_string(),
    )
    .unwrap();

    assert_eq!(log.id, Id::new(0x550e8400e29b41d4a716446655440000));
    assert_eq!(log.state, State::Loading);
    assert_eq!(log.kind, LogType::State);
    assert_eq!(log.fields, Fields::Null);
    assert_eq!(log.address, Some("10.0.0.5:9000".to_string()));
    assert_eq!(log.timestamp, t);
}

#[test]
fn event_log_promotes_bridge_fields() {
    let mut fields = FieldObject::new();
    fields.set(
        "log.target".to_string(),
        FieldValue::Text("legacy::module".to_string()),
    );
    fields.set("log.line".to_string(), FieldValue::UInt(42));
    fields.set(
        "log.file".to_string(),
        FieldValue::Text("legacy.rs".to_string()),
    );
    fields.set(
        "log.module_path".to_string(),
        FieldValue::Text("legacy".to_string()),
    );
    fields.set(
        "message".to_string(),
        FieldValue::Text("job queued".to_string()),
    );

    let log = event_log(
        fresh_id(),
        State::Building,
        LogLevel::Debug,
        now(),
        "fallback::target".to_string(),
        Some(1),
        Some("fallback.rs".to_string()),
        fields,
    );

    assert_eq!(log.target, "legacy::module".to_string());
    assert_eq!(log.line, Some(42));
    assert_eq!(log.file, Some("legacy.rs".to_string()));
    assert_eq!(log.kind, LogType::Event);
    let mut remaining = FieldObject::new();
    remaining.set(
        "message".to_string(),
        FieldValue::Text("job queued".to_string()),
    );
    assert_eq!(log.fields, Fields::Object(remaining));
}

#[test]
fn event_log_without_bridge_fields_keeps_metadata() {
    let mut fields = FieldObject::new();
    fields.set(
        "message".to_string(),
        FieldValue::Text("hello".to_string()),
    );

    let log = event_log(
        fresh_id(),
        State::Running,
        LogLevel::Info,
        now(),
        "deployment::run".to_string(),
        Some(12),
        Some("run.rs".to_string()),
        fields,
    );

    assert_eq!(log.target, "deployment::run".to_string());
    assert_eq!(log.line, Some(12));
    assert_eq!(log.file, Some("run.rs".to_string()));
}

#[test]
fn state_log_is_stored_with_the_sentinel() {
    let log = Log {
        id: fresh_id(),
        state: State::Built,
        level: LogLevel::Info,
        timestamp: now(),
        file: None,
        line: None,
        target: "deployment::queue".to_string(),
        fields: Fields::Null,
        kind: LogType::State,
        address: None,
    };
    let row = log.to_stored_state();
    assert_eq!(row.fields, Fields::Text(STATE_MESSAGE.to_string()));
    assert_eq!(row.target, String::new());
    assert_eq!(row.state, State::Built);
}

#[test]
fn kill_is_idempotent() {
    let d = Deployment {
        id: fresh_id(),
        service_id: fresh_id(),
        state: State::Running,
        last_update: now(),
        address: Some(Address::new(127, 0, 0, 1, 9000)),
    };
    let t1 = now();
    let t2 = Timestamp::from_millis(t1.millis + 5000);
    let once = kill_row(d, t1);
    let twice = kill_row(once, t2);
    assert_eq!(once.state, State::Stopped);
    assert_eq!(once.address, None);
    assert_eq!(twice, once);
}

#[test]
fn terminal_states_absorb_every_event() {
    for s in [State::Completed, State::Crashed, State::Stopped] {
        for ev in [
            PipelineEvent::Advance,
            PipelineEvent::Crash,
            PipelineEvent::Stop,
        ] {
            assert_eq!(next_state(s, ev), None);
        }
    }
}

#[test]
fn slot_denial_stops_a_queued_deployment() {
    let states = run_from(State::Queued, &vec![PipelineEvent::Stop]);
    assert_eq!(states, vec![State::Queued, State::Stopped]);
}

#[test]
fn one_running_deployment_per_service() {
    let mut active = ActiveDeployments::new();
    let service = fresh_id();
    let first = fresh_id();
    let second = fresh_id();

    assert!(active.begin(service, first));
    // Admission for the same service is refused until the predecessor is
    // told to stop and finishes.
    assert!(!active.begin(service, second));
    assert_eq!(active.deployments_to_kill(service), vec![first]);
    active.finish(first);
    assert!(active.begin(service, second));
    assert_eq!(active.deployments_to_kill(service), vec![second]);
}

#[test]
fn socket_addresses_parse_exactly() {
    assert_eq!(
        parse_address("10.0.0.5:12356"),
        Some(Address::new(10, 0, 0, 5, 12356))
    );
    assert_eq!(
        parse_address("127.0.0.1:12345"),
        Some(Address::new(127, 0, 0, 1, 12345))
    );
    assert_eq!(
        parse_address("255.255.255.255:65535"),
        Some(Address::new(255, 255, 255, 255, 65535))
    );
    assert_eq!(parse_address("0.0.0.0:0"), Some(Address::new(0, 0, 0, 0, 0)));
    assert_eq!(parse_address(""), None);
    assert_eq!(parse_address("1.2.3.4"), None);
    assert_eq!(parse_address("1.2.3:80"), None);
    assert_eq!(parse_address("1.2.3.4.5:80"), None);
    assert_eq!(parse_address("256.0.0.1:80"), None);
    assert_eq!(parse_address("01.2.3.4:80"), None);
    assert_eq!(parse_address("1.2.3.4:65536"), None);
    assert_eq!(parse_address("1.2.3.4:"), None);
    assert_eq!(parse_address("a.b.c.d:80"), None);
}

#[test]
fn state_names_round_trip() {
    for s in [
        State::Queued,
        State::Building,
        State::Built,
        State::Loading,
        State::Running,
        State::Completed,
        State::Crashed,
        State::Stopped,
    ] {
        assert_eq!(State::parse(s.name()), Some(s));
    }
    assert_eq!(State::parse("unknown"), None);
}
