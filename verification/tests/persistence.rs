use chrono::TimeZone;

use deployer::deploy_layer;
use deployer::deploy_layer::LogType;
use deployer::persistence::{
    Address, Deployment, DeploymentRunnable, DeploymentState, FieldObject, FieldValue, Fields, Id,
    Log, LogLevel, PersistenceError, Persistence, Resource, ResourceType, Secret, State, Timestamp,
};
use deployer::persistence::resource::{AwsRdsType, DatabaseType, SharedType};

fn ts(y: i32, mo: u32, d: u32, h: u32, mi: u32, s: u32) -> Timestamp {
    Timestamp::from_millis(
        chrono::Utc
            .with_ymd_and_hms(y, mo, d, h, mi, s)
            .unwrap()
            .timestamp_millis(),
    )
}

fn now() -> Timestamp {
    Timestamp::from_millis(chrono::Utc::now().timestamp_millis())
}

fn fresh_id() -> Id {
    Id::new(uuid::Uuid::new_v4().as_u128())
}

fn add_service(p: &mut Persistence) -> Id {
    add_service_named(p, &uuid::Uuid::new_v4().to_string())
}

fn add_service_named(p: &mut Persistence, name: &str) -> Id {
    p.get_or_create_service(name).id
}

fn add_deployment(p: &mut Persistence) -> Id {
    let service_id = add_service(p);
    let deployment_id = fresh_id();
    p.insert_deployment(Deployment {
        id: deployment_id,
        service_id,
        state: State::Running,
        last_update: now(),
        address: None,
    })
    .unwrap();
    deployment_id
}

fn object(entries: &[(&str, FieldValue)]) -> Fields {
    let mut o = FieldObject::new();
    for (k, v) in entries {
        o.set(k.to_string(), v.clone());
    }
    Fields::Object(o)
}

#[test]
fn deployment_updates() {
    let mut p = Persistence::new();
    let service_id = add_service(&mut p);

    let id = fresh_id();
    let deployment = Deployment {
        id,
        service_id,
        state: State::Queued,
        last_update: ts(2022, 4, 25, 4, 43, 33),
        address: None,
    };

    p.insert_deployment(deployment).unwrap();
    assert_eq!(p.get_deployment(id).unwrap(), deployment);

    p.update_deployment(DeploymentState {
        id,
        state: State::Built,
        last_update: now(),
        address: None,
    });
    let update = p.get_deployment(id).unwrap();
    assert_eq!(update.state, State::Built);
    assert_ne!(update.last_update, ts(2022, 4, 25, 4, 43, 33));
}

#[test]
fn deployment_active() {
    let mut p = Persistence::new();

    let xyz_id = add_service(&mut p);
    let service_id = add_service(&mut p);

    let deployment_crashed = Deployment {
        id: fresh_id(),
        service_id: xyz_id,
        state: State::Crashed,
        last_update: ts(2022, 4, 25, 7, 29, 35),
        address: None,
    };
    let deployment_stopped = Deployment {
        id: fresh_id(),
        service_id: xyz_id,
        state: State::Stopped,
        last_update: ts(2022, 4, 25, 7, 49, 35),
        address: None,
    };
    let deployment_other = Deployment {
        id: fresh_id(),
        service_id,
        state: State::Running,
        last_update: ts(2022, 4, 25, 7, 39, 39),
        address: None,
    };
    let deployment_running = Deployment {
        id: fresh_id(),
        service_id: xyz_id,
        state: State::Running,
        last_update: ts(2022, 4, 25, 7, 48, 29),
        address: Some(Address::new(127, 0, 0, 1, 9876)),
    };

    for deployment in [
        deployment_crashed,
        deployment_stopped,
        deployment_other,
        deployment_running,
    ] {
        p.insert_deployment(deployment).unwrap();
    }

    assert_eq!(p.get_active_deployment(xyz_id).unwrap(), deployment_running);
}

#[test]
fn cleanup_invalid_states() {
    let mut p = Persistence::new();
    let service_id = add_service(&mut p);

    let queued_id = fresh_id();
    let building_id = fresh_id();
    let built_id = fresh_id();
    let loading_id = fresh_id();

    let deployment_crashed = Deployment {
        id: fresh_id(),
        service_id,
        state: State::Crashed,
        last_update: now(),
        address: None,
    };
    let deployment_stopped = Deployment {
        id: fresh_id(),
        service_id,
        state: State::Stopped,
        last_update: now(),
        address: None,
    };
    let deployment_running = Deployment {
        id: fresh_id(),
        service_id,
        state: State::Running,
        last_update: now(),
        address: Some(Address::new(127, 0, 0, 1, 9876)),
    };
    let deployment_queued = Deployment {
        id: queued_id,
        service_id,
        state: State::Queued,
        last_update: now(),
        address: None,
    };
    let deployment_building = Deployment {
        id: building_id,
        service_id,
        state: State::Building,
        last_update: now(),
        address: None,
    };
    let deployment_built = Deployment {
        id: built_id,
        service_id,
        state: State::Built,
        last_update: now(),
        address: None,
    };
    let deployment_loading = Deployment {
        id: loading_id,
        service_id,
        state: State::Loading,
        last_update: now(),
        address: None,
    };

    for deployment in [
        deployment_crashed,
        deployment_stopped,
        deployment_running,
        deployment_queued,
        deployment_built,
        deployment_building,
        deployment_loading,
    ] {
        p.insert_deployment(deployment).unwrap();
    }

    p.cleanup_invalid_states();

    let actual: Vec<_> = p
        .get_deployments(service_id)
        .into_iter()
        .map(|deployment| (deployment.id, deployment.state))
        .collect();
    let expected = vec![
        (deployment_crashed.id, State::Crashed),
        (deployment_stopped.id, State::Stopped),
        (deployment_running.id, State::Running),
        (queued_id, State::Stopped),
        (built_id, State::Stopped),
        (building_id, State::Stopped),
        (loading_id, State::Stopped),
    ];

    assert_eq!(
        actual, expected,
        "invalid states should be moved to the stopped state"
    );
}

#[test]
fn fetching_runnable_deployments() {
    let mut p = Persistence::new();

    let bar_id = add_service_named(&mut p, "bar");
    let foo_id = add_service_named(&mut p, "foo");
    let service_id = add_service(&mut p);
    let service_id2 = add_service(&mut p);

    let id_1 = fresh_id();
    let id_2 = fresh_id();
    let id_3 = fresh_id();

    for deployment in [
        Deployment {
            id: fresh_id(),
            service_id,
            state: State::Built,
            last_update: ts(2022, 4, 25, 4, 29, 33),
            address: None,
        },
        Deployment {
            id: id_1,
            service_id: foo_id,
            state: State::Running,
            last_update: ts(2022, 4, 25, 4, 29, 44),
            address: None,
        },
        Deployment {
            id: id_2,
            service_id: bar_id,
            state: State::Running,
            last_update: ts(2022, 4, 25, 4, 33, 48),
            address: None,
        },
        Deployment {
            id: fresh_id(),
            service_id: service_id2,
            state: State::Crashed,
            last_update: ts(2022, 4, 25, 4, 38, 52),
            address: None,
        },
        Deployment {
            id: id_3,
            service_id: foo_id,
            state: State::Running,
            last_update: ts(2022, 4, 25, 4, 42, 32),
            address: None,
        },
    ] {
        p.insert_deployment(deployment).unwrap();
    }

    let runnable = p.get_all_runnable_deployments();
    assert_eq!(
        runnable,
        [
            DeploymentRunnable {
                id: id_1,
                service_name: "foo".to_string(),
                service_id: foo_id,
            },
            DeploymentRunnable {
                id: id_2,
                service_name: "bar".to_string(),
                service_id: bar_id,
            },
            DeploymentRunnable {
                id: id_3,
                service_name: "foo".to_string(),
                service_id: foo_id,
            },
        ]
    );
}

#[test]
fn log_insert() {
    let mut p = Persistence::new();
    let deployment_id = add_deployment(&mut p);

    let log = Log {
        id: deployment_id,
        timestamp: now(),
        state: State::Queued,
        level: LogLevel::Info,
        file: Some("queue.rs".to_string()),
        line: Some(12),
        target: "tests::log_insert".to_string(),
        fields: object(&[("message", FieldValue::Text("job queued".to_string()))]),
    };

    p.insert_log(log.clone());

    let logs = p.get_deployment_logs(deployment_id);
    assert!(!logs.is_empty(), "there should be one log");

    assert_eq!(logs.first().unwrap(), &log);
}

#[test]
fn logs_for_deployment() {
    let mut p = Persistence::new();
    let deployment_a = add_deployment(&mut p);
    let deployment_b = add_deployment(&mut p);

    let log_a1 = Log {
        id: deployment_a,
        timestamp: now(),
        state: State::Queued,
        level: LogLevel::Info,
        file: Some("file.rs".to_string()),
        line: Some(5),
        target: "tests::logs_for_deployment".to_string(),
        fields: object(&[("message", FieldValue::Text("job queued".to_string()))]),
    };
    let log_b = Log {
        id: deployment_b,
        timestamp: now(),
        state: State::Queued,
        level: LogLevel::Info,
        file: Some("file.rs".to_string()),
        line: Some(5),
        target: "tests::logs_for_deployment".to_string(),
        fields: object(&[("message", FieldValue::Text("job queued".to_string()))]),
    };
    let log_a2 = Log {
        id: deployment_a,
        timestamp: now(),
        state: State::Building,
        level: LogLevel::Warn,
        file: None,
        line: None,
        target: String::new(),
        fields: object(&[("message", FieldValue::Text("unused Result".to_string()))]),
    };

    for log in [log_a1.clone(), log_b, log_a2.clone()] {
        p.insert_log(log);
    }

    let logs = p.get_deployment_logs(deployment_a);
    assert!(!logs.is_empty(), "there should be two logs");

    assert_eq!(logs, vec![log_a1, log_a2]);
}

#[test]
fn log_recorder_event() {
    let mut p = Persistence::new();
    let deployment_id = add_deployment(&mut p);

    let event = deploy_layer::Log {
        id: deployment_id,
        timestamp: now(),
        state: State::Queued,
        level: LogLevel::Info,
        file: Some("file.rs".to_string()),
        line: Some(5),
        target: "tests::log_recorder_event".to_string(),
        fields: object(&[("message", FieldValue::Text("job queued".to_string()))]),
        kind: LogType::Event,
        address: None,
    };

    p.record(event);

    let logs = p.get_deployment_logs(deployment_id);

    assert!(!logs.is_empty(), "there should be one log");

    let log = logs.first().unwrap();
    assert_eq!(log.id, deployment_id);
    assert_eq!(log.state, State::Queued);
    assert_eq!(log.level, LogLevel::Info);
    assert_eq!(log.file, Some("file.rs".to_string()));
    assert_eq!(log.line, Some(5));
    assert_eq!(
        log.fields,
        object(&[("message", FieldValue::Text("job queued".to_string()))])
    );
}

#[test]
fn log_recorder_state() {
    let mut p = Persistence::new();

    let id = fresh_id();
    let service_id = add_service(&mut p);

    p.insert_deployment(Deployment {
        id,
        service_id,
        // Should be different from the state recorded below.
        state: State::Queued,
        last_update: ts(2022, 4, 29, 2, 39, 39),
        address: None,
    })
    .unwrap();
    let state = deploy_layer::Log {
        id,
        timestamp: ts(2022, 4, 29, 2, 39, 59),
        state: State::Running,
        level: LogLevel::Info,
        file: None,
        line: None,
        target: String::new(),
        fields: Fields::Null,
        kind: LogType::State,
        address: Some("127.0.0.1:12345".to_string()),
    };

    p.record(state);

    let logs = p.get_deployment_logs(id);

    assert!(!logs.is_empty(), "state change should be logged");

    let log = logs.first().unwrap();
    assert_eq!(log.id, id);
    assert_eq!(log.state, State::Running);
    assert_eq!(log.level, LogLevel::Info);
    assert_eq!(log.fields, Fields::Text("NEW STATE".to_string()));

    assert_eq!(
        p.get_deployment(id).unwrap(),
        Deployment {
            id,
            service_id,
            state: State::Running,
            last_update: ts(2022, 4, 29, 2, 39, 59),
            address: Some(Address::new(127, 0, 0, 1, 12345)),
        }
    );
}

#[test]
fn deployment_resources() {
    let mut p = Persistence::new();
    let service_id = add_service(&mut p);
    let service_id2 = add_service(&mut p);

    let resource1 = Resource {
        service_id,
        kind: ResourceType::Database(DatabaseType::Shared(SharedType::Postgres)),
        data: object(&[("username", FieldValue::Text("root".to_string()))]),
    };
    let resource2 = Resource {
        service_id,
        kind: ResourceType::Database(DatabaseType::AwsRds(AwsRdsType::MariaDB)),
        data: object(&[("uri", FieldValue::Text("postgres://localhost".to_string()))]),
    };
    let resource3 = Resource {
        service_id: service_id2,
        kind: ResourceType::Database(DatabaseType::AwsRds(AwsRdsType::Postgres)),
        data: object(&[("username", FieldValue::Text("admin".to_string()))]),
    };
    // This makes sure only the last instance of a type is saved (clashes with resource1).
    let resource4 = Resource {
        service_id,
        kind: ResourceType::Database(DatabaseType::Shared(SharedType::Postgres)),
        data: object(&[("username", FieldValue::Text("foo".to_string()))]),
    };

    for resource in [&resource1, &resource2, &resource3, &resource4] {
        p.insert_resource(resource.clone());
    }

    let resources = p.get_resources(service_id);

    assert_eq!(resources, vec![resource2, resource4]);
}

#[test]
fn secrets() {
    let mut p = Persistence::new();

    let service_id = add_service(&mut p);
    let service_id2 = add_service(&mut p);

    p.insert_secret(service_id, "key1", "value1");
    p.insert_secret(service_id2, "key2", "value2");
    p.insert_secret(service_id, "key3", "value3");
    p.insert_secret(service_id, "key1", "value1_updated");

    let actual: Vec<_> = p
        .get_secrets(service_id)
        .into_iter()
        .map(|mut i| {
            // Reset dates for the comparison.
            i.last_update = Timestamp::default();
            i
        })
        .collect();
    let expected = vec![
        Secret {
            service_id,
            key: "key1".to_string(),
            value: "value1_updated".to_string(),
            last_update: Timestamp::default(),
        },
        Secret {
            service_id,
            key: "key3".to_string(),
            value: "value3".to_string(),
            last_update: Timestamp::default(),
        },
    ];

    assert_eq!(actual, expected);
}

#[test]
fn service() {
    let mut p = Persistence::new();

    let service = p.get_or_create_service("dummy-service");
    let service2 = p.get_or_create_service("dummy-service");

    assert_eq!(service, service2, "service should only be added once");

    let get_result = p.get_service_by_name("dummy-service").unwrap();
    assert_eq!(service, get_result);

    p.delete_service(service.id);
    assert!(p.get_service_by_name("dummy-service").is_none());
}

#[test]
fn address_getter() {
    let mut p = Persistence::new();
    let service_id = add_service_named(&mut p, "service-name");
    let service_other_id = add_service_named(&mut p, "other-name");

    // This running item should match.
    p.insert_deployment(Deployment {
        id: fresh_id(),
        service_id,
        state: State::Running,
        last_update: now(),
        address: Some(Address::new(10, 0, 0, 5, 12356)),
    })
    .unwrap();
    // A stopped item should not match.
    p.insert_deployment(Deployment {
        id: fresh_id(),
        service_id,
        state: State::Stopped,
        last_update: now(),
        address: Some(Address::new(10, 0, 0, 5, 9876)),
    })
    .unwrap();
    // Another service should not match.
    p.insert_deployment(Deployment {
        id: fresh_id(),
        service_id: service_other_id,
        state: State::Running,
        last_update: now(),
        address: Some(Address::new(10, 0, 0, 5, 5678)),
    })
    .unwrap();

    assert_eq!(
        Address::new(10, 0, 0, 5, 12356),
        p.get_address_for_service("service-name").unwrap().unwrap(),
    );
}

#[test]
fn active_deployment_getter() {
    let mut p = Persistence::new();
    let service_id = add_service_named(&mut p, "service-name");
    let id_1 = fresh_id();
    let id_2 = fresh_id();

    for deployment in [
        Deployment {
            id: fresh_id(),
            service_id,
            state: State::Built,
            last_update: ts(2022, 4, 25, 4, 29, 33),
            address: None,
        },
        Deployment {
            id: fresh_id(),
            service_id,
            state: State::Stopped,
            last_update: ts(2022, 4, 25, 4, 29, 44),
            address: None,
        },
        Deployment {
            id: id_1,
            service_id,
            state: State::Running,
            last_update: ts(2022, 4, 25, 4, 33, 48),
            address: None,
        },
        Deployment {
            id: fresh_id(),
            service_id,
            state: State::Crashed,
            last_update: ts(2022, 4, 25, 4, 38, 52),
            address: None,
        },
        Deployment {
            id: id_2,
            service_id,
            state: State::Running,
            last_update: ts(2022, 4, 25, 4, 42, 32),
            address: None,
        },
    ] {
        p.insert_deployment(deployment).unwrap();
    }

    let actual = p.get_active_deployments(service_id);

    assert_eq!(actual, vec![id_1, id_2]);
}

#[test]
fn duplicate_deployment_id_is_refused() {
    let mut p = Persistence::new();
    let service_id = add_service(&mut p);
    let id = fresh_id();
    let row = Deployment {
        id,
        service_id,
        state: State::Queued,
        last_update: now(),
        address: None,
    };
    p.insert_deployment(row).unwrap();
    assert_eq!(
        p.insert_deployment(row),
        Err(PersistenceError::DuplicateId)
    );
    assert_eq!(p.get_deployments(service_id).len(), 1);
}

#[test]
fn running_row_without_address_is_an_error() {
    let mut p = Persistence::new();
    let service_id = add_service_named(&mut p, "bare");
    p.insert_deployment(Deployment {
        id: fresh_id(),
        service_id,
        state: State::Running,
        last_update: now(),
        address: None,
    })
    .unwrap();
    assert_eq!(
        p.get_address_for_service("bare"),
        Err(PersistenceError::MissingAddress)
    );
}

#[test]
fn absent_service_has_no_address() {
    let p = Persistence::new();
    assert_eq!(p.get_address_for_service("missing"), Ok(None));
}

#[test]
fn created_service_id_is_never_nil() {
    let mut p = Persistence::new();
    let service = p.get_or_create_service("some-service");
    assert_ne!(service.id, Id::nil());
}

#[test]
fn secret_timestamps_come_from_the_clock() {
    let mut p = Persistence::new();
    let service_id = add_service(&mut p);
    let before = now().millis;
    p.insert_secret(service_id, "key", "value");
    let after = now().millis;
    let stored = p.get_secrets(service_id);
    assert_eq!(stored.len(), 1);
    assert!(before <= stored[0].last_update.millis);
    assert!(stored[0].last_update.millis <= after);
}
