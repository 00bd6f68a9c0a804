use iot_metrics::ingest::{ApiPayload, EdgePacket, IngestCache, ReadingSlot, SensorReading};
use iot_metrics::round::{ingest_step, IngestAction, IngestEvent, IngestState};

fn reading(id: i32, timestamp: i64) -> SensorReading {
    SensorReading { id, timestamp, a_x: 0, a_y: 0, a_z: 0, hum: 0, seis: 0 }
}

fn payload(lat: f64) -> ApiPayload {
    ApiPayload {
        station_id: "st".to_string(),
        latitude: lat.to_bits(),
        longitude: 5.0f64.to_bits(),
        data: vec![EdgePacket {
            edge_id: 1,
            active_flags: [1, 1, 0, 0, 0],
            sensors: vec![reading(0, 10), reading(0, 10)],
        }],
    }
}

/// Runs a request, answering each action with the given responder; returns the actions seen.
fn run(
    cache: &mut IngestCache,
    p: &ApiPayload,
    mut respond: impl FnMut(&IngestAction) -> IngestEvent,
) -> Vec<String> {
    let mut seen = Vec::new();
    let mut state = IngestState::Start;
    let mut event = IngestEvent::Begin;
    loop {
        let (next, action) = ingest_step(cache, p, state, event);
        state = next;
        let name = match &action {
            IngestAction::LookUpStation => "lookup".to_string(),
            IngestAction::WriteStation(w) => format!("station {} {} {}", w.create, w.update, w.record_location),
            IngestAction::UpsertEdges(e) => format!("edges {:?}", e),
            IngestAction::UpsertSensors(s) => format!("sensors {:?}", s),
            IngestAction::InsertReadings(r) => format!("readings {}", r.len()),
            IngestAction::Respond { ok } => format!("respond {}", ok),
        };
        seen.push(name);
        if let IngestAction::Respond { .. } = action {
            return seen;
        }
        event = respond(&action);
    }
}

fn all_succeed(action: &IngestAction) -> IngestEvent {
    match action {
        IngestAction::LookUpStation => IngestEvent::StationLookedUp { stored: None },
        _ => IngestEvent::Succeeded,
    }
}

#[test]
fn full_request_then_repeat() {
    let mut cache = IngestCache::new();
    let p = payload(1.0);
    let first = run(&mut cache, &p, all_succeed);
    assert_eq!(
        first,
        vec!["lookup", "station true false true", "edges [1]", "sensors [(1, 0), (1, 0)]", "readings 1", "respond true"]
    );
    let second = run(&mut cache, &p, all_succeed);
    assert_eq!(second, vec!["readings 1", "respond true"]);
}

#[test]
fn readings_selected_by_the_machine() {
    let mut cache = IngestCache::new();
    let p = payload(1.0);
    let mut slots = Vec::new();
    run(&mut cache, &p, |a| {
        if let IngestAction::InsertReadings(r) = a {
            slots = r.clone();
        }
        all_succeed(a)
    });
    assert_eq!(slots, vec![ReadingSlot { packet: 0, slot: 0 }]);
}

#[test]
fn failed_station_write_is_retried_in_full() {
    let mut cache = IngestCache::new();
    let p = payload(1.0);
    let failed = run(&mut cache, &p, |a| match a {
        IngestAction::WriteStation(_) => IngestEvent::Failed,
        other => all_succeed(other),
    });
    assert_eq!(failed, vec!["lookup", "station true false true", "respond false"]);
    assert_eq!(cache.compare_location("st", p.latitude, p.longitude), iot_metrics::ingest::LocationChange::FirstSeen);
    let retry = run(&mut cache, &p, all_succeed);
    assert_eq!(retry[1], "station true false true");
    assert_eq!(retry.last().unwrap(), "respond true");
}

#[test]
fn failed_edge_upsert_is_not_cached() {
    let mut cache = IngestCache::new();
    let p = payload(1.0);
    let failed = run(&mut cache, &p, |a| match a {
        IngestAction::UpsertEdges(_) => IngestEvent::Failed,
        other => all_succeed(other),
    });
    assert_eq!(failed.last().unwrap(), "respond false");
    assert!(!cache.knows_edge("st", 1));
    let retry = run(&mut cache, &p, all_succeed);
    assert_eq!(retry, vec!["edges [1]", "sensors [(1, 0), (1, 0)]", "readings 1", "respond true"]);
    assert!(cache.knows_edge("st", 1));
    assert!(cache.knows_sensor("st", 1, 0));
}

#[test]
fn stored_station_after_restart() {
    let mut cache = IngestCache::new();
    let p = payload(1.0);
    let actions = run(&mut cache, &p, |a| match a {
        IngestAction::LookUpStation => IngestEvent::StationLookedUp { stored: Some((p.latitude, p.longitude)) },
        _ => IngestEvent::Succeeded,
    });
    assert_eq!(actions[1], "station false true false");
    let moved = payload(2.0);
    let actions = run(&mut cache, &moved, all_succeed);
    assert_eq!(actions[0], "station false true true");
}

#[test]
fn out_of_turn_event_fails_the_request() {
    let mut cache = IngestCache::new();
    let p = payload(1.0);
    let (state, action) = ingest_step(&mut cache, &p, IngestState::Start, IngestEvent::Succeeded);
    assert!(matches!(state, IngestState::Finished));
    assert!(matches!(action, IngestAction::Respond { ok: false }));
}
