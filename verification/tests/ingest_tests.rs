use iot_metrics::ingest::{
    select_new_readings, station_writes, EdgePacket, IngestCache, LocationChange, ReadingSlot,
    SensorReading, StationWrites,
};

fn reading(id: i32, timestamp: i64) -> SensorReading {
    SensorReading {
        id,
        timestamp,
        a_x: 0.1f32.to_bits(),
        a_y: 0.2f32.to_bits(),
        a_z: 9.8f32.to_bits(),
        hum: 45.0f32.to_bits(),
        seis: 0.3f32.to_bits(),
    }
}

fn packet(edge_id: i32, flags: [i32; 5], sensors: Vec<SensorReading>) -> EdgePacket {
    EdgePacket { edge_id, active_flags: flags, sensors }
}

fn note(cache: &mut IngestCache, station: &str, lat: u64, lon: u64) -> LocationChange {
    let change = cache.compare_location(station, lat, lon);
    cache.commit_location(station, lat, lon);
    change
}

#[test]
fn first_report_then_same_then_moved() {
    let mut cache = IngestCache::new();
    let (lat, lon) = (37.7749f64.to_bits(), (-122.4194f64).to_bits());
    assert_eq!(note(&mut cache, "station_01", lat, lon), LocationChange::FirstSeen);
    assert_eq!(note(&mut cache, "station_01", lat, lon), LocationChange::Unchanged);
    assert_eq!(note(&mut cache, "station_01", 37.8f64.to_bits(), lon), LocationChange::Moved);
    assert_eq!(note(&mut cache, "station_01", 37.8f64.to_bits(), lon), LocationChange::Unchanged);
    assert_eq!(note(&mut cache, "station_02", lat, lon), LocationChange::FirstSeen);
}

#[test]
fn uncommitted_report_is_repeated() {
    let mut cache = IngestCache::new();
    let (lat, lon) = (1.0f64.to_bits(), 2.0f64.to_bits());
    note(&mut cache, "s", lat, lon);
    let moved = 3.0f64.to_bits();
    // First attempt: compared, writes fail, nothing committed.
    let first = cache.compare_location("s", moved, lon);
    assert_eq!(first, LocationChange::Moved);
    assert_eq!(
        station_writes(first, None, moved, lon),
        StationWrites { create: false, update: true, record_location: true }
    );
    // Retry: the same writes again.
    let retry = cache.compare_location("s", moved, lon);
    assert_eq!(retry, LocationChange::Moved);
    assert_eq!(station_writes(retry, None, moved, lon), station_writes(first, None, moved, lon));
    cache.commit_location("s", moved, lon);
    assert_eq!(cache.compare_location("s", moved, lon), LocationChange::Unchanged);
}

#[test]
fn signed_zero_is_the_same_position_and_nan_never_is() {
    let mut cache = IngestCache::new();
    assert_eq!(note(&mut cache, "s", 0.0f64.to_bits(), 1.0f64.to_bits()), LocationChange::FirstSeen);
    assert_eq!(
        note(&mut cache, "s", (-0.0f64).to_bits(), 1.0f64.to_bits()),
        LocationChange::Unchanged
    );
    let nan = f64::NAN.to_bits();
    assert_eq!(note(&mut cache, "s", nan, 1.0f64.to_bits()), LocationChange::Moved);
    assert_eq!(note(&mut cache, "s", nan, 1.0f64.to_bits()), LocationChange::Moved);
}

#[test]
fn station_writes_per_change() {
    let (lat, lon) = (10.0f64.to_bits(), 20.0f64.to_bits());
    assert_eq!(
        station_writes(LocationChange::Unchanged, None, lat, lon),
        StationWrites { create: false, update: false, record_location: false }
    );
    assert_eq!(
        station_writes(LocationChange::Moved, None, lat, lon),
        StationWrites { create: false, update: true, record_location: true }
    );
    assert_eq!(
        station_writes(LocationChange::FirstSeen, None, lat, lon),
        StationWrites { create: true, update: false, record_location: true }
    );
    assert_eq!(
        station_writes(LocationChange::FirstSeen, Some((11.0f64.to_bits(), lon)), lat, lon),
        StationWrites { create: false, update: true, record_location: true }
    );
    assert!(LocationChange::FirstSeen.needs_lookup());
    assert!(!LocationChange::Moved.needs_lookup());
}

#[test]
fn restart_with_stored_position_writes_no_history() {
    let cache = IngestCache::new();
    let (lat, lon) = (10.0f64.to_bits(), 20.0f64.to_bits());
    let change = cache.compare_location("s", lat, lon);
    assert_eq!(change, LocationChange::FirstSeen);
    let writes = station_writes(change, Some((lat, lon)), lat, lon);
    assert!(!writes.record_location);
    assert!(!writes.create);
    let writes = station_writes(change, Some(((-0.0f64).to_bits(), lon)), 0.0f64.to_bits(), lon);
    assert!(!writes.record_location);
}

#[test]
fn hierarchy_gaps_and_recording() {
    let mut cache = IngestCache::new();
    let packets = vec![
        packet(0, [1, 1, 0, 0, 0], vec![reading(0, 10), reading(1, 10), reading(2, 10)]),
        packet(1, [0, 1, 0, 0, 0], vec![reading(0, 10), reading(1, 10)]),
        packet(0, [1, 0, 0, 0, 0], vec![reading(0, 11)]),
    ];
    let gaps = cache.missing_hierarchy("st", &packets);
    assert_eq!(gaps.edges, vec![0, 1, 0]);
    assert_eq!(gaps.sensors, vec![(0, 0), (0, 1), (1, 1), (0, 0)]);

    cache.record_edges("st", &gaps.edges);
    cache.record_sensors("st", &gaps.sensors);
    assert!(cache.knows_edge("st", 0));
    assert!(cache.knows_edge("st", 1));
    assert!(!cache.knows_edge("other", 0));
    assert!(cache.knows_sensor("st", 1, 1));
    assert!(!cache.knows_sensor("st", 1, 0));

    let again = cache.missing_hierarchy("st", &packets);
    assert!(again.edges.is_empty());
    assert!(again.sensors.is_empty());

    let other = cache.missing_hierarchy("other", &packets);
    assert_eq!(other.edges, vec![0, 1, 0]);
}

#[test]
fn slots_beyond_five_are_never_active() {
    let cache = IngestCache::new();
    let sensors: Vec<SensorReading> = (0..7).map(|i| reading(i, 5)).collect();
    let packets = vec![packet(2, [1, 1, 1, 1, 1], sensors)];
    let gaps = cache.missing_hierarchy("st", &packets);
    assert_eq!(gaps.sensors, vec![(2, 0), (2, 1), (2, 2), (2, 3), (2, 4)]);
    let selected = select_new_readings(&packets);
    assert_eq!(selected.len(), 5);
}

#[test]
fn readings_are_deduplicated_within_a_payload() {
    let packets = vec![
        packet(0, [1, 1, 1, 0, 0], vec![reading(0, 100), reading(1, 100), reading(0, 100)]),
        packet(1, [1, 0, 0, 0, 0], vec![reading(0, 100), reading(1, 100)]),
        packet(0, [1, 1, 0, 0, 0], vec![reading(1, 100), reading(1, 101)]),
    ];
    let selected = select_new_readings(&packets);
    assert_eq!(
        selected,
        vec![
            ReadingSlot { packet: 0, slot: 0 },
            ReadingSlot { packet: 0, slot: 1 },
            ReadingSlot { packet: 1, slot: 0 },
            ReadingSlot { packet: 2, slot: 1 },
        ]
    );
}

#[test]
fn republished_packets_add_nothing() {
    let base = vec![
        packet(0, [1, 0, 1, 0, 0], vec![reading(3, 7), reading(4, 7), reading(5, 7)]),
        packet(2, [1, 1, 0, 0, 0], vec![reading(0, 9), reading(0, 9)]),
    ];
    let once = select_new_readings(&base);
    let mut twice = Vec::new();
    for _ in 0..2 {
        for p in &base {
            twice.push(packet(p.edge_id, p.active_flags, p.sensors.iter().map(|s| reading(s.id, s.timestamp)).collect()));
        }
    }
    assert_eq!(select_new_readings(&twice), once);
    assert_eq!(once.len(), 3);
}

#[test]
fn empty_payload_selects_nothing() {
    assert!(select_new_readings(&[]).is_empty());
    let cache = IngestCache::new();
    let gaps = cache.missing_hierarchy("st", &[]);
    assert!(gaps.edges.is_empty() && gaps.sensors.is_empty());
}

#[test]
fn repeated_payload_needs_no_writes() {
    let mut cache = IngestCache::new();
    let packets = vec![
        packet(1, [1, 1, 1, 0, 0], vec![reading(0, 1), reading(1, 1), reading(2, 1)]),
        packet(2, [0, 0, 0, 0, 1], vec![reading(0, 1), reading(1, 1), reading(2, 1), reading(3, 1), reading(4, 1)]),
    ];
    let (lat, lon) = (12.5f64.to_bits(), 99.25f64.to_bits());
    for round in 0..2 {
        let change = note(&mut cache, "s9", lat, lon);
        let writes = station_writes(change, None, lat, lon);
        let gaps = cache.missing_hierarchy("s9", &packets);
        if round == 0 {
            assert_eq!(writes, StationWrites { create: true, update: false, record_location: true });
            assert_eq!(gaps.edges, vec![1, 2]);
            assert_eq!(gaps.sensors, vec![(1, 0), (1, 1), (1, 2), (2, 4)]);
        } else {
            assert_eq!(writes, StationWrites { create: false, update: false, record_location: false });
            assert!(gaps.edges.is_empty() && gaps.sensors.is_empty());
        }
        cache.record_edges("s9", &gaps.edges);
        cache.record_sensors("s9", &gaps.sensors);
    }
}
