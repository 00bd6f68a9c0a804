use iot_metrics::frame::{decode_edge_packet, has_active_sensor, stamp_packet, Sensor, PACKET_SIZE};

fn encode(edge_id: i32, flags: [i32; 5], sensors: [(i32, u64, [f32; 5]); 5]) -> Vec<u8> {
    let mut b = Vec::new();
    b.extend_from_slice(&edge_id.to_le_bytes());
    for f in flags {
        b.extend_from_slice(&f.to_le_bytes());
    }
    for (id, ts, vals) in sensors {
        b.extend_from_slice(&id.to_le_bytes());
        b.extend_from_slice(&ts.to_le_bytes());
        for v in vals {
            b.extend_from_slice(&v.to_le_bytes());
        }
    }
    b
}

fn sample() -> Vec<u8> {
    encode(
        -7,
        [1, 0, 1, 0, 0],
        [
            (10, 1_700_000_000_000, [0.5, -1.25, 9.81, 45.5, 0.002]),
            (11, 2, [1.0, 2.0, 3.0, 4.0, 5.0]),
            (12, u64::MAX, [f32::INFINITY, -0.0, 1e-38, 99.0, 3.5]),
            (-1, 0, [0.0; 5]),
            (i32::MIN, 77, [0.0; 5]),
        ],
    )
}

#[test]
fn packet_size_matches_layout() {
    assert_eq!(PACKET_SIZE, 184);
    assert_eq!(sample().len(), PACKET_SIZE);
}

#[test]
fn decode_reads_every_field() {
    let p = decode_edge_packet(&sample()).expect("one packet");
    assert_eq!(p.edge_id, -7);
    assert_eq!(p.active_flags, [1, 0, 1, 0, 0]);
    assert_eq!(
        p.sensors[0],
        Sensor {
            id: 10,
            timestamp: 1_700_000_000_000,
            a_x: 0.5f32.to_bits(),
            a_y: (-1.25f32).to_bits(),
            a_z: 9.81f32.to_bits(),
            hum: 45.5f32.to_bits(),
            seis: 0.002f32.to_bits(),
        }
    );
    assert_eq!(p.sensors[2].timestamp, u64::MAX);
    assert_eq!(f32::from_bits(p.sensors[2].a_x), f32::INFINITY);
    assert_eq!(p.sensors[4].id, i32::MIN);
    assert_eq!(p.sensors[4].timestamp, 77);
}

#[test]
fn decode_rejects_wrong_lengths() {
    let b = sample();
    assert!(decode_edge_packet(&b[..183]).is_none());
    let mut longer = b.clone();
    longer.push(0);
    assert!(decode_edge_packet(&longer).is_none());
    assert!(decode_edge_packet(&[]).is_none());
}

#[test]
fn stamping_sets_clock_and_blanks_inactive() {
    let p = decode_edge_packet(&sample()).unwrap();
    let s = stamp_packet(p, 42);
    assert_eq!(s.edge_id, -7);
    assert_eq!(s.active_flags, p.active_flags);
    assert_eq!(s.sensors[0], Sensor { timestamp: 42, ..p.sensors[0] });
    assert_eq!(s.sensors[2], Sensor { timestamp: 42, ..p.sensors[2] });
    let blank = Sensor { id: -1, timestamp: 0, a_x: 0, a_y: 0, a_z: 0, hum: 0, seis: 0 };
    assert_eq!(s.sensors[1], blank);
    assert_eq!(s.sensors[3], blank);
    assert_eq!(s.sensors[4], blank);
    assert_eq!(f32::from_bits(blank.hum), 0.0);
    let again = stamp_packet(s, 42);
    assert_eq!(again.sensors, s.sensors);
}

#[test]
fn active_sensor_detection() {
    let p = decode_edge_packet(&sample()).unwrap();
    assert!(has_active_sensor(&p));
    let none = decode_edge_packet(&encode(1, [0, 2, -1, 0, 0], [(0, 0, [0.0; 5]); 5])).unwrap();
    assert!(!has_active_sensor(&none));
}
