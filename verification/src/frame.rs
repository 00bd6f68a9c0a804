//! The binary edge packet a station receives from its edge devices.
//!
//! An edge device sends a packed little-endian record of 184 bytes: the
//! edge id (i32), five activity flags (i32 each), then five sensor records
//! of 32 bytes each: id (i32), timestamp (u64), and the binary32
//! measurements a_x, a_y, a_z, hum, seis. The station stamps the active
//! sensors with its own clock and blanks the inactive ones.
use vstd::prelude::*;

verus! {

/// Size in bytes of one edge packet.
pub const PACKET_SIZE: usize = 184;

/// Number of sensor records in an edge packet.
pub const MAX_SENSORS: usize = 5;

/// Size in bytes of one sensor record.
pub const SENSOR_SIZE: usize = 32;

/// Offset of the first sensor record.
pub const SENSORS_OFFSET: usize = 24;

/// One sensor record; the measurements are binary32 bit patterns.
#[derive(Clone, Copy, Debug, PartialEq, Eq, Structural)]
pub struct Sensor {
    pub id: i32,
    pub timestamp: u64,
    pub a_x: u32,
    pub a_y: u32,
    pub a_z: u32,
    pub hum: u32,
    pub seis: u32,
}

/// One edge packet.
#[derive(Clone, Copy, Debug)]
pub struct EdgePacket {
    pub edge_id: i32,
    pub active_flags: [i32; 5],
    pub sensors: [Sensor; 5],
}

/// The little-endian u32 at `off`.
pub open spec fn le_u32(b: Seq<u8>, off: int) -> u32 {
    (b[off] + 256 * b[off + 1] + 65536 * b[off + 2] + 16777216 * b[off + 3]) as u32
}

/// The little-endian u64 at `off`.
pub open spec fn le_u64(b: Seq<u8>, off: int) -> u64 {
    (le_u32(b, off) + 4294967296 * le_u32(b, off + 4)) as u64
}

/// The little-endian two's-complement i32 at `off`.
pub open spec fn le_i32(b: Seq<u8>, off: int) -> i32 {
    le_u32(b, off) as i32
}

/// The sensor record that starts at `off`.
pub open spec fn sensor_at(b: Seq<u8>, off: int) -> Sensor {
    Sensor {
        id: le_i32(b, off),
        timestamp: le_u64(b, off + 4),
        a_x: le_u32(b, off + 12),
        a_y: le_u32(b, off + 16),
        a_z: le_u32(b, off + 20),
        hum: le_u32(b, off + 24),
        seis: le_u32(b, off + 28),
    }
}

/// Offset of sensor record `i`.
pub open spec fn sensor_offset(i: int) -> int {
    SENSORS_OFFSET + SENSOR_SIZE * i
}

/// Whether `p` is the packet that the bytes `b` encode.
pub open spec fn encodes(b: Seq<u8>, p: EdgePacket) -> bool {
    &&& b.len() == PACKET_SIZE
    &&& p.edge_id == le_i32(b, 0)
    &&& forall|i: int| 0 <= i < 5 ==> #[trigger] p.active_flags@[i] == le_i32(b, 4 + 4 * i)
    &&& forall|i: int| 0 <= i < 5 ==> #[trigger] p.sensors@[i] == sensor_at(b, sensor_offset(i))
}

fn read_u32(b: &[u8], off: usize) -> (v: u32)
    requires
        b@.len() == PACKET_SIZE,
        off + 4 <= PACKET_SIZE,
    ensures
        v == le_u32(b@, off as int),
{
    let v0 = b[off] as u32;
    let v1 = b[off + 1] as u32;
    let v2 = b[off + 2] as u32;
    let v3 = b[off + 3] as u32;
    v0 + 256 * v1 + 65536 * v2 + 16777216 * v3
}

fn read_i32(b: &[u8], off: usize) -> (v: i32)
    requires
        b@.len() == PACKET_SIZE,
        off + 4 <= PACKET_SIZE,
    ensures
        v == le_i32(b@, off as int),
{
    read_u32(b, off) as i32
}

fn read_u64(b: &[u8], off: usize) -> (v: u64)
    requires
        b@.len() == PACKET_SIZE,
        off + 8 <= PACKET_SIZE,
    ensures
        v == le_u64(b@, off as int),
{
    let lo = read_u32(b, off) as u64;
    let hi = read_u32(b, off + 4) as u64;
    lo + 4294967296 * hi
}

fn read_sensor(b: &[u8], off: usize) -> (s: Sensor)
    requires
        b@.len() == PACKET_SIZE,
        off + 32 <= PACKET_SIZE,
    ensures
        s == sensor_at(b@, off as int),
{
    Sensor {
        id: read_i32(b, off),
        timestamp: read_u64(b, off + 4),
        a_x: read_u32(b, off + 12),
        a_y: read_u32(b, off + 16),
        a_z: read_u32(b, off + 20),
        hum: read_u32(b, off + 24),
        seis: read_u32(b, off + 28),
    }
}

/// Decodes an edge packet; `None` exactly when the input is not one packet long.
pub fn decode_edge_packet(bytes: &[u8]) -> (p: Option<EdgePacket>)
    ensures
        p is None <==> bytes@.len() != PACKET_SIZE,
        p matches Some(p) ==> encodes(bytes@, p),
        p matches Some(p) ==> p.edge_id == le_i32(bytes@, 0),
        p matches Some(p) ==> forall|i: int|
            0 <= i < 5 ==> #[trigger] p.active_flags@[i] == le_i32(bytes@, 4 + 4 * i),
        p matches Some(p) ==> forall|i: int|
            #![trigger p.sensors@[i]]
            0 <= i < 5 ==> {
                &&& p.sensors@[i].id == le_i32(bytes@, 24 + 32 * i)
                &&& p.sensors@[i].timestamp == le_u64(bytes@, 28 + 32 * i)
                &&& p.sensors@[i].a_x == le_u32(bytes@, 36 + 32 * i)
                &&& p.sensors@[i].a_y == le_u32(bytes@, 40 + 32 * i)
                &&& p.sensors@[i].a_z == le_u32(bytes@, 44 + 32 * i)
                &&& p.sensors@[i].hum == le_u32(bytes@, 48 + 32 * i)
                &&& p.sensors@[i].seis == le_u32(bytes@, 52 + 32 * i)
            },
{
    if bytes.len() != PACKET_SIZE {
        return None;
    }
    let active_flags = [
        read_i32(bytes, 4),
        read_i32(bytes, 8),
        read_i32(bytes, 12),
        read_i32(bytes, 16),
        read_i32(bytes, 20),
    ];
    let sensors = [
        read_sensor(bytes, 24),
        read_sensor(bytes, 56),
        read_sensor(bytes, 88),
        read_sensor(bytes, 120),
        read_sensor(bytes, 152),
    ];
    let p = EdgePacket { edge_id: read_i32(bytes, 0), active_flags, sensors };
    assert forall|i: int| 0 <= i < 5 implies #[trigger] p.active_flags@[i] == le_i32(
        bytes@,
        4 + 4 * i,
    ) by {
        if i == 0 {} else if i == 1 {} else if i == 2 {} else if i == 3 {} else {}
    }
    assert forall|i: int| 0 <= i < 5 implies #[trigger] p.sensors@[i] == sensor_at(
        bytes@,
        sensor_offset(i),
    ) by {
        if i == 0 {} else if i == 1 {} else if i == 2 {} else if i == 3 {} else {}
    }
    Some(p)
}

/// The record that stands in an inactive slot: id -1, everything else zero.
pub open spec fn blank_sensor() -> Sensor {
    Sensor { id: -1i32, timestamp: 0, a_x: 0, a_y: 0, a_z: 0, hum: 0, seis: 0 }
}

/// The sensor record in slot `i` after stamping at time `now`.
pub open spec fn stamped_sensor(p: EdgePacket, i: int, now: u64) -> Sensor {
    if p.active_flags@[i] == 1 {
        Sensor { timestamp: now, ..p.sensors@[i] }
    } else {
        blank_sensor()
    }
}

/// Stamps a packet with the station's clock (milliseconds since the epoch):
/// each active sensor (flag `1`) gets that timestamp, each inactive slot
/// gets the blank record. The edge id and the flags stay.
pub fn stamp_packet(packet: EdgePacket, now: u64) -> (p: EdgePacket)
    ensures
        p.edge_id == packet.edge_id,
        p.active_flags@ == packet.active_flags@,
        forall|i: int| 0 <= i < 5 ==> #[trigger] p.sensors@[i] == stamped_sensor(packet, i, now),
        forall|i: int|
            #![trigger p.sensors@[i]]
            0 <= i < 5 && packet.active_flags@[i] == 1 ==> {
                &&& p.sensors@[i].timestamp == now
                &&& p.sensors@[i].id == packet.sensors@[i].id
                &&& p.sensors@[i].a_x == packet.sensors@[i].a_x
                &&& p.sensors@[i].a_y == packet.sensors@[i].a_y
                &&& p.sensors@[i].a_z == packet.sensors@[i].a_z
                &&& p.sensors@[i].hum == packet.sensors@[i].hum
                &&& p.sensors@[i].seis == packet.sensors@[i].seis
            },
        forall|i: int|
            #![trigger p.sensors@[i]]
            0 <= i < 5 && packet.active_flags@[i] != 1 ==> {
                &&& p.sensors@[i].id == -1
                &&& p.sensors@[i].timestamp == 0
                &&& p.sensors@[i].a_x == 0
                &&& p.sensors@[i].a_y == 0
                &&& p.sensors@[i].a_z == 0
                &&& p.sensors@[i].hum == 0
                &&& p.sensors@[i].seis == 0
            },
{
    let mut p = packet;
    let mut i: usize = 0;
    while i < MAX_SENSORS
        invariant
            i <= 5,
            p.edge_id == packet.edge_id,
            p.active_flags@ == packet.active_flags@,
            forall|j: int| 0 <= j < i ==> #[trigger] p.sensors@[j] == stamped_sensor(packet, j, now),
            forall|j: int| i <= j < 5 ==> #[trigger] p.sensors@[j] == packet.sensors@[j],
        decreases 5 - i,
    {
        let s = if p.active_flags[i] == 1 {
            Sensor { timestamp: now, ..p.sensors[i] }
        } else {
            Sensor { id: -1i32, timestamp: 0, a_x: 0, a_y: 0, a_z: 0, hum: 0, seis: 0 }
        };
        p.sensors[i] = s;
        i = i + 1;
    }
    p
}

/// Whether any of the five slots is active.
pub fn has_active_sensor(packet: &EdgePacket) -> (res: bool)
    ensures
        res == exists|i: int| 0 <= i < 5 && packet.active_flags@[i] == 1,
{
    let mut i: usize = 0;
    while i < MAX_SENSORS
        invariant
            i <= 5,
            forall|j: int| 0 <= j < i ==> packet.active_flags@[j] != 1,
        decreases 5 - i,
    {
        if packet.active_flags[i] == 1 {
            return true;
        }
        i = i + 1;
    }
    false
}

/// Stamping twice at the same time is the same as stamping once.
pub proof fn lemma_stamp_idempotent(packet: EdgePacket, once: EdgePacket, twice: EdgePacket, now: u64)
    requires
        once.edge_id == packet.edge_id,
        once.active_flags@ == packet.active_flags@,
        forall|i: int| 0 <= i < 5 ==> #[trigger] once.sensors@[i] == stamped_sensor(packet, i, now),
    ensures
        forall|i: int| 0 <= i < 5 ==> #[trigger] stamped_sensor(once, i, now) == once.sensors@[i],
{
}

} // verus!
