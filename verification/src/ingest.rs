//! Planning the ingest of one station payload.
//!
//! A payload carries a station's position and the packets of its edge
//! devices; each packet has five sensor slots, of which those flagged `1`
//! are active. The service keeps a cache of what it has already written:
//! the last known position of each station, and the (station, edge) and
//! (station, edge, sensor) triples that are registered. From the payload
//! and the cache it decides which station writes to make, which edges and
//! sensors to register, and which readings to insert (each
//! (edge, sensor, timestamp) once per payload).
//!
//! Coordinates are binary64 values and readings binary32 values, carried
//! as bit patterns.
use vstd::prelude::*;
use vstd::hash_map::StringHashMap;
use vstd::hash_set::HashSetWithView;
use crate::ieee::{f64_eq, f64_same};
use crate::text::str_eq;

verus! {

broadcast use vstd::std_specs::hash::group_hash_axioms;

/// Number of sensor slots in an edge packet.
pub const SENSOR_SLOTS: usize = 5;

/// One sensor reading; the five measurements are binary32 bit patterns.
pub struct SensorReading {
    pub id: i32,
    pub timestamp: i64,
    pub a_x: u32,
    pub a_y: u32,
    pub a_z: u32,
    pub hum: u32,
    pub seis: u32,
}

/// The readings an edge device reported in one window.
pub struct EdgePacket {
    pub edge_id: i32,
    pub active_flags: [i32; 5],
    pub sensors: Vec<SensorReading>,
}

/// What a station sends: its identity, its position (binary64 bit
/// patterns) and the packets of its edges.
pub struct ApiPayload {
    pub station_id: String,
    pub latitude: u64,
    pub longitude: u64,
    pub data: Vec<EdgePacket>,
}

/// Whether slot `i` of a packet is active: it is one of the five flagged
/// slots and its flag is `1`. Readings beyond the fifth slot are never active.
pub open spec fn slot_active(p: EdgePacket, i: int) -> bool {
    0 <= i < 5 && p.active_flags@[i] == 1
}

/// How a reported position compares to the cached one.
#[derive(Clone, Copy, Debug, PartialEq, Eq, Structural)]
pub enum LocationChange {
    /// Same latitude and longitude as cached.
    Unchanged,
    /// The station is cached with another position.
    Moved,
    /// The station is not cached yet.
    FirstSeen,
}

/// The change a report makes against a cache of positions.
pub open spec fn location_change(
    cache: Map<Seq<char>, (u64, u64)>,
    station: Seq<char>,
    latitude: u64,
    longitude: u64,
) -> LocationChange {
    if !cache.contains_key(station) {
        LocationChange::FirstSeen
    } else if f64_eq(cache[station].0, latitude) && f64_eq(cache[station].1, longitude) {
        LocationChange::Unchanged
    } else {
        LocationChange::Moved
    }
}

/// The cache of positions after a report: unchanged when the position is
/// the same, else holding the reported position.
pub open spec fn located(
    cache: Map<Seq<char>, (u64, u64)>,
    station: Seq<char>,
    latitude: u64,
    longitude: u64,
) -> Map<Seq<char>, (u64, u64)> {
    if location_change(cache, station, latitude, longitude) == LocationChange::Unchanged {
        cache
    } else {
        cache.insert(station, (latitude, longitude))
    }
}

/// The station-table writes that follow from a position report.
#[derive(Clone, Copy, Debug, PartialEq, Eq, Structural)]
pub struct StationWrites {
    /// Insert the station with the reported position.
    pub create: bool,
    /// Overwrite the station's position.
    pub update: bool,
    /// Append the position to the station's location history.
    pub record_location: bool,
}

impl LocationChange {
    /// A station seen for the first time is looked up in the store before
    /// it is written.
    pub fn needs_lookup(&self) -> (res: bool)
        ensures
            res == (*self == LocationChange::FirstSeen),
    {
        match self {
            LocationChange::FirstSeen => true,
            _ => false,
        }
    }
}

/// Whether a known position equals the reported one (`==` on both
/// coordinates); an unknown position never does.
pub open spec fn same_position(known: Option<(u64, u64)>, latitude: u64, longitude: u64) -> bool {
    match known {
        Some(p) => f64_eq(p.0, latitude) && f64_eq(p.1, longitude),
        None => false,
    }
}

/// The last known position of a station: the cached one, else the one in
/// the store (`stored`, looked up only for a station not cached yet).
pub open spec fn last_known(
    cache: Map<Seq<char>, (u64, u64)>,
    station: Seq<char>,
    stored: Option<(u64, u64)>,
) -> Option<(u64, u64)> {
    if cache.contains_key(station) {
        Some(cache[station])
    } else {
        stored
    }
}

/// The writes for a position report. A station not cached yet is created
/// when the store lacks it and updated otherwise; a moved station is
/// updated. The location history gets a row when the station moved, or,
/// for a station not cached yet, when the store lacks it or holds another
/// position. `stored` is the store's position of the station, which
/// matters only for a station not cached yet.
pub open spec fn writes_for(
    change: LocationChange,
    stored: Option<(u64, u64)>,
    latitude: u64,
    longitude: u64,
) -> StationWrites {
    StationWrites {
        create: change == LocationChange::FirstSeen && stored is None,
        update: change == LocationChange::Moved || (change == LocationChange::FirstSeen
            && stored is Some),
        record_location: change == LocationChange::Moved || (change == LocationChange::FirstSeen
            && !same_position(stored, latitude, longitude)),
    }
}

/// The station-table writes for a position report.
pub fn station_writes(
    change: LocationChange,
    stored: Option<(u64, u64)>,
    latitude: u64,
    longitude: u64,
) -> (w: StationWrites)
    ensures
        w == writes_for(change, stored, latitude, longitude),
{
    match change {
        LocationChange::Unchanged => StationWrites {
            create: false,
            update: false,
            record_location: false,
        },
        LocationChange::Moved => StationWrites { create: false, update: true, record_location: true },
        LocationChange::FirstSeen => match stored {
            None => StationWrites { create: true, update: false, record_location: true },
            Some(p) => StationWrites {
                create: false,
                update: true,
                record_location: !(f64_same(p.0, latitude) && f64_same(p.1, longitude)),
            },
        },
    }
}

/// The location history gets a row exactly when the reported position
/// differs from the last known one (cached, else stored; a station known
/// to neither gets its first row). A station is created only when it is
/// neither cached nor stored, never both created and updated, and a
/// history row always comes with a station write.
pub proof fn lemma_history_only_on_change(
    cache: Map<Seq<char>, (u64, u64)>,
    station: Seq<char>,
    latitude: u64,
    longitude: u64,
    stored: Option<(u64, u64)>,
)
    ensures
        ({
            let w = writes_for(
                location_change(cache, station, latitude, longitude),
                stored,
                latitude,
                longitude,
            );
            &&& w.record_location <==> !same_position(
                last_known(cache, station, stored),
                latitude,
                longitude,
            )
            &&& w.create ==> !cache.contains_key(station) && stored is None
            &&& !(w.create && w.update)
            &&& w.record_location ==> (w.create || w.update)
        }),
{
}

/// Comparing a report leaves the cache as it was, so until the report is
/// committed a repeated report differing from the last known position
/// again calls for a station write and a history row: a round whose
/// writes failed is repeated in full. Once committed, a report without NaN
/// coordinates calls for no write.
pub proof fn lemma_retry_until_committed(
    cache: Map<Seq<char>, (u64, u64)>,
    station: Seq<char>,
    latitude: u64,
    longitude: u64,
    stored: Option<(u64, u64)>,
)
    ensures
        !same_position(last_known(cache, station, stored), latitude, longitude) ==> ({
            let w = writes_for(
                location_change(cache, station, latitude, longitude),
                stored,
                latitude,
                longitude,
            );
            w.record_location && (w.create || w.update)
        }),
        !crate::ieee::f64_is_nan(latitude) && !crate::ieee::f64_is_nan(longitude) ==> writes_for(
            location_change(located(cache, station, latitude, longitude), station, latitude, longitude),
            stored,
            latitude,
            longitude,
        ) == (StationWrites { create: false, update: false, record_location: false }),
{
}

/// The key under which an edge is registered.
pub open spec fn edge_key(e: (String, i32)) -> (Seq<char>, i32) {
    (e.0@, e.1)
}

/// The key under which a sensor is registered.
pub open spec fn sensor_key(s: (String, i32, i32)) -> (Seq<char>, i32, i32) {
    (s.0@, s.1, s.2)
}

/// What the service has already written: station positions and the
/// registered edges and sensors.
///
/// Positions are kept in vstd's `StringHashMap`. The edge and sensor keys
/// hold the station name, a `String`; vstd specifies its hash sets only for
/// keys that obey its hashing model (the integer types), so these two sets
/// are vectors of distinct keys, searched in order.
pub struct IngestCache {
    locations: StringHashMap<(u64, u64)>,
    edges: Vec<(String, i32)>,
    sensors: Vec<(String, i32, i32)>,
}

/// Mathematical view of the cache.
#[verifier::ext_equal]
pub ghost struct CacheView {
    pub locations: Map<Seq<char>, (u64, u64)>,
    pub edges: Set<(Seq<char>, i32)>,
    pub sensors: Set<(Seq<char>, i32, i32)>,
}

impl View for IngestCache {
    type V = CacheView;

    open spec fn view(&self) -> CacheView {
        CacheView {
            locations: self.locations(),
            edges: self.seen_edges(),
            sensors: self.seen_sensors(),
        }
    }
}

/// Mathematical view of a payload.
pub ghost struct PayloadView {
    pub station: Seq<char>,
    pub latitude: u64,
    pub longitude: u64,
    pub packets: Seq<EdgePacket>,
}

impl View for ApiPayload {
    type V = PayloadView;

    open spec fn view(&self) -> PayloadView {
        PayloadView {
            station: self.station_id@,
            latitude: self.latitude,
            longitude: self.longitude,
            packets: self.data@,
        }
    }
}

impl IngestCache {
    /// The cached position of each station.
    pub closed spec fn locations(&self) -> Map<Seq<char>, (u64, u64)> {
        self.locations@
    }

    /// The registered (station, edge) pairs.
    pub closed spec fn seen_edges(&self) -> Set<(Seq<char>, i32)> {
        Set::new(
            |k: (Seq<char>, i32)|
                exists|i: int| 0 <= i < self.edges@.len() && #[trigger] edge_key(self.edges@[i]) == k,
        )
    }

    /// The registered (station, edge, sensor) triples.
    pub closed spec fn seen_sensors(&self) -> Set<(Seq<char>, i32, i32)> {
        Set::new(
            |k: (Seq<char>, i32, i32)|
                exists|i: int|
                    0 <= i < self.sensors@.len() && #[trigger] sensor_key(self.sensors@[i]) == k,
        )
    }

    /// An empty cache.
    pub fn new() -> (c: IngestCache)
        ensures
            c.locations() == Map::<Seq<char>, (u64, u64)>::empty(),
            c.seen_edges() == Set::<(Seq<char>, i32)>::empty(),
            c.seen_sensors() == Set::<(Seq<char>, i32, i32)>::empty(),
    {
        let c = IngestCache { locations: StringHashMap::new(), edges: Vec::new(), sensors: Vec::new() };
        assert(c.seen_edges() =~= Set::<(Seq<char>, i32)>::empty());
        assert(c.seen_sensors() =~= Set::<(Seq<char>, i32, i32)>::empty());
        c
    }

    /// Compares a reported position with the cached one; the cache is not
    /// changed, so a report stays a change until it is committed.
    pub fn compare_location(&self, station_id: &str, latitude: u64, longitude: u64) -> (change:
        LocationChange)
        ensures
            change == location_change(self.locations(), station_id@, latitude, longitude),
    {
        match self.locations.get(station_id) {
            Some(cached) => {
                if f64_same(cached.0, latitude) && f64_same(cached.1, longitude) {
                    LocationChange::Unchanged
                } else {
                    LocationChange::Moved
                }
            },
            None => LocationChange::FirstSeen,
        }
    }

    /// Caches a reported position, once the writes it called for succeeded.
    pub fn commit_location(&mut self, station_id: &str, latitude: u64, longitude: u64)
        ensures
            final(self).locations() == located(
                old(self).locations(),
                station_id@,
                latitude,
                longitude,
            ),
            final(self).seen_edges() == old(self).seen_edges(),
            final(self).seen_sensors() == old(self).seen_sensors(),
    {
        match self.compare_location(station_id, latitude, longitude) {
            LocationChange::Unchanged => {},
            _ => {
                self.locations.insert(station_id.to_owned(), (latitude, longitude));
            },
        }
    }

    /// Whether a (station, edge) pair is registered.
    pub fn knows_edge(&self, station_id: &str, edge_id: i32) -> (res: bool)
        ensures
            res == self.seen_edges().contains((station_id@, edge_id)),
    {
        let mut i: usize = 0;
        while i < self.edges.len()
            invariant
                i <= self.edges@.len(),
                forall|j: int| 0 <= j < i ==> edge_key(self.edges@[j]) != (station_id@, edge_id),
            decreases self.edges@.len() - i,
        {
            if self.edges[i].1 == edge_id && str_eq(self.edges[i].0.as_str(), station_id) {
                assert(edge_key(self.edges@[i as int]) == (station_id@, edge_id));
                return true;
            }
            i = i + 1;
        }
        false
    }

    /// Whether a (station, edge, sensor) triple is registered.
    pub fn knows_sensor(&self, station_id: &str, edge_id: i32, sensor_id: i32) -> (res: bool)
        ensures
            res == self.seen_sensors().contains((station_id@, edge_id, sensor_id)),
    {
        let mut i: usize = 0;
        while i < self.sensors.len()
            invariant
                i <= self.sensors@.len(),
                forall|j: int|
                    0 <= j < i ==> sensor_key(self.sensors@[j]) != (station_id@, edge_id, sensor_id),
            decreases self.sensors@.len() - i,
        {
            if self.sensors[i].1 == edge_id && self.sensors[i].2 == sensor_id && str_eq(
                self.sensors[i].0.as_str(),
                station_id,
            ) {
                assert(sensor_key(self.sensors@[i as int]) == (station_id@, edge_id, sensor_id));
                return true;
            }
            i = i + 1;
        }
        false
    }

    /// Registers a (station, edge) pair.
    pub fn insert_edge(&mut self, station_id: &str, edge_id: i32)
        ensures
            final(self).seen_edges() == old(self).seen_edges().insert((station_id@, edge_id)),
            final(self).seen_sensors() == old(self).seen_sensors(),
            final(self).locations() == old(self).locations(),
    {
        if !self.knows_edge(station_id, edge_id) {
            let ghost prev = self.edges@;
            self.edges.push((station_id.to_owned(), edge_id));
            assert(edge_key(self.edges@[prev.len() as int]) == (station_id@, edge_id));
            assert forall|k: (Seq<char>, i32)|
                #![auto]
                old(self).seen_edges().insert((station_id@, edge_id)).contains(k) implies self.seen_edges().contains(k) by {
                if k != (station_id@, edge_id) {
                    let j = choose|j: int| 0 <= j < prev.len() && #[trigger] edge_key(prev[j]) == k;
                    assert(self.edges@[j] == prev[j]);
                }
            }
            assert forall|k: (Seq<char>, i32)|
                #![auto]
                self.seen_edges().contains(k) implies old(self).seen_edges().insert((station_id@, edge_id)).contains(k) by {
                let j = choose|j: int| 0 <= j < self.edges@.len() && #[trigger] edge_key(self.edges@[j]) == k;
                if j < prev.len() {
                    assert(prev[j] == self.edges@[j]);
                }
            }
            assert(self.seen_edges() =~= old(self).seen_edges().insert((station_id@, edge_id)));
        } else {
            assert(self.seen_edges() =~= old(self).seen_edges().insert((station_id@, edge_id)));
        }
    }

    /// Registers a (station, edge, sensor) triple.
    pub fn insert_sensor(&mut self, station_id: &str, edge_id: i32, sensor_id: i32)
        ensures
            final(self).seen_sensors() == old(self).seen_sensors().insert(
                (station_id@, edge_id, sensor_id),
            ),
            final(self).seen_edges() == old(self).seen_edges(),
            final(self).locations() == old(self).locations(),
    {
        if !self.knows_sensor(station_id, edge_id, sensor_id) {
            let ghost prev = self.sensors@;
            let ghost key = (station_id@, edge_id, sensor_id);
            self.sensors.push((station_id.to_owned(), edge_id, sensor_id));
            assert(sensor_key(self.sensors@[prev.len() as int]) == key);
            assert forall|k: (Seq<char>, i32, i32)|
                #![auto]
                old(self).seen_sensors().insert(key).contains(k) implies self.seen_sensors().contains(k) by {
                if k != key {
                    let j = choose|j: int| 0 <= j < prev.len() && #[trigger] sensor_key(prev[j]) == k;
                    assert(self.sensors@[j] == prev[j]);
                }
            }
            assert forall|k: (Seq<char>, i32, i32)|
                #![auto]
                self.seen_sensors().contains(k) implies old(self).seen_sensors().insert(key).contains(k) by {
                let j = choose|j: int|
                    0 <= j < self.sensors@.len() && #[trigger] sensor_key(self.sensors@[j]) == k;
                if j < prev.len() {
                    assert(prev[j] == self.sensors@[j]);
                }
            }
            assert(self.seen_sensors() =~= old(self).seen_sensors().insert(key));
        } else {
            assert(self.seen_sensors() =~= old(self).seen_sensors().insert(
                (station_id@, edge_id, sensor_id),
            ));
        }
    }
}


/// The edges of the first `k` packets that are not registered for the
/// station, in packet order (an edge occurs once per packet that names it).
pub open spec fn missing_edges_upto(
    seen: Set<(Seq<char>, i32)>,
    station: Seq<char>,
    packets: Seq<EdgePacket>,
    k: int,
) -> Seq<i32>
    decreases k,
{
    if k <= 0 {
        seq![]
    } else {
        let e = packets[k - 1].edge_id;
        missing_edges_upto(seen, station, packets, k - 1) + if seen.contains((station, e)) {
            Seq::<i32>::empty()
        } else {
            seq![e]
        }
    }
}

/// The unregistered edges of all packets.
pub open spec fn missing_edges(
    seen: Set<(Seq<char>, i32)>,
    station: Seq<char>,
    packets: Seq<EdgePacket>,
) -> Seq<i32> {
    missing_edges_upto(seen, station, packets, packets.len() as int)
}

/// The (edge, sensor) pairs of the active slots among the first `n`
/// readings of a packet that are not registered for the station.
pub open spec fn missing_sensors_in(
    seen: Set<(Seq<char>, i32, i32)>,
    station: Seq<char>,
    p: EdgePacket,
    n: int,
) -> Seq<(i32, i32)>
    decreases n,
{
    if n <= 0 {
        seq![]
    } else {
        let id = p.sensors@[n - 1].id;
        missing_sensors_in(seen, station, p, n - 1) + if slot_active(p, n - 1) && !seen.contains(
            (station, p.edge_id, id),
        ) {
            seq![(p.edge_id, id)]
        } else {
            Seq::<(i32, i32)>::empty()
        }
    }
}

/// The unregistered (edge, sensor) pairs of the first `k` packets, in order.
pub open spec fn missing_sensors_upto(
    seen: Set<(Seq<char>, i32, i32)>,
    station: Seq<char>,
    packets: Seq<EdgePacket>,
    k: int,
) -> Seq<(i32, i32)>
    decreases k,
{
    if k <= 0 {
        seq![]
    } else {
        missing_sensors_upto(seen, station, packets, k - 1) + missing_sensors_in(
            seen,
            station,
            packets[k - 1],
            packets[k - 1].sensors@.len() as int,
        )
    }
}

/// The unregistered (edge, sensor) pairs of all packets.
pub open spec fn missing_sensors(
    seen: Set<(Seq<char>, i32, i32)>,
    station: Seq<char>,
    packets: Seq<EdgePacket>,
) -> Seq<(i32, i32)> {
    missing_sensors_upto(seen, station, packets, packets.len() as int)
}

/// The (station, edge) pairs for a list of edges.
pub open spec fn edge_keys(station: Seq<char>, edges: Seq<i32>) -> Set<(Seq<char>, i32)> {
    Set::new(|k: (Seq<char>, i32)| k.0 == station && edges.contains(k.1))
}

/// The (station, edge, sensor) triples for a list of (edge, sensor) pairs.
pub open spec fn sensor_keys(station: Seq<char>, sensors: Seq<(i32, i32)>) -> Set<
    (Seq<char>, i32, i32),
> {
    Set::new(|k: (Seq<char>, i32, i32)| k.0 == station && sensors.contains((k.1, k.2)))
}

/// The edges and sensors of a payload that still have to be registered.
pub struct HierarchyGaps {
    pub edges: Vec<i32>,
    pub sensors: Vec<(i32, i32)>,
}

impl IngestCache {
    /// The edges and (edge, sensor) pairs of the packets that the cache does
    /// not hold for the station, in payload order.
    pub fn missing_hierarchy(&self, station_id: &str, packets: &[EdgePacket]) -> (gaps:
        HierarchyGaps)
        ensures
            gaps.edges@ == missing_edges(self.seen_edges(), station_id@, packets@),
            gaps.sensors@ == missing_sensors(self.seen_sensors(), station_id@, packets@),
    {
        let ghost seen_e = self.seen_edges();
        let ghost seen_s = self.seen_sensors();
        let ghost st = station_id@;
        let mut edges: Vec<i32> = Vec::new();
        let mut sensors: Vec<(i32, i32)> = Vec::new();
        let mut k: usize = 0;
        while k < packets.len()
            invariant
                seen_e == self.seen_edges(),
                seen_s == self.seen_sensors(),
                st == station_id@,
                k <= packets@.len(),
                edges@ == missing_edges_upto(seen_e, st, packets@, k as int),
                sensors@ == missing_sensors_upto(seen_s, st, packets@, k as int),
            decreases packets@.len() - k,
        {
            let packet = &packets[k];
            if !self.knows_edge(station_id, packet.edge_id) {
                edges.push(packet.edge_id);
            }
            let ghost before = sensors@;
            let mut i: usize = 0;
            while i < packet.sensors.len()
                invariant
                    seen_s == self.seen_sensors(),
                    st == station_id@,
                    *packet == packets@[k as int],
                    i <= packet.sensors@.len(),
                    sensors@ == before + missing_sensors_in(seen_s, st, *packet, i as int),
                decreases packet.sensors@.len() - i,
            {
                let id = packet.sensors[i].id;
                if i < SENSOR_SLOTS && packet.active_flags[i] == 1 && !self.knows_sensor(
                    station_id,
                    packet.edge_id,
                    id,
                ) {
                    sensors.push((packet.edge_id, id));
                }
                proof {
                    let prev = missing_sensors_in(seen_s, st, *packet, i as int);
                    assert(before + prev.push((packet.edge_id, id)) =~= (before + prev).push(
                        (packet.edge_id, id),
                    ));
                }
                i = i + 1;
            }
            proof {
                assert(sensors@ =~= before + missing_sensors_in(
                    seen_s,
                    st,
                    packets@[k as int],
                    packets@[k as int].sensors@.len() as int,
                ));
            }
            k = k + 1;
        }
        HierarchyGaps { edges, sensors }
    }

    /// Registers the given edges for the station.
    pub fn record_edges(&mut self, station_id: &str, edges: &[i32])
        ensures
            final(self).seen_edges() == old(self).seen_edges().union(
                edge_keys(station_id@, edges@),
            ),
            final(self).seen_sensors() == old(self).seen_sensors(),
            final(self).locations() == old(self).locations(),
    {
        let mut i: usize = 0;
        while i < edges.len()
            invariant
                i <= edges@.len(),
                self.seen_edges() == old(self).seen_edges().union(
                    edge_keys(station_id@, edges@.take(i as int)),
                ),
                self.seen_sensors() == old(self).seen_sensors(),
                self.locations() == old(self).locations(),
            decreases edges@.len() - i,
        {
            let ghost before = self.seen_edges();
            self.insert_edge(station_id, edges[i]);
            proof {
                let t0 = edges@.take(i as int);
                let t1 = edges@.take(i + 1);
                assert(t1 =~= t0.push(edges@[i as int]));
                assert forall|k: (Seq<char>, i32)| #[trigger]
                    edge_keys(station_id@, t1).contains(k) == (edge_keys(
                        station_id@,
                        t0,
                    ).contains(k) || k == (station_id@, edges@[i as int])) by {
                    if t1.contains(k.1) && k.1 != edges@[i as int] {
                        let j = choose|j: int| 0 <= j < t1.len() && t1[j] == k.1;
                        assert(t0[j] == k.1);
                    }
                    if t0.contains(k.1) {
                        let j = choose|j: int| 0 <= j < t0.len() && t0[j] == k.1;
                        assert(t1[j] == k.1);
                    }
                    if k.1 == edges@[i as int] {
                        assert(t1[i as int] == k.1);
                    }
                }
                assert(self.seen_edges() =~= old(self).seen_edges().union(
                    edge_keys(station_id@, t1),
                ));
            }
            i = i + 1;
        }
        assert(edges@.take(edges@.len() as int) =~= edges@);
    }

    /// Registers the given (edge, sensor) pairs for the station.
    pub fn record_sensors(&mut self, station_id: &str, sensors: &[(i32, i32)])
        ensures
            final(self).seen_sensors() == old(self).seen_sensors().union(
                sensor_keys(station_id@, sensors@),
            ),
            final(self).seen_edges() == old(self).seen_edges(),
            final(self).locations() == old(self).locations(),
    {
        let mut i: usize = 0;
        while i < sensors.len()
            invariant
                i <= sensors@.len(),
                self.seen_sensors() == old(self).seen_sensors().union(
                    sensor_keys(station_id@, sensors@.take(i as int)),
                ),
                self.seen_edges() == old(self).seen_edges(),
                self.locations() == old(self).locations(),
            decreases sensors@.len() - i,
        {
            let (edge_id, sensor_id) = sensors[i];
            self.insert_sensor(station_id, edge_id, sensor_id);
            proof {
                let t0 = sensors@.take(i as int);
                let t1 = sensors@.take(i + 1);
                let x = sensors@[i as int];
                assert(t1 =~= t0.push(x));
                assert forall|k: (Seq<char>, i32, i32)| #[trigger]
                    sensor_keys(station_id@, t1).contains(k) == (sensor_keys(
                        station_id@,
                        t0,
                    ).contains(k) || k == (station_id@, x.0, x.1)) by {
                    let e = (k.1, k.2);
                    if t1.contains(e) && e != x {
                        let j = choose|j: int| 0 <= j < t1.len() && t1[j] == e;
                        assert(t0[j] == e);
                    }
                    if t0.contains(e) {
                        let j = choose|j: int| 0 <= j < t0.len() && t0[j] == e;
                        assert(t1[j] == e);
                    }
                    if e == x {
                        assert(t1[i as int] == e);
                    }
                }
                assert(self.seen_sensors() =~= old(self).seen_sensors().union(
                    sensor_keys(station_id@, t1),
                ));
            }
            i = i + 1;
        }
        assert(sensors@.take(sensors@.len() as int) =~= sensors@);
    }
}


/// Every packet's edge is either registered or among the missing edges.
pub proof fn lemma_edges_covered(
    seen: Set<(Seq<char>, i32)>,
    st: Seq<char>,
    ps: Seq<EdgePacket>,
    k: int,
)
    requires
        0 <= k <= ps.len(),
    ensures
        forall|j: int|
            0 <= j < k ==> seen.contains((st, #[trigger] ps[j].edge_id)) || missing_edges_upto(
                seen,
                st,
                ps,
                k,
            ).contains(ps[j].edge_id),
    decreases k,
{
    if k > 0 {
        lemma_edges_covered(seen, st, ps, k - 1);
        let prev = missing_edges_upto(seen, st, ps, k - 1);
        let cur = missing_edges_upto(seen, st, ps, k);
        assert forall|j: int| 0 <= j < k implies seen.contains((st, #[trigger] ps[j].edge_id))
            || cur.contains(ps[j].edge_id) by {
            let e = ps[j].edge_id;
            if j < k - 1 {
                if prev.contains(e) {
                    let t = choose|t: int| 0 <= t < prev.len() && prev[t] == e;
                    assert(cur[t] == e);
                }
            } else if !seen.contains((st, e)) {
                assert(cur[prev.len() as int] == e);
            }
        }
    }
}

proof fn lemma_edges_none_missing(
    seen: Set<(Seq<char>, i32)>,
    st: Seq<char>,
    ps: Seq<EdgePacket>,
    k: int,
)
    requires
        0 <= k <= ps.len(),
        forall|j: int| 0 <= j < k ==> seen.contains((st, #[trigger] ps[j].edge_id)),
    ensures
        missing_edges_upto(seen, st, ps, k) == Seq::<i32>::empty(),
    decreases k,
{
    if k > 0 {
        lemma_edges_none_missing(seen, st, ps, k - 1);
        assert(missing_edges_upto(seen, st, ps, k) =~= Seq::<i32>::empty());
    }
}

proof fn lemma_slots_covered(
    seen: Set<(Seq<char>, i32, i32)>,
    st: Seq<char>,
    p: EdgePacket,
    n: int,
)
    requires
        0 <= n <= p.sensors@.len(),
    ensures
        forall|i: int|
            0 <= i < n && slot_active(p, i) ==> seen.contains(
                (st, p.edge_id, #[trigger] p.sensors@[i].id),
            ) || missing_sensors_in(seen, st, p, n).contains((p.edge_id, p.sensors@[i].id)),
    decreases n,
{
    if n > 0 {
        lemma_slots_covered(seen, st, p, n - 1);
        let prev = missing_sensors_in(seen, st, p, n - 1);
        let cur = missing_sensors_in(seen, st, p, n);
        assert forall|i: int| 0 <= i < n && slot_active(p, i) implies seen.contains(
            (st, p.edge_id, #[trigger] p.sensors@[i].id),
        ) || cur.contains((p.edge_id, p.sensors@[i].id)) by {
            let e = (p.edge_id, p.sensors@[i].id);
            if i < n - 1 {
                if prev.contains(e) {
                    let t = choose|t: int| 0 <= t < prev.len() && prev[t] == e;
                    assert(cur[t] == e);
                }
            } else if !seen.contains((st, p.edge_id, p.sensors@[i].id)) {
                assert(cur[prev.len() as int] == e);
            }
        }
    }
}

proof fn lemma_slots_none_missing(
    seen: Set<(Seq<char>, i32, i32)>,
    st: Seq<char>,
    p: EdgePacket,
    n: int,
)
    requires
        0 <= n <= p.sensors@.len(),
        forall|i: int|
            0 <= i < n && slot_active(p, i) ==> seen.contains(
                (st, p.edge_id, #[trigger] p.sensors@[i].id),
            ),
    ensures
        missing_sensors_in(seen, st, p, n) == Seq::<(i32, i32)>::empty(),
    decreases n,
{
    if n > 0 {
        lemma_slots_none_missing(seen, st, p, n - 1);
        assert(missing_sensors_in(seen, st, p, n) =~= Seq::<(i32, i32)>::empty());
    }
}

/// Every active sensor of every packet is either registered or among the
/// missing sensors.
pub proof fn lemma_sensors_covered(
    seen: Set<(Seq<char>, i32, i32)>,
    st: Seq<char>,
    ps: Seq<EdgePacket>,
    k: int,
)
    requires
        0 <= k <= ps.len(),
    ensures
        forall|j: int, i: int|
            0 <= j < k && 0 <= i < ps[j].sensors@.len() && slot_active(ps[j], i)
                ==> seen.contains((st, ps[j].edge_id, #[trigger] ps[j].sensors@[i].id))
                || missing_sensors_upto(seen, st, ps, k).contains(
                (ps[j].edge_id, ps[j].sensors@[i].id),
            ),
    decreases k,
{
    if k > 0 {
        lemma_sensors_covered(seen, st, ps, k - 1);
        let last = ps[k - 1];
        lemma_slots_covered(seen, st, last, last.sensors@.len() as int);
        let prev = missing_sensors_upto(seen, st, ps, k - 1);
        let tail = missing_sensors_in(seen, st, last, last.sensors@.len() as int);
        let cur = missing_sensors_upto(seen, st, ps, k);
        assert(cur == prev + tail);
        assert forall|j: int, i: int|
            0 <= j < k && 0 <= i < ps[j].sensors@.len() && slot_active(
                ps[j],
                i,
            ) implies seen.contains((st, ps[j].edge_id, #[trigger] ps[j].sensors@[i].id))
            || cur.contains((ps[j].edge_id, ps[j].sensors@[i].id)) by {
            let e = (ps[j].edge_id, ps[j].sensors@[i].id);
            if j < k - 1 {
                if prev.contains(e) {
                    let t = choose|t: int| 0 <= t < prev.len() && prev[t] == e;
                    assert(cur[t] == e);
                }
            } else {
                if tail.contains(e) {
                    let t = choose|t: int| 0 <= t < tail.len() && tail[t] == e;
                    assert(cur[prev.len() + t] == e);
                }
            }
        }
    }
}

proof fn lemma_sensors_none_missing(
    seen: Set<(Seq<char>, i32, i32)>,
    st: Seq<char>,
    ps: Seq<EdgePacket>,
    k: int,
)
    requires
        0 <= k <= ps.len(),
        forall|j: int, i: int|
            0 <= j < k && 0 <= i < ps[j].sensors@.len() && slot_active(ps[j], i)
                ==> seen.contains((st, ps[j].edge_id, #[trigger] ps[j].sensors@[i].id)),
    ensures
        missing_sensors_upto(seen, st, ps, k) == Seq::<(i32, i32)>::empty(),
    decreases k,
{
    if k > 0 {
        lemma_sensors_none_missing(seen, st, ps, k - 1);
        let last = ps[k - 1];
        assert forall|i: int|
            0 <= i < last.sensors@.len() && slot_active(last, i) implies seen.contains(
            (st, last.edge_id, #[trigger] last.sensors@[i].id),
        ) by {
            assert(ps[k - 1].sensors@[i].id == last.sensors@[i].id);
        }
        lemma_slots_none_missing(seen, st, last, last.sensors@.len() as int);
        assert(missing_sensors_upto(seen, st, ps, k) =~= Seq::<(i32, i32)>::empty());
    }
}

/// Registering the edges and sensors that a payload shows to be missing
/// leaves none of that payload missing: the same payload again causes no
/// further registrations.
pub proof fn lemma_recorded_gaps_close(
    seen_edges: Set<(Seq<char>, i32)>,
    seen_sensors: Set<(Seq<char>, i32, i32)>,
    station: Seq<char>,
    packets: Seq<EdgePacket>,
)
    ensures
        missing_edges(
            seen_edges.union(edge_keys(station, missing_edges(seen_edges, station, packets))),
            station,
            packets,
        ) == Seq::<i32>::empty(),
        missing_sensors(
            seen_sensors.union(
                sensor_keys(station, missing_sensors(seen_sensors, station, packets)),
            ),
            station,
            packets,
        ) == Seq::<(i32, i32)>::empty(),
{
    let n = packets.len() as int;
    let gaps_e = missing_edges(seen_edges, station, packets);
    let after_e = seen_edges.union(edge_keys(station, gaps_e));
    lemma_edges_covered(seen_edges, station, packets, n);
    assert forall|j: int| 0 <= j < n implies after_e.contains(
        (station, #[trigger] packets[j].edge_id),
    ) by {
        let k = (station, packets[j].edge_id);
        if !seen_edges.contains(k) {
            assert(edge_keys(station, gaps_e).contains(k));
        }
    }
    lemma_edges_none_missing(after_e, station, packets, n);
    let gaps_s = missing_sensors(seen_sensors, station, packets);
    let after_s = seen_sensors.union(sensor_keys(station, gaps_s));
    lemma_sensors_covered(seen_sensors, station, packets, n);
    assert forall|j: int, i: int|
        0 <= j < n && 0 <= i < packets[j].sensors@.len() && slot_active(
            packets[j],
            i,
        ) implies after_s.contains(
        (station, packets[j].edge_id, #[trigger] packets[j].sensors@[i].id),
    ) by {
        let k = (station, packets[j].edge_id, packets[j].sensors@[i].id);
        if !seen_sensors.contains(k) {
            assert(sensor_keys(station, gaps_s).contains(k));
        }
    }
    lemma_sensors_none_missing(after_s, station, packets, n);
}


/// A reading of a payload: the index of its packet and of its slot there.
#[derive(Clone, Copy, Debug, PartialEq, Eq, Structural)]
pub struct ReadingSlot {
    pub packet: usize,
    pub slot: usize,
}

/// The key on which readings are deduplicated: (edge, sensor, timestamp).
pub open spec fn reading_key(packets: Seq<EdgePacket>, r: ReadingSlot) -> (i32, i32, i64) {
    let p = packets[r.packet as int];
    (p.edge_id, p.sensors@[r.slot as int].id, p.sensors@[r.slot as int].timestamp)
}

/// The active slots among the first `n` readings of packet `pi`, in order.
pub open spec fn active_slots_in(packets: Seq<EdgePacket>, pi: int, n: int) -> Seq<ReadingSlot>
    decreases n,
{
    if n <= 0 {
        seq![]
    } else {
        active_slots_in(packets, pi, n - 1) + if slot_active(packets[pi], n - 1) {
            seq![ReadingSlot { packet: pi as usize, slot: (n - 1) as usize }]
        } else {
            Seq::<ReadingSlot>::empty()
        }
    }
}

/// The active slots of the first `k` packets, in payload order.
pub open spec fn active_slots_upto(packets: Seq<EdgePacket>, k: int) -> Seq<ReadingSlot>
    decreases k,
{
    if k <= 0 {
        seq![]
    } else {
        active_slots_upto(packets, k - 1) + active_slots_in(
            packets,
            k - 1,
            packets[k - 1].sensors@.len() as int,
        )
    }
}

/// All active slots of a payload, in payload order.
pub open spec fn active_slots(packets: Seq<EdgePacket>) -> Seq<ReadingSlot> {
    active_slots_upto(packets, packets.len() as int)
}

/// Whether some reading in `rs` has the given key.
pub open spec fn has_key(packets: Seq<EdgePacket>, rs: Seq<ReadingSlot>, key: (i32, i32, i64)) -> bool {
    exists|t: int| 0 <= t < rs.len() && #[trigger] reading_key(packets, rs[t]) == key
}

/// The readings of `rs` whose key no earlier reading of `rs` has.
pub open spec fn first_occurrences(packets: Seq<EdgePacket>, rs: Seq<ReadingSlot>) -> Seq<
    ReadingSlot,
>
    decreases rs.len(),
{
    if rs.len() == 0 {
        seq![]
    } else {
        let prev = rs.drop_last();
        let kept = first_occurrences(packets, prev);
        if has_key(packets, prev, reading_key(packets, rs.last())) {
            kept
        } else {
            kept.push(rs.last())
        }
    }
}

/// What `first_occurrences` keeps: readings of `rs`, with distinct keys,
/// covering every key of `rs`.
pub proof fn lemma_first_occurrences(packets: Seq<EdgePacket>, rs: Seq<ReadingSlot>)
    ensures
        forall|t: int|
            0 <= t < first_occurrences(packets, rs).len() ==> rs.contains(
                #[trigger] first_occurrences(packets, rs)[t],
            ),
        forall|t1: int, t2: int|
            0 <= t1 < t2 < first_occurrences(packets, rs).len() ==> reading_key(
                packets,
                #[trigger] first_occurrences(packets, rs)[t1],
            ) != reading_key(packets, #[trigger] first_occurrences(packets, rs)[t2]),
        forall|key: (i32, i32, i64)|
            #[trigger] has_key(packets, rs, key) == has_key(
                packets,
                first_occurrences(packets, rs),
                key,
            ),
    decreases rs.len(),
{
    if rs.len() > 0 {
        let prev = rs.drop_last();
        let x = rs.last();
        let kept = first_occurrences(packets, prev);
        let r = first_occurrences(packets, rs);
        lemma_first_occurrences(packets, prev);
        assert forall|t: int| 0 <= t < prev.len() implies rs[t] == prev[t] by {}
        assert(rs[rs.len() - 1] == x);
        if has_key(packets, prev, reading_key(packets, x)) {
            assert(r == kept);
            assert forall|t: int| 0 <= t < r.len() implies rs.contains(#[trigger] r[t]) by {
                let j = choose|j: int| 0 <= j < prev.len() && prev[j] == r[t];
                assert(rs[j] == r[t]);
            }
            assert forall|key: (i32, i32, i64)| #[trigger]
                has_key(packets, rs, key) == has_key(packets, r, key) by {
                if has_key(packets, rs, key) {
                    let t = choose|t: int| 0 <= t < rs.len() && #[trigger] reading_key(packets, rs[t]) == key;
                    if t < prev.len() {
                        assert(reading_key(packets, prev[t]) == key);
                        assert(has_key(packets, prev, key));
                    } else {
                        assert(has_key(packets, prev, key));
                    }
                }
                if has_key(packets, prev, key) {
                    let t = choose|t: int| 0 <= t < prev.len() && #[trigger] reading_key(packets, prev[t]) == key;
                    assert(reading_key(packets, rs[t]) == key);
                }
            }
        } else {
            assert(r == kept.push(x));
            assert forall|t: int| 0 <= t < r.len() implies rs.contains(#[trigger] r[t]) by {
                if t < kept.len() {
                    assert(r[t] == kept[t]);
                    let j = choose|j: int| 0 <= j < prev.len() && prev[j] == r[t];
                    assert(rs[j] == r[t]);
                } else {
                    assert(rs[rs.len() - 1] == r[t]);
                }
            }
            assert forall|t1: int, t2: int|
                0 <= t1 < t2 < r.len() implies reading_key(packets, #[trigger] r[t1])
                != reading_key(packets, #[trigger] r[t2]) by {
                assert(r[t1] == kept[t1]);
                if t2 < kept.len() {
                    assert(r[t2] == kept[t2]);
                } else {
                    assert(r[t2] == x);
                    if reading_key(packets, r[t1]) == reading_key(packets, x) {
                        assert(has_key(packets, kept, reading_key(packets, x)));
                        assert(has_key(packets, prev, reading_key(packets, x)));
                    }
                }
            }
            assert forall|key: (i32, i32, i64)| #[trigger]
                has_key(packets, rs, key) == has_key(packets, r, key) by {
                if has_key(packets, rs, key) {
                    let t = choose|t: int| 0 <= t < rs.len() && #[trigger] reading_key(packets, rs[t]) == key;
                    if t < prev.len() {
                        assert(reading_key(packets, prev[t]) == key);
                        assert(has_key(packets, prev, key));
                        let u = choose|u: int| 0 <= u < kept.len() && #[trigger] reading_key(packets, kept[u]) == key;
                        assert(r[u] == kept[u]);
                    } else {
                        assert(reading_key(packets, r[kept.len() as int]) == key);
                    }
                }
                if has_key(packets, r, key) {
                    let u = choose|u: int| 0 <= u < r.len() && #[trigger] reading_key(packets, r[u]) == key;
                    if u < kept.len() {
                        assert(r[u] == kept[u]);
                        assert(has_key(packets, kept, key));
                        let t = choose|t: int| 0 <= t < prev.len() && #[trigger] reading_key(packets, prev[t]) == key;
                        assert(reading_key(packets, rs[t]) == key);
                    } else {
                        assert(reading_key(packets, rs[rs.len() - 1]) == key);
                    }
                }
            }
        }
    }
}

/// A deduplication key packed into one integer: each field shifted to be
/// non-negative, in a digit of its own (32, 32 and 64 bits).
pub open spec fn packed_key(key: (i32, i32, i64)) -> u128 {
    ((key.0 + 0x8000_0000) * 0x1_0000_0000_0000_0000_0000_0000 + (key.1 + 0x8000_0000)
        * 0x1_0000_0000_0000_0000 + (key.2 + 0x8000_0000_0000_0000)) as u128
}

/// Distinct keys pack to distinct integers.
pub proof fn lemma_packed_key_injective(a: (i32, i32, i64), b: (i32, i32, i64))
    ensures
        packed_key(a) == packed_key(b) ==> a == b,
{
    let ua = (a.0 + 0x8000_0000) * 0x1_0000_0000_0000_0000_0000_0000 + (a.1 + 0x8000_0000)
        * 0x1_0000_0000_0000_0000 + (a.2 + 0x8000_0000_0000_0000);
    let ub = (b.0 + 0x8000_0000) * 0x1_0000_0000_0000_0000_0000_0000 + (b.1 + 0x8000_0000)
        * 0x1_0000_0000_0000_0000 + (b.2 + 0x8000_0000_0000_0000);
    assert(0 <= ua < 0x1_0000_0000_0000_0000_0000_0000_0000_0000);
    assert(0 <= ub < 0x1_0000_0000_0000_0000_0000_0000_0000_0000);
}

fn pack_key(edge_id: i32, sensor_id: i32, timestamp: i64) -> (packed: u128)
    ensures
        packed == packed_key((edge_id, sensor_id, timestamp)),
{
    let a = (edge_id as i64 + 0x8000_0000) as u128;
    let b = (sensor_id as i64 + 0x8000_0000) as u128;
    let c = (timestamp as i128 + 0x8000_0000_0000_0000) as u128;
    a * 0x1_0000_0000_0000_0000_0000_0000 + b * 0x1_0000_0000_0000_0000 + c
}

/// The readings to insert from a payload: its active readings, in payload
/// order, each kept only if no earlier active reading has the same
/// (edge, sensor, timestamp).
pub fn select_new_readings(packets: &[EdgePacket]) -> (selected: Vec<ReadingSlot>)
    ensures
        selected@ == first_occurrences(packets@, active_slots(packets@)),
{
    let ghost ps = packets@;
    let mut selected: Vec<ReadingSlot> = Vec::new();
    let mut seen: HashSetWithView<u128> = HashSetWithView::new();
    let ghost mut cands: Seq<ReadingSlot> = seq![];
    let mut k: usize = 0;
    while k < packets.len()
        invariant
            ps == packets@,
            k <= ps.len(),
            cands == active_slots_upto(ps, k as int),
            selected@ == first_occurrences(ps, cands),
            forall|key: (i32, i32, i64)|
                #[trigger] seen@.contains(packed_key(key)) == has_key(ps, selected@, key),
        decreases ps.len() - k,
    {
        let packet = &packets[k];
        let mut i: usize = 0;
        while i < packet.sensors.len()
            invariant
                ps == packets@,
                k < ps.len(),
                *packet == ps[k as int],
                i <= packet.sensors@.len(),
                cands == active_slots_upto(ps, k as int) + active_slots_in(ps, k as int, i as int),
                selected@ == first_occurrences(ps, cands),
                forall|key: (i32, i32, i64)|
                    #[trigger] seen@.contains(packed_key(key)) == has_key(ps, selected@, key),
                decreases packet.sensors@.len() - i,
        {
            if i < SENSOR_SLOTS && packet.active_flags[i] == 1 {
                let slot = ReadingSlot { packet: k, slot: i };
                let reading = &packet.sensors[i];
                let key = (packet.edge_id, reading.id, reading.timestamp);
                assert(key == reading_key(ps, slot));
                proof {
                    lemma_first_occurrences(ps, cands);
                }
                let ghost sel_before = selected@;
                let fresh = seen.insert(pack_key(key.0, key.1, key.2));
                proof {
                    assert(fresh == !has_key(ps, sel_before, key));
                    assert(fresh == !has_key(ps, cands, key));
                    let next = cands.push(slot);
                    assert(next.drop_last() =~= cands);
                    assert(next.last() == slot);
                }
                if fresh {
                    selected.push(slot);
                }
                proof {
                    assert forall|k2: (i32, i32, i64)|
                        #[trigger] seen@.contains(packed_key(k2)) == has_key(ps, selected@, k2) by {
                        lemma_packed_key_injective(k2, key);
                        if fresh {
                            assert(selected@[selected@.len() - 1] == slot);
                            if has_key(ps, sel_before, k2) {
                                let u = choose|u: int|
                                    0 <= u < sel_before.len() && #[trigger] reading_key(ps, sel_before[u]) == k2;
                                assert(selected@[u] == sel_before[u]);
                            }
                            if has_key(ps, selected@, k2) && k2 != key {
                                let u = choose|u: int|
                                    0 <= u < selected@.len() && #[trigger] reading_key(ps, selected@[u]) == k2;
                                assert(u < sel_before.len());
                                assert(sel_before[u] == selected@[u]);
                            }
                        }
                    }
                    cands = cands.push(slot);
                    assert(active_slots_upto(ps, k as int) + active_slots_in(ps, k as int, i + 1)
                        =~= (active_slots_upto(ps, k as int) + active_slots_in(
                        ps,
                        k as int,
                        i as int,
                    )).push(slot));
                }
            } else {
                proof {
                    assert(active_slots_upto(ps, k as int) + active_slots_in(ps, k as int, i + 1)
                        =~= active_slots_upto(ps, k as int) + active_slots_in(
                        ps,
                        k as int,
                        i as int,
                    ));
                }
            }
            i = i + 1;
        }
        proof {
            assert(active_slots_upto(ps, k + 1) =~= active_slots_upto(ps, k as int)
                + active_slots_in(ps, k as int, ps[k as int].sensors@.len() as int));
        }
        k = k + 1;
    }
    selected
}

proof fn lemma_active_slots_in(packets: Seq<EdgePacket>, pi: int, n: int)
    requires
        0 <= pi < packets.len(),
        0 <= n <= packets[pi].sensors@.len(),
        pi <= usize::MAX,
    ensures
        forall|r: ReadingSlot| #[trigger]
            active_slots_in(packets, pi, n).contains(r) <==> (r.packet == pi && r.slot < n
                && slot_active(packets[pi], r.slot as int)),
    decreases n,
{
    if n > 0 {
        lemma_active_slots_in(packets, pi, n - 1);
        let prev = active_slots_in(packets, pi, n - 1);
        let cur = active_slots_in(packets, pi, n);
        assert forall|r: ReadingSlot| #[trigger] cur.contains(r) <==> (r.packet == pi && r.slot < n
            && slot_active(packets[pi], r.slot as int)) by {
            if cur.contains(r) {
                let t = choose|t: int| 0 <= t < cur.len() && cur[t] == r;
                if t < prev.len() {
                    assert(prev[t] == r);
                    assert(prev.contains(r));
                } else {
                    assert(slot_active(packets[pi], n - 1));
                    assert(r == ReadingSlot { packet: pi as usize, slot: (n - 1) as usize });
                }
            }
            if r.packet == pi && r.slot < n && slot_active(packets[pi], r.slot as int) {
                if r.slot < n - 1 {
                    assert(prev.contains(r));
                    let t = choose|t: int| 0 <= t < prev.len() && prev[t] == r;
                    assert(cur[t] == r);
                } else {
                    assert(cur[prev.len() as int] == r);
                }
            }
        }
    }
}

proof fn lemma_active_slots_upto(packets: Seq<EdgePacket>, k: int)
    requires
        0 <= k <= packets.len(),
        packets.len() <= usize::MAX,
    ensures
        forall|r: ReadingSlot| #[trigger]
            active_slots_upto(packets, k).contains(r) <==> (r.packet < k && r.slot
                < packets[r.packet as int].sensors@.len() && slot_active(
                packets[r.packet as int],
                r.slot as int,
            )),
    decreases k,
{
    if k > 0 {
        lemma_active_slots_upto(packets, k - 1);
        lemma_active_slots_in(packets, k - 1, packets[k - 1].sensors@.len() as int);
        let prev = active_slots_upto(packets, k - 1);
        let tail = active_slots_in(packets, k - 1, packets[k - 1].sensors@.len() as int);
        let cur = active_slots_upto(packets, k);
        assert(cur == prev + tail);
        assert forall|r: ReadingSlot| #[trigger] cur.contains(r) <==> (r.packet < k && r.slot
            < packets[r.packet as int].sensors@.len() && slot_active(
            packets[r.packet as int],
            r.slot as int,
        )) by {
            if cur.contains(r) {
                let t = choose|t: int| 0 <= t < cur.len() && cur[t] == r;
                if t < prev.len() {
                    assert(prev[t] == r);
                    assert(prev.contains(r));
                } else {
                    assert(tail[t - prev.len()] == r);
                    assert(tail.contains(r));
                }
            }
            if r.packet < k && r.slot < packets[r.packet as int].sensors@.len() && slot_active(
                packets[r.packet as int],
                r.slot as int,
            ) {
                if r.packet < k - 1 {
                    assert(prev.contains(r));
                    let t = choose|t: int| 0 <= t < prev.len() && prev[t] == r;
                    assert(cur[t] == r);
                } else {
                    assert(tail.contains(r));
                    let t = choose|t: int| 0 <= t < tail.len() && tail[t] == r;
                    assert(cur[prev.len() + t] == r);
                }
            }
        }
    }
}

/// The readings selected from a payload are active readings of it, no two
/// have the same (edge, sensor, timestamp), and every active reading's key
/// is among them: duplicates within a payload are inserted once.
pub proof fn lemma_selection_deduplicates(packets: Seq<EdgePacket>)
    requires
        packets.len() <= usize::MAX,
    ensures
        forall|t: int|
            #![trigger first_occurrences(packets, active_slots(packets))[t]]
            0 <= t < first_occurrences(packets, active_slots(packets)).len() ==> {
                let r = first_occurrences(packets, active_slots(packets))[t];
                &&& r.packet < packets.len()
                &&& r.slot < packets[r.packet as int].sensors@.len()
                &&& slot_active(packets[r.packet as int], r.slot as int)
            },
        forall|t1: int, t2: int|
            0 <= t1 < t2 < first_occurrences(packets, active_slots(packets)).len()
                ==> reading_key(
                packets,
                #[trigger] first_occurrences(packets, active_slots(packets))[t1],
            ) != reading_key(
                packets,
                #[trigger] first_occurrences(packets, active_slots(packets))[t2],
            ),
        forall|r: ReadingSlot|
            r.packet < packets.len() && r.slot < packets[r.packet as int].sensors@.len()
                && slot_active(packets[r.packet as int], r.slot as int) ==> has_key(
                packets,
                first_occurrences(packets, active_slots(packets)),
                #[trigger] reading_key(packets, r),
            ),
{
    let all = active_slots(packets);
    let sel = first_occurrences(packets, all);
    lemma_active_slots_upto(packets, packets.len() as int);
    lemma_first_occurrences(packets, all);
    assert forall|t: int| #![trigger sel[t]] 0 <= t < sel.len() implies {
        let r = sel[t];
        &&& r.packet < packets.len()
        &&& r.slot < packets[r.packet as int].sensors@.len()
        &&& slot_active(packets[r.packet as int], r.slot as int)
    } by {
        assert(all.contains(sel[t]));
    }
    assert forall|r: ReadingSlot|
        r.packet < packets.len() && r.slot < packets[r.packet as int].sensors@.len()
            && slot_active(packets[r.packet as int], r.slot as int) implies has_key(
        packets,
        sel,
        #[trigger] reading_key(packets, r),
    ) by {
        assert(all.contains(r));
        let t = choose|t: int| 0 <= t < all.len() && all[t] == r;
        assert(has_key(packets, all, reading_key(packets, r)));
    }
}

/// Whether reading `a` comes before reading `b` in payload order.
pub open spec fn slot_before(a: ReadingSlot, b: ReadingSlot) -> bool {
    a.packet < b.packet || (a.packet == b.packet && a.slot < b.slot)
}

/// Whether readings are in strictly increasing payload order.
pub open spec fn in_payload_order(rs: Seq<ReadingSlot>) -> bool {
    forall|u1: int, u2: int| 0 <= u1 < u2 < rs.len() ==> slot_before(#[trigger] rs[u1], #[trigger] rs[u2])
}

proof fn lemma_active_slots_in_ordered(packets: Seq<EdgePacket>, pi: int, n: int)
    requires
        0 <= pi < packets.len(),
        0 <= n <= packets[pi].sensors@.len(),
        pi <= usize::MAX,
    ensures
        in_payload_order(active_slots_in(packets, pi, n)),
        forall|u: int|
            0 <= u < active_slots_in(packets, pi, n).len() ==> (#[trigger] active_slots_in(
                packets,
                pi,
                n,
            )[u]).packet == pi && active_slots_in(packets, pi, n)[u].slot < n,
    decreases n,
{
    if n > 0 {
        lemma_active_slots_in_ordered(packets, pi, n - 1);
        let prev = active_slots_in(packets, pi, n - 1);
        let cur = active_slots_in(packets, pi, n);
        assert forall|u: int| 0 <= u < prev.len() implies cur[u] == prev[u] by {}
    }
}

proof fn lemma_active_slots_upto_ordered(packets: Seq<EdgePacket>, k: int)
    requires
        0 <= k <= packets.len(),
        packets.len() <= usize::MAX,
    ensures
        in_payload_order(active_slots_upto(packets, k)),
        forall|u: int|
            0 <= u < active_slots_upto(packets, k).len() ==> (#[trigger] active_slots_upto(
                packets,
                k,
            )[u]).packet < k,
    decreases k,
{
    if k > 0 {
        lemma_active_slots_upto_ordered(packets, k - 1);
        lemma_active_slots_in_ordered(packets, k - 1, packets[k - 1].sensors@.len() as int);
        let prev = active_slots_upto(packets, k - 1);
        let tail = active_slots_in(packets, k - 1, packets[k - 1].sensors@.len() as int);
        let cur = active_slots_upto(packets, k);
        assert(cur == prev + tail);
        assert forall|u: int| 0 <= u < cur.len() implies (#[trigger] cur[u]).packet < k by {
            if u < prev.len() {
                assert(cur[u] == prev[u]);
            } else {
                assert(cur[u] == tail[u - prev.len()]);
            }
        }
        assert forall|u1: int, u2: int| 0 <= u1 < u2 < cur.len() implies slot_before(
            #[trigger] cur[u1],
            #[trigger] cur[u2],
        ) by {
            if u2 < prev.len() {
                assert(cur[u1] == prev[u1] && cur[u2] == prev[u2]);
            } else if u1 < prev.len() {
                assert(cur[u1] == prev[u1]);
                assert(cur[u2] == tail[u2 - prev.len()]);
            } else {
                assert(cur[u1] == tail[u1 - prev.len()]);
                assert(cur[u2] == tail[u2 - prev.len()]);
            }
        }
    }
}

/// Whether the reading at index `u` of `rs` is the first of `rs` with its key.
pub open spec fn first_with_key(packets: Seq<EdgePacket>, rs: Seq<ReadingSlot>, u: int) -> bool {
    forall|v: int| 0 <= v < u ==> reading_key(packets, #[trigger] rs[v]) != reading_key(packets, rs[u])
}

proof fn lemma_first_occurrences_ordered(packets: Seq<EdgePacket>, rs: Seq<ReadingSlot>)
    requires
        in_payload_order(rs),
    ensures
        in_payload_order(first_occurrences(packets, rs)),
        forall|t: int|
            0 <= t < first_occurrences(packets, rs).len() ==> exists|u: int|
                0 <= u < rs.len() && rs[u] == #[trigger] first_occurrences(packets, rs)[t]
                    && first_with_key(packets, rs, u),
    decreases rs.len(),
{
    if rs.len() > 0 {
        let prev = rs.drop_last();
        let x = rs.last();
        let kept = first_occurrences(packets, prev);
        let sel = first_occurrences(packets, rs);
        assert forall|u1: int, u2: int| 0 <= u1 < u2 < prev.len() implies slot_before(
            #[trigger] prev[u1],
            #[trigger] prev[u2],
        ) by {
            assert(prev[u1] == rs[u1] && prev[u2] == rs[u2]);
        }
        lemma_first_occurrences_ordered(packets, prev);
        lemma_first_occurrences(packets, prev);
        assert forall|t: int| 0 <= t < kept.len() implies exists|u: int|
            0 <= u < rs.len() && rs[u] == #[trigger] kept[t] && first_with_key(packets, rs, u) by {
            let u = choose|u: int|
                0 <= u < prev.len() && prev[u] == kept[t] && first_with_key(packets, prev, u);
            assert(rs[u] == kept[t]);
            assert forall|v: int| 0 <= v < u implies reading_key(packets, #[trigger] rs[v])
                != reading_key(packets, rs[u]) by {
                assert(rs[v] == prev[v]);
                assert(reading_key(packets, prev[v]) != reading_key(packets, prev[u]));
            }
        }
        if has_key(packets, prev, reading_key(packets, x)) {
            assert(sel == kept);
        } else {
            assert(sel == kept.push(x));
            assert forall|t: int| 0 <= t < sel.len() implies exists|u: int|
                0 <= u < rs.len() && rs[u] == #[trigger] sel[t] && first_with_key(packets, rs, u) by {
                if t < kept.len() {
                    assert(sel[t] == kept[t]);
                } else {
                    let u = rs.len() - 1;
                    assert(rs[u] == sel[t]);
                    assert forall|v: int| 0 <= v < u implies reading_key(packets, #[trigger] rs[v])
                        != reading_key(packets, rs[u]) by {
                        assert(rs[v] == prev[v]);
                        if reading_key(packets, prev[v]) == reading_key(packets, x) {
                            assert(has_key(packets, prev, reading_key(packets, x)));
                        }
                    }
                }
            }
            assert forall|t1: int, t2: int| 0 <= t1 < t2 < sel.len() implies slot_before(
                #[trigger] sel[t1],
                #[trigger] sel[t2],
            ) by {
                assert(sel[t1] == kept[t1]);
                if t2 < kept.len() {
                    assert(sel[t2] == kept[t2]);
                } else {
                    assert(sel[t2] == x);
                    assert(prev.contains(kept[t1]));
                    let v = choose|v: int| 0 <= v < prev.len() && prev[v] == kept[t1];
                    assert(rs[v] == prev[v]);
                    assert(rs[rs.len() - 1] == x);
                }
            }
        }
    }
}

/// The readings selected from a payload come in payload order, and each is
/// the first active reading of the payload with its (edge, sensor,
/// timestamp): of duplicates, the earliest is the one inserted.
pub proof fn lemma_selection_keeps_first(packets: Seq<EdgePacket>)
    requires
        packets.len() <= usize::MAX,
    ensures
        in_payload_order(first_occurrences(packets, active_slots(packets))),
        forall|t: int, q: ReadingSlot|
            0 <= t < first_occurrences(packets, active_slots(packets)).len() && q.packet
                < packets.len() && q.slot < packets[q.packet as int].sensors@.len()
                && slot_active(packets[q.packet as int], q.slot as int) && slot_before(
                q,
                #[trigger] first_occurrences(packets, active_slots(packets))[t],
            ) ==> #[trigger] reading_key(packets, q) != reading_key(
                packets,
                first_occurrences(packets, active_slots(packets))[t],
            ),
{
    let all = active_slots(packets);
    let sel = first_occurrences(packets, all);
    lemma_active_slots_upto_ordered(packets, packets.len() as int);
    lemma_active_slots_upto(packets, packets.len() as int);
    lemma_first_occurrences_ordered(packets, all);
    assert forall|t: int, q: ReadingSlot|
        0 <= t < sel.len() && q.packet < packets.len() && q.slot
            < packets[q.packet as int].sensors@.len() && slot_active(
            packets[q.packet as int],
            q.slot as int,
        ) && slot_before(q, #[trigger] sel[t]) implies #[trigger] reading_key(packets, q)
        != reading_key(packets, sel[t]) by {
        let u = choose|u: int| 0 <= u < all.len() && all[u] == sel[t] && first_with_key(packets, all, u);
        assert(all.contains(q));
        let v = choose|v: int| 0 <= v < all.len() && all[v] == q;
        if v >= u {
            if v == u {
            } else {
                assert(slot_before(all[u], all[v]));
            }
        } else {
            assert(reading_key(packets, all[v]) != reading_key(packets, all[u]));
        }
    }
}

/// A position reported twice in a row, neither coordinate NaN, is
/// unchanged the second time; the cache then holds a position equal to it.
pub proof fn lemma_repeated_position_unchanged(
    cache: Map<Seq<char>, (u64, u64)>,
    station: Seq<char>,
    latitude: u64,
    longitude: u64,
)
    requires
        !crate::ieee::f64_is_nan(latitude),
        !crate::ieee::f64_is_nan(longitude),
    ensures
        located(cache, station, latitude, longitude).contains_key(station),
        location_change(located(cache, station, latitude, longitude), station, latitude, longitude)
            == LocationChange::Unchanged,
        located(located(cache, station, latitude, longitude), station, latitude, longitude)
            == located(cache, station, latitude, longitude),
{
}

/// A position with a NaN coordinate never counts as unchanged, so it is
/// written again every time it is reported.
pub proof fn lemma_nan_position_always_written(
    cache: Map<Seq<char>, (u64, u64)>,
    station: Seq<char>,
    latitude: u64,
    longitude: u64,
)
    requires
        crate::ieee::f64_is_nan(latitude) || crate::ieee::f64_is_nan(longitude),
    ensures
        location_change(cache, station, latitude, longitude) != LocationChange::Unchanged,
        located(cache, station, latitude, longitude)[station] == (latitude, longitude),
{
}

/// Reports about one station leave the cached positions of all others as they were.
pub proof fn lemma_position_of_other_station_kept(
    cache: Map<Seq<char>, (u64, u64)>,
    station: Seq<char>,
    other: Seq<char>,
    latitude: u64,
    longitude: u64,
)
    requires
        other != station,
    ensures
        located(cache, station, latitude, longitude).contains_key(other) == cache.contains_key(
            other,
        ),
        cache.contains_key(other) ==> located(cache, station, latitude, longitude)[other]
            == cache[other],
{
}


/// The readings of `rs` moved `n` packets further into a payload.
pub open spec fn shifted(rs: Seq<ReadingSlot>, n: int) -> Seq<ReadingSlot> {
    rs.map_values(|r: ReadingSlot| ReadingSlot { packet: (r.packet + n) as usize, slot: r.slot })
}

proof fn lemma_slots_in_front(ps: Seq<EdgePacket>, pi: int, m: int)
    requires
        0 <= pi < ps.len(),
    ensures
        active_slots_in(ps + ps, pi, m) == active_slots_in(ps, pi, m),
    decreases m,
{
    let qs = ps + ps;
    assert(qs[pi] == ps[pi]);
    if m > 0 {
        lemma_slots_in_front(ps, pi, m - 1);
    }
}

proof fn lemma_slots_in_back(ps: Seq<EdgePacket>, j: int, m: int)
    requires
        0 <= j < ps.len(),
        2 * ps.len() <= usize::MAX,
    ensures
        active_slots_in(ps + ps, ps.len() + j, m) == shifted(
            active_slots_in(ps, j, m),
            ps.len() as int,
        ),
    decreases m,
{
    let qs = ps + ps;
    let n = ps.len() as int;
    assert(qs[n + j] == ps[j]);
    if m > 0 {
        lemma_slots_in_back(ps, j, m - 1);
        let a = active_slots_in(ps, j, m - 1);
        let b = if slot_active(ps[j], m - 1) {
            seq![ReadingSlot { packet: j as usize, slot: (m - 1) as usize }]
        } else {
            Seq::<ReadingSlot>::empty()
        };
        assert(shifted(a + b, n) =~= shifted(a, n) + shifted(b, n));
        if slot_active(ps[j], m - 1) {
            assert(shifted(b, n) =~= seq![
                ReadingSlot { packet: (n + j) as usize, slot: (m - 1) as usize },
            ]);
        } else {
            assert(shifted(b, n) =~= Seq::<ReadingSlot>::empty());
        }
        assert(active_slots_in(qs, n + j, m) =~= shifted(active_slots_in(ps, j, m), n));
    } else {
        assert(shifted(active_slots_in(ps, j, m), n) =~= Seq::<ReadingSlot>::empty());
    }
}

proof fn lemma_upto_front(ps: Seq<EdgePacket>, k: int)
    requires
        0 <= k <= ps.len(),
    ensures
        active_slots_upto(ps + ps, k) == active_slots_upto(ps, k),
    decreases k,
{
    if k > 0 {
        lemma_upto_front(ps, k - 1);
        assert((ps + ps)[k - 1] == ps[k - 1]);
        lemma_slots_in_front(ps, k - 1, ps[k - 1].sensors@.len() as int);
    }
}

proof fn lemma_upto_back(ps: Seq<EdgePacket>, j: int)
    requires
        0 <= j <= ps.len(),
        2 * ps.len() <= usize::MAX,
    ensures
        active_slots_upto(ps + ps, ps.len() + j) == active_slots_upto(ps, ps.len() as int)
            + shifted(active_slots_upto(ps, j), ps.len() as int),
    decreases j,
{
    let n = ps.len() as int;
    let qs = ps + ps;
    if j == 0 {
        lemma_upto_front(ps, n);
        assert(shifted(active_slots_upto(ps, 0), n) =~= Seq::<ReadingSlot>::empty());
        assert(active_slots_upto(qs, n) + Seq::<ReadingSlot>::empty() =~= active_slots_upto(
            qs,
            n,
        ));
    } else {
        lemma_upto_back(ps, j - 1);
        assert(qs[n + j - 1] == ps[j - 1]);
        lemma_slots_in_back(ps, j - 1, ps[j - 1].sensors@.len() as int);
        let a = active_slots_upto(ps, j - 1);
        let b = active_slots_in(ps, j - 1, ps[j - 1].sensors@.len() as int);
        assert(shifted(a + b, n) =~= shifted(a, n) + shifted(b, n));
        assert(active_slots_upto(qs, n + j) =~= active_slots_upto(ps, n) + shifted(
            active_slots_upto(ps, j),
            n,
        ));
    }
}

proof fn lemma_first_occurrences_same_keys(
    ps: Seq<EdgePacket>,
    qs: Seq<EdgePacket>,
    rs: Seq<ReadingSlot>,
)
    requires
        forall|t: int| 0 <= t < rs.len() ==> reading_key(qs, #[trigger] rs[t]) == reading_key(ps, rs[t]),
    ensures
        first_occurrences(qs, rs) == first_occurrences(ps, rs),
    decreases rs.len(),
{
    if rs.len() > 0 {
        let prev = rs.drop_last();
        assert forall|t: int| 0 <= t < prev.len() implies reading_key(qs, #[trigger] prev[t])
            == reading_key(ps, prev[t]) by {
            assert(prev[t] == rs[t]);
        }
        lemma_first_occurrences_same_keys(ps, qs, prev);
        let key = reading_key(ps, rs.last());
        assert(reading_key(qs, rs.last()) == key);
        if has_key(qs, prev, key) {
            let t = choose|t: int| 0 <= t < prev.len() && #[trigger] reading_key(qs, prev[t]) == key;
            assert(reading_key(ps, prev[t]) == key);
        }
        if has_key(ps, prev, key) {
            let t = choose|t: int| 0 <= t < prev.len() && #[trigger] reading_key(ps, prev[t]) == key;
            assert(reading_key(qs, prev[t]) == key);
        }
    }
}

proof fn lemma_first_occurrences_known_tail(
    ps: Seq<EdgePacket>,
    a: Seq<ReadingSlot>,
    b: Seq<ReadingSlot>,
)
    requires
        forall|t: int| 0 <= t < b.len() ==> has_key(ps, a, #[trigger] reading_key(ps, b[t])),
    ensures
        first_occurrences(ps, a + b) == first_occurrences(ps, a),
    decreases b.len(),
{
    if b.len() == 0 {
        assert(a + b =~= a);
    } else {
        let bp = b.drop_last();
        assert forall|t: int| 0 <= t < bp.len() implies has_key(
            ps,
            a,
            #[trigger] reading_key(ps, bp[t]),
        ) by {
            assert(bp[t] == b[t]);
        }
        lemma_first_occurrences_known_tail(ps, a, bp);
        let ab = a + b;
        assert(ab.drop_last() =~= a + bp);
        assert(ab.last() == b[b.len() - 1]);
        let key = reading_key(ps, ab.last());
        assert(has_key(ps, a, key));
        let u = choose|u: int| 0 <= u < a.len() && #[trigger] reading_key(ps, a[u]) == key;
        assert((a + bp)[u] == a[u]);
        assert(has_key(ps, a + bp, key));
    }
}

/// Sending the same packets twice in one payload selects exactly the
/// readings that sending them once does: republished packets add no rows.
pub proof fn lemma_republished_packets_add_nothing(packets: Seq<EdgePacket>)
    requires
        2 * packets.len() <= usize::MAX,
    ensures
        first_occurrences(packets + packets, active_slots(packets + packets)) == first_occurrences(
            packets,
            active_slots(packets),
        ),
{
    let ps = packets;
    let qs = ps + ps;
    let n = ps.len() as int;
    let a = active_slots(ps);
    let b = shifted(a, n);
    lemma_upto_back(ps, n);
    assert(active_slots(qs) == a + b);
    lemma_active_slots_upto(ps, n);
    assert forall|t: int| 0 <= t < a.len() implies reading_key(qs, #[trigger] a[t]) == reading_key(
        ps,
        a[t],
    ) by {
        assert(a.contains(a[t]));
        assert(qs[a[t].packet as int] == ps[a[t].packet as int]);
    }
    assert forall|t: int| 0 <= t < b.len() implies has_key(qs, a, #[trigger] reading_key(qs, b[t])) by {
        let r = a[t];
        assert(a.contains(r));
        assert(b[t] == ReadingSlot { packet: (r.packet + n) as usize, slot: r.slot });
        assert(qs[r.packet + n] == ps[r.packet as int]);
        assert(qs[r.packet as int] == ps[r.packet as int]);
        assert(reading_key(qs, b[t]) == reading_key(qs, a[t]));
    }
    lemma_first_occurrences_known_tail(qs, a, b);
    lemma_first_occurrences_same_keys(ps, qs, a);
}

/// Once a payload has been ingested into the cache, the same payload again
/// (with no NaN coordinate) makes no station write and registers no edge or
/// sensor: only its readings are offered to the store again.
pub proof fn lemma_repeated_payload_needs_no_writes(
    locations: Map<Seq<char>, (u64, u64)>,
    seen_edges: Set<(Seq<char>, i32)>,
    seen_sensors: Set<(Seq<char>, i32, i32)>,
    station: Seq<char>,
    latitude: u64,
    longitude: u64,
    packets: Seq<EdgePacket>,
    stored: Option<(u64, u64)>,
)
    requires
        !crate::ieee::f64_is_nan(latitude),
        !crate::ieee::f64_is_nan(longitude),
    ensures
        ({
            let locations2 = located(locations, station, latitude, longitude);
            let edges2 = seen_edges.union(
                edge_keys(station, missing_edges(seen_edges, station, packets)),
            );
            let sensors2 = seen_sensors.union(
                sensor_keys(station, missing_sensors(seen_sensors, station, packets)),
            );
            &&& writes_for(
                location_change(locations2, station, latitude, longitude),
                stored,
                latitude,
                longitude,
            ) == StationWrites { create: false, update: false, record_location: false }
            &&& missing_edges(edges2, station, packets) == Seq::<i32>::empty()
            &&& missing_sensors(sensors2, station, packets) == Seq::<(i32, i32)>::empty()
        }),
{
    lemma_repeated_position_unchanged(locations, station, latitude, longitude);
    lemma_recorded_gaps_close(seen_edges, seen_sensors, station, packets);
}

} // verus!
