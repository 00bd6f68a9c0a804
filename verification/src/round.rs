//! One ingest request as a state machine.
//!
//! A request compares the reported position with the cache (looking the
//! station up in the store when it is not cached), makes the station
//! writes, registers the missing edges, then the missing sensors, then
//! inserts the payload's readings. The caller performs each action and
//! reports whether it succeeded. The cache takes in what a step wrote only
//! when that step is reported to have succeeded, so it never runs ahead of
//! the store, and a request that failed leaves its writes to be repeated.
use vstd::prelude::*;
use vstd::slice::slice_to_vec;
use crate::ieee::f64_eq;
use crate::ingest::{
    active_slots, edge_keys, lemma_edges_covered, lemma_sensors_covered, slot_active,
    lemma_selection_deduplicates, has_key, reading_key, first_occurrences, located, location_change, missing_edges,
    missing_sensors, select_new_readings, sensor_keys, station_writes, writes_for, ApiPayload,
    CacheView, IngestCache, LocationChange, PayloadView, ReadingSlot, StationWrites,
};

verus! {

/// Where a request stands.
pub enum IngestState {
    /// Nothing done yet.
    Start,
    /// The station is not cached; its stored position is being looked up.
    LookingUp,
    /// The station writes are being made.
    WritingStation,
    /// The missing edges are being registered; the missing sensors follow.
    RegisteringEdges { edges: Vec<i32>, sensors: Vec<(i32, i32)> },
    /// The missing sensors are being registered.
    RegisteringSensors { sensors: Vec<(i32, i32)> },
    /// The readings are being inserted.
    InsertingReadings,
    /// The request is answered.
    Finished,
}

/// What the caller reports.
#[derive(Clone, Copy, Debug)]
pub enum IngestEvent {
    /// The request arrived.
    Begin,
    /// The station's position in the store, if it is stored.
    StationLookedUp { stored: Option<(u64, u64)> },
    /// The last action succeeded.
    Succeeded,
    /// The last action failed.
    Failed,
}

/// What the caller is to do.
pub enum IngestAction {
    /// Look up the station's stored position.
    LookUpStation,
    /// Make these station writes.
    WriteStation(StationWrites),
    /// Register these edges for the station, in order.
    UpsertEdges(Vec<i32>),
    /// Register these (edge, sensor) pairs for the station, in order.
    UpsertSensors(Vec<(i32, i32)>),
    /// Insert these readings of the payload, with their metrics.
    InsertReadings(Vec<ReadingSlot>),
    /// Answer the request: success or failure.
    Respond { ok: bool },
}

/// Mathematical view of a request's state.
pub ghost enum IngestStateView {
    Start,
    LookingUp,
    WritingStation,
    RegisteringEdges { edges: Seq<i32>, sensors: Seq<(i32, i32)> },
    RegisteringSensors { sensors: Seq<(i32, i32)> },
    InsertingReadings,
    Finished,
}

/// Mathematical view of an action.
pub ghost enum IngestActionView {
    LookUpStation,
    WriteStation(StationWrites),
    UpsertEdges(Seq<i32>),
    UpsertSensors(Seq<(i32, i32)>),
    InsertReadings(Seq<ReadingSlot>),
    Respond { ok: bool },
}

impl View for IngestState {
    type V = IngestStateView;

    open spec fn view(&self) -> IngestStateView {
        match self {
            IngestState::Start => IngestStateView::Start,
            IngestState::LookingUp => IngestStateView::LookingUp,
            IngestState::WritingStation => IngestStateView::WritingStation,
            IngestState::RegisteringEdges { edges, sensors } => IngestStateView::RegisteringEdges {
                edges: edges@,
                sensors: sensors@,
            },
            IngestState::RegisteringSensors { sensors } => IngestStateView::RegisteringSensors {
                sensors: sensors@,
            },
            IngestState::InsertingReadings => IngestStateView::InsertingReadings,
            IngestState::Finished => IngestStateView::Finished,
        }
    }
}

impl View for IngestAction {
    type V = IngestActionView;

    open spec fn view(&self) -> IngestActionView {
        match self {
            IngestAction::LookUpStation => IngestActionView::LookUpStation,
            IngestAction::WriteStation(w) => IngestActionView::WriteStation(*w),
            IngestAction::UpsertEdges(e) => IngestActionView::UpsertEdges(e@),
            IngestAction::UpsertSensors(s) => IngestActionView::UpsertSensors(s@),
            IngestAction::InsertReadings(r) => IngestActionView::InsertReadings(r@),
            IngestAction::Respond { ok } => IngestActionView::Respond { ok: *ok },
        }
    }
}

/// A step's result: the next state, the cache, the action.
pub type IngestOutcome = (IngestStateView, CacheView, IngestActionView);

/// Insert the payload's readings.
pub open spec fn readings_phase(c: CacheView, p: PayloadView) -> IngestOutcome {
    (
        IngestStateView::InsertingReadings,
        c,
        IngestActionView::InsertReadings(first_occurrences(p.packets, active_slots(p.packets))),
    )
}

/// Register the missing sensors, if any, else insert the readings.
pub open spec fn sensors_phase(c: CacheView, p: PayloadView, sensors: Seq<(i32, i32)>) -> IngestOutcome {
    if sensors.len() > 0 {
        (IngestStateView::RegisteringSensors { sensors }, c, IngestActionView::UpsertSensors(sensors))
    } else {
        readings_phase(c, p)
    }
}

/// Register the missing edges, if any, else go on with the sensors.
pub open spec fn hierarchy_phase(c: CacheView, p: PayloadView) -> IngestOutcome {
    let edges = missing_edges(c.edges, p.station, p.packets);
    let sensors = missing_sensors(c.sensors, p.station, p.packets);
    if edges.len() > 0 {
        (
            IngestStateView::RegisteringEdges { edges, sensors },
            c,
            IngestActionView::UpsertEdges(edges),
        )
    } else {
        sensors_phase(c, p, sensors)
    }
}

/// Make the station writes, if any, else go on with the hierarchy.
pub open spec fn station_phase(c: CacheView, p: PayloadView, w: StationWrites) -> IngestOutcome {
    if w.create || w.update || w.record_location {
        (IngestStateView::WritingStation, c, IngestActionView::WriteStation(w))
    } else {
        hierarchy_phase(c, p)
    }
}

/// The cache once the request's position is committed.
pub open spec fn with_position(c: CacheView, p: PayloadView) -> CacheView {
    CacheView { locations: located(c.locations, p.station, p.latitude, p.longitude), ..c }
}

/// The cache once edges are registered for the station.
pub open spec fn with_edges(c: CacheView, p: PayloadView, edges: Seq<i32>) -> CacheView {
    CacheView { edges: c.edges.union(edge_keys(p.station, edges)), ..c }
}

/// The cache once sensors are registered for the station.
pub open spec fn with_sensors(c: CacheView, p: PayloadView, sensors: Seq<(i32, i32)>) -> CacheView {
    CacheView { sensors: c.sensors.union(sensor_keys(p.station, sensors)), ..c }
}

/// A request's transition. Any event that does not continue the request
/// (a failure, or an event out of turn) answers it as failed and leaves
/// the cache as it was.
pub open spec fn ingest_next(
    s: IngestStateView,
    c: CacheView,
    p: PayloadView,
    e: IngestEvent,
) -> IngestOutcome {
    let failed = (IngestStateView::Finished, c, IngestActionView::Respond { ok: false });
    match (s, e) {
        (IngestStateView::Start, IngestEvent::Begin) => {
            let change = location_change(c.locations, p.station, p.latitude, p.longitude);
            if change == LocationChange::FirstSeen {
                (IngestStateView::LookingUp, c, IngestActionView::LookUpStation)
            } else {
                station_phase(c, p, writes_for(change, None, p.latitude, p.longitude))
            }
        },
        (IngestStateView::LookingUp, IngestEvent::StationLookedUp { stored }) => {
            station_phase(
                c,
                p,
                writes_for(LocationChange::FirstSeen, stored, p.latitude, p.longitude),
            )
        },
        (IngestStateView::WritingStation, IngestEvent::Succeeded) => {
            hierarchy_phase(with_position(c, p), p)
        },
        (IngestStateView::RegisteringEdges { edges, sensors }, IngestEvent::Succeeded) => {
            sensors_phase(with_edges(c, p, edges), p, sensors)
        },
        (IngestStateView::RegisteringSensors { sensors }, IngestEvent::Succeeded) => {
            readings_phase(with_sensors(c, p, sensors), p)
        },
        (IngestStateView::InsertingReadings, IngestEvent::Succeeded) => {
            (IngestStateView::Finished, c, IngestActionView::Respond { ok: true })
        },
        _ => failed,
    }
}

fn readings_step(cache: &IngestCache, payload: &ApiPayload) -> (res: (IngestState, IngestAction))
    ensures
        res.0@ == readings_phase(cache@, payload@).0,
        res.1@ == readings_phase(cache@, payload@).2,
{
    (IngestState::InsertingReadings, IngestAction::InsertReadings(select_new_readings(&payload.data)))
}

fn sensors_step(cache: &IngestCache, payload: &ApiPayload, sensors: Vec<(i32, i32)>) -> (res: (
    IngestState,
    IngestAction,
))
    ensures
        res.0@ == sensors_phase(cache@, payload@, sensors@).0,
        res.1@ == sensors_phase(cache@, payload@, sensors@).2,
{
    if sensors.len() > 0 {
        let action = IngestAction::UpsertSensors(slice_to_vec(sensors.as_slice()));
        (IngestState::RegisteringSensors { sensors }, action)
    } else {
        readings_step(cache, payload)
    }
}

fn hierarchy_step(cache: &IngestCache, payload: &ApiPayload) -> (res: (IngestState, IngestAction))
    ensures
        res.0@ == hierarchy_phase(cache@, payload@).0,
        res.1@ == hierarchy_phase(cache@, payload@).2,
{
    let gaps = cache.missing_hierarchy(payload.station_id.as_str(), payload.data.as_slice());
    if gaps.edges.len() > 0 {
        let action = IngestAction::UpsertEdges(slice_to_vec(gaps.edges.as_slice()));
        (IngestState::RegisteringEdges { edges: gaps.edges, sensors: gaps.sensors }, action)
    } else {
        sensors_step(cache, payload, gaps.sensors)
    }
}

fn station_step(cache: &IngestCache, payload: &ApiPayload, w: StationWrites) -> (res: (
    IngestState,
    IngestAction,
))
    ensures
        res.0@ == station_phase(cache@, payload@, w).0,
        res.1@ == station_phase(cache@, payload@, w).2,
{
    if w.create || w.update || w.record_location {
        (IngestState::WritingStation, IngestAction::WriteStation(w))
    } else {
        hierarchy_step(cache, payload)
    }
}

/// Advances a request by one event, taking into the cache what the event
/// reports written.
pub fn ingest_step(
    cache: &mut IngestCache,
    payload: &ApiPayload,
    state: IngestState,
    event: IngestEvent,
) -> (res: (IngestState, IngestAction))
    ensures
        (res.0@, final(cache)@, res.1@) == ingest_next(state@, old(cache)@, payload@, event),
{
    let station = payload.station_id.as_str();
    match (state, event) {
        (IngestState::Start, IngestEvent::Begin) => {
            let change = cache.compare_location(station, payload.latitude, payload.longitude);
            match change {
                LocationChange::FirstSeen => (IngestState::LookingUp, IngestAction::LookUpStation),
                _ => {
                    let w = station_writes(change, None, payload.latitude, payload.longitude);
                    station_step(cache, payload, w)
                },
            }
        },
        (IngestState::LookingUp, IngestEvent::StationLookedUp { stored }) => {
            let w = station_writes(
                LocationChange::FirstSeen,
                stored,
                payload.latitude,
                payload.longitude,
            );
            station_step(cache, payload, w)
        },
        (IngestState::WritingStation, IngestEvent::Succeeded) => {
            cache.commit_location(station, payload.latitude, payload.longitude);
            hierarchy_step(cache, payload)
        },
        (IngestState::RegisteringEdges { edges, sensors }, IngestEvent::Succeeded) => {
            cache.record_edges(station, edges.as_slice());
            sensors_step(cache, payload, sensors)
        },
        (IngestState::RegisteringSensors { sensors }, IngestEvent::Succeeded) => {
            cache.record_sensors(station, sensors.as_slice());
            readings_step(cache, payload)
        },
        (IngestState::InsertingReadings, IngestEvent::Succeeded) => {
            (IngestState::Finished, IngestAction::Respond { ok: true })
        },
        _ => (IngestState::Finished, IngestAction::Respond { ok: false }),
    }
}

/// The cache takes in writes only when a step reports success, and then
/// exactly what that step wrote: the reported position after the station
/// writes, the pending edges after the edge upserts, the pending sensors
/// after the sensor upserts. It never loses anything. A failed request
/// leaves the cache as it was, so a retry makes the same writes again.
pub proof fn lemma_cache_changes_only_on_success(
    s: IngestStateView,
    c: CacheView,
    p: PayloadView,
    e: IngestEvent,
)
    ensures
        ({
            let c2 = ingest_next(s, c, p, e).1;
            &&& !(e is Succeeded) ==> c2 == c
            &&& c.edges.subset_of(c2.edges)
            &&& c.sensors.subset_of(c2.sensors)
            &&& c.locations.dom().subset_of(c2.locations.dom())
            &&& c2.locations != c.locations ==> (s is WritingStation && e is Succeeded
                && c2.locations == located(c.locations, p.station, p.latitude, p.longitude))
            &&& c2.edges != c.edges ==> (s is RegisteringEdges && e is Succeeded && c2.edges
                == c.edges.union(edge_keys(p.station, s->edges)))
            &&& c2.sensors != c.sensors ==> (s is RegisteringSensors && e is Succeeded
                && c2.sensors == c.sensors.union(
                sensor_keys(p.station, s->RegisteringSensors_sensors),
            ))
        }),
{
    let c2 = ingest_next(s, c, p, e).1;
    match (s, e) {
        (IngestStateView::WritingStation, IngestEvent::Succeeded) => {
            assert(c2 == with_position(c, p));
        },
        (IngestStateView::RegisteringEdges { edges, sensors }, IngestEvent::Succeeded) => {
            assert(c2 == with_edges(c, p, edges));
        },
        (IngestStateView::RegisteringSensors { sensors }, IngestEvent::Succeeded) => {
            assert(c2 == with_sensors(c, p, sensors));
        },
        _ => {},
    }
}

/// What a request asks to write is what its next state waits for: edges
/// and sensors to register are the ones held as pending, and the station
/// writes are awaited in the station state.
pub proof fn lemma_pending_matches_action(s: IngestStateView, c: CacheView, p: PayloadView, e: IngestEvent)
    ensures
        ({
            let (s2, c2, a) = ingest_next(s, c, p, e);
            &&& a is UpsertEdges ==> s2 is RegisteringEdges && s2->edges == a->UpsertEdges_0
            &&& a is UpsertSensors ==> s2 is RegisteringSensors && s2->RegisteringSensors_sensors
                == a->UpsertSensors_0
            &&& a is WriteStation ==> s2 is WritingStation
            &&& a is Respond <==> s2 is Finished
        }),
{
}

/// Mathematical view of what the store holds: station positions,
/// registered edges and sensors.
pub ghost struct StoreView {
    pub positions: Map<Seq<char>, (u64, u64)>,
    pub edges: Set<(Seq<char>, i32)>,
    pub sensors: Set<(Seq<char>, i32, i32)>,
}

/// Two positions agree: the same bits, or equal as coordinates.
pub open spec fn positions_agree(a: (u64, u64), b: (u64, u64)) -> bool {
    a == b || (f64_eq(a.0, b.0) && f64_eq(a.1, b.1))
}

/// The cache is not ahead of the store: every cached edge and sensor is
/// registered in the store, and every cached position is the stored one.
pub open spec fn cache_within_store(c: CacheView, store: StoreView) -> bool {
    &&& c.edges.subset_of(store.edges)
    &&& c.sensors.subset_of(store.sensors)
    &&& forall|k: Seq<char>|
        #[trigger] c.locations.contains_key(k) ==> store.positions.contains_key(k)
            && positions_agree(c.locations[k], store.positions[k])
}

/// What a successful step leaves in the store: the station with the
/// reported position, or the pending edges, or the pending sensors.
pub open spec fn success_stored(s: IngestStateView, p: PayloadView, e: IngestEvent, store: StoreView) -> bool {
    e is Succeeded ==> match s {
        IngestStateView::WritingStation => store.positions.contains_key(p.station)
            && store.positions[p.station] == (p.latitude, p.longitude),
        IngestStateView::RegisteringEdges { edges, .. } => edge_keys(p.station, edges).subset_of(
            store.edges,
        ),
        IngestStateView::RegisteringSensors { sensors } => sensor_keys(
            p.station,
            sensors,
        ).subset_of(store.sensors),
        _ => true,
    }
}

/// The cache never runs ahead of the store: if it was within the store
/// before a step, and a step reported as successful did leave its writes
/// in the store, it is within the store after the step, whether the step
/// succeeded or failed.
pub proof fn lemma_cache_never_ahead_of_store(
    s: IngestStateView,
    c: CacheView,
    p: PayloadView,
    e: IngestEvent,
    store: StoreView,
)
    requires
        cache_within_store(c, store),
        success_stored(s, p, e, store),
    ensures
        cache_within_store(ingest_next(s, c, p, e).1, store),
{
    lemma_cache_changes_only_on_success(s, c, p, e);
    let c2 = ingest_next(s, c, p, e).1;
    match (s, e) {
        (IngestStateView::WritingStation, IngestEvent::Succeeded) => {
            assert forall|k: Seq<char>| #[trigger] c2.locations.contains_key(k) implies store.positions.contains_key(k)
                && positions_agree(c2.locations[k], store.positions[k]) by {
                if k == p.station {
                    if location_change(c.locations, p.station, p.latitude, p.longitude)
                        == LocationChange::Unchanged {
                        crate::ieee::lemma_f64_eq_symmetric_reflexive(c.locations[k].0, p.latitude);
                        crate::ieee::lemma_f64_eq_symmetric_reflexive(c.locations[k].1, p.longitude);
                    }
                } else {
                    assert(c.locations.contains_key(k));
                }
            }
        },
        (IngestStateView::RegisteringEdges { edges, sensors }, IngestEvent::Succeeded) => {},
        (IngestStateView::RegisteringSensors { sensors }, IngestEvent::Succeeded) => {},
        _ => {},
    }
}

/// The station's key for the edge of packet `j`.
pub open spec fn edge_of(p: PayloadView, j: int) -> (Seq<char>, i32) {
    (p.station, p.packets[j].edge_id)
}

/// The station's key for the sensor in slot `i` of packet `j`.
pub open spec fn sensor_of(p: PayloadView, j: int, i: int) -> (Seq<char>, i32, i32) {
    (p.station, p.packets[j].edge_id, p.packets[j].sensors@[i].id)
}

/// Every edge of the payload, and the sensor of every active slot, is registered in the cache.
pub open spec fn hierarchy_cached(c: CacheView, p: PayloadView) -> bool {
    &&& forall|j: int| 0 <= j < p.packets.len() ==> c.edges.contains(#[trigger] edge_of(p, j))
    &&& forall|j: int, i: int|
        0 <= j < p.packets.len() && 0 <= i < p.packets[j].sensors@.len() && slot_active(
            p.packets[j],
            i,
        ) ==> c.sensors.contains(#[trigger] sensor_of(p, j, i))
}

/// The state and cache after a request has handled the given events in turn.
pub open spec fn after_events(
    s: IngestStateView,
    c: CacheView,
    p: PayloadView,
    events: Seq<IngestEvent>,
) -> (IngestStateView, CacheView)
    decreases events.len(),
{
    if events.len() == 0 {
        (s, c)
    } else {
        let (s1, c1) = after_events(s, c, p, events.drop_last());
        let o = ingest_next(s1, c1, p, events.last());
        (o.0, o.1)
    }
}

spec fn edges_pending_or_cached(c: CacheView, p: PayloadView, edges: Seq<i32>) -> bool {
    forall|j: int|
        0 <= j < p.packets.len() ==> c.edges.contains(#[trigger] edge_of(p, j)) || edges.contains(
            p.packets[j].edge_id,
        )
}

spec fn sensors_pending_or_cached(c: CacheView, p: PayloadView, sensors: Seq<(i32, i32)>) -> bool {
    forall|j: int, i: int|
        0 <= j < p.packets.len() && 0 <= i < p.packets[j].sensors@.len() && slot_active(
            p.packets[j],
            i,
        ) ==> c.sensors.contains(#[trigger] sensor_of(p, j, i)) || sensors.contains(
            (p.packets[j].edge_id, p.packets[j].sensors@[i].id),
        )
}

spec fn edges_cached(c: CacheView, p: PayloadView) -> bool {
    forall|j: int| 0 <= j < p.packets.len() ==> c.edges.contains(#[trigger] edge_of(p, j))
}

spec fn round_inv(s: IngestStateView, c: CacheView, p: PayloadView) -> bool {
    match s {
        IngestStateView::RegisteringEdges { edges, sensors } => edges_pending_or_cached(c, p, edges)
            && sensors_pending_or_cached(c, p, sensors),
        IngestStateView::RegisteringSensors { sensors } => edges_cached(c, p)
            && sensors_pending_or_cached(c, p, sensors),
        IngestStateView::InsertingReadings => hierarchy_cached(c, p),
        _ => true,
    }
}

/// The claim of the law on one outcome: inserting readings, or answering
/// success, only with the payload's hierarchy in the cache.
spec fn readings_claim(o: IngestOutcome, p: PayloadView) -> bool {
    (o.2 is InsertReadings || o.2 == IngestActionView::Respond { ok: true }) ==> hierarchy_cached(
        o.1,
        p,
    )
}

proof fn lemma_sensors_phase_inv(c: CacheView, p: PayloadView, sensors: Seq<(i32, i32)>)
    requires
        edges_cached(c, p),
        sensors_pending_or_cached(c, p, sensors),
    ensures
        round_inv(sensors_phase(c, p, sensors).0, sensors_phase(c, p, sensors).1, p),
        readings_claim(sensors_phase(c, p, sensors), p),
{
    if sensors.len() == 0 {
        assert forall|j: int, i: int|
            0 <= j < p.packets.len() && 0 <= i < p.packets[j].sensors@.len() && slot_active(
                p.packets[j],
                i,
            ) implies c.sensors.contains(#[trigger] sensor_of(p, j, i)) by {
            assert(!sensors.contains((p.packets[j].edge_id, p.packets[j].sensors@[i].id)));
        }
    }
}

proof fn lemma_hierarchy_phase_inv(c: CacheView, p: PayloadView)
    requires
        p.packets.len() <= usize::MAX,
    ensures
        round_inv(hierarchy_phase(c, p).0, hierarchy_phase(c, p).1, p),
        readings_claim(hierarchy_phase(c, p), p),
{
    let n = p.packets.len() as int;
    let edges = missing_edges(c.edges, p.station, p.packets);
    let sensors = missing_sensors(c.sensors, p.station, p.packets);
    lemma_edges_covered(c.edges, p.station, p.packets, n);
    lemma_sensors_covered(c.sensors, p.station, p.packets, n);
    assert forall|j: int| 0 <= j < n implies c.edges.contains(#[trigger] edge_of(p, j))
        || edges.contains(p.packets[j].edge_id) by {
        assert(c.edges.contains((p.station, p.packets[j].edge_id)) || edges.contains(
            p.packets[j].edge_id,
        ));
    }
    assert forall|j: int, i: int|
        0 <= j < n && 0 <= i < p.packets[j].sensors@.len() && slot_active(
            p.packets[j],
            i,
        ) implies c.sensors.contains(#[trigger] sensor_of(p, j, i)) || sensors.contains(
        (p.packets[j].edge_id, p.packets[j].sensors@[i].id),
    ) by {
        let id = p.packets[j].sensors@[i].id;
        assert(c.sensors.contains((p.station, p.packets[j].edge_id, id)) || sensors.contains(
            (p.packets[j].edge_id, id),
        ));
    }
    if edges.len() == 0 {
        assert forall|j: int| 0 <= j < n implies c.edges.contains(#[trigger] edge_of(p, j)) by {
            assert(!edges.contains(p.packets[j].edge_id));
        }
        lemma_sensors_phase_inv(c, p, sensors);
    }
}

proof fn lemma_step_inv(s: IngestStateView, c: CacheView, p: PayloadView, e: IngestEvent)
    requires
        round_inv(s, c, p),
        p.packets.len() <= usize::MAX,
    ensures
        round_inv(ingest_next(s, c, p, e).0, ingest_next(s, c, p, e).1, p),
        readings_claim(ingest_next(s, c, p, e), p),
{
    match (s, e) {
        (IngestStateView::Start, IngestEvent::Begin) => {
            let change = location_change(c.locations, p.station, p.latitude, p.longitude);
            if change != LocationChange::FirstSeen {
                lemma_hierarchy_phase_inv(c, p);
            }
        },
        (IngestStateView::LookingUp, IngestEvent::StationLookedUp { stored }) => {
            lemma_hierarchy_phase_inv(c, p);
        },
        (IngestStateView::WritingStation, IngestEvent::Succeeded) => {
            lemma_hierarchy_phase_inv(with_position(c, p), p);
        },
        (IngestStateView::RegisteringEdges { edges, sensors }, IngestEvent::Succeeded) => {
            let c1 = with_edges(c, p, edges);
            assert forall|j: int| 0 <= j < p.packets.len() implies c1.edges.contains(
                #[trigger] edge_of(p, j),
            ) by {
                if !c.edges.contains(edge_of(p, j)) {
                    assert(edge_keys(p.station, edges).contains(edge_of(p, j)));
                }
            }
            lemma_sensors_phase_inv(c1, p, sensors);
        },
        (IngestStateView::RegisteringSensors { sensors }, IngestEvent::Succeeded) => {
            let c1 = with_sensors(c, p, sensors);
            assert forall|j: int, i: int|
                0 <= j < p.packets.len() && 0 <= i < p.packets[j].sensors@.len() && slot_active(
                    p.packets[j],
                    i,
                ) implies c1.sensors.contains(#[trigger] sensor_of(p, j, i)) by {
                if !c.sensors.contains(sensor_of(p, j, i)) {
                    assert(sensor_keys(p.station, sensors).contains(sensor_of(p, j, i)));
                }
            }
        },
        _ => {},
    }
}

proof fn lemma_after_events_inv(c: CacheView, p: PayloadView, events: Seq<IngestEvent>)
    requires
        p.packets.len() <= usize::MAX,
    ensures
        round_inv(
            after_events(IngestStateView::Start, c, p, events).0,
            after_events(IngestStateView::Start, c, p, events).1,
            p,
        ),
    decreases events.len(),
{
    if events.len() > 0 {
        lemma_after_events_inv(c, p, events.drop_last());
        let (s1, c1) = after_events(IngestStateView::Start, c, p, events.drop_last());
        lemma_step_inv(s1, c1, p, events.last());
    }
}

/// A request inserts readings, or answers success, only once every edge of
/// the payload and the sensor of every active slot are registered in the
/// cache: whatever the cache held and whatever events came before, no
/// reading of an unregistered edge or sensor is inserted, and a successful
/// request leaves the payload's whole hierarchy registered.
pub proof fn lemma_readings_only_after_hierarchy(
    c: CacheView,
    p: PayloadView,
    events: Seq<IngestEvent>,
    e: IngestEvent,
)
    requires
        p.packets.len() <= usize::MAX,
    ensures
        ({
            let (s1, c1) = after_events(IngestStateView::Start, c, p, events);
            let (s2, c2, a) = ingest_next(s1, c1, p, e);
            (a is InsertReadings || a == IngestActionView::Respond { ok: true }) ==> hierarchy_cached(
                c2,
                p,
            )
        }),
{
    lemma_after_events_inv(c, p, events);
    let (s1, c1) = after_events(IngestStateView::Start, c, p, events);
    lemma_step_inv(s1, c1, p, e);
}

/// The readings a request inserts are active readings of its payload, no
/// two with the same (edge, sensor, timestamp), and every active reading of
/// the payload has its key among them.
pub proof fn lemma_inserted_readings_cover_payload(
    s: IngestStateView,
    c: CacheView,
    p: PayloadView,
    e: IngestEvent,
)
    requires
        p.packets.len() <= usize::MAX,
    ensures
        ingest_next(s, c, p, e).2 matches IngestActionView::InsertReadings(rs) ==> {
            &&& forall|t: int|
                #![trigger rs[t]]
                0 <= t < rs.len() ==> {
                    &&& rs[t].packet < p.packets.len()
                    &&& rs[t].slot < p.packets[rs[t].packet as int].sensors@.len()
                    &&& slot_active(p.packets[rs[t].packet as int], rs[t].slot as int)
                }
            &&& forall|t1: int, t2: int|
                0 <= t1 < t2 < rs.len() ==> reading_key(p.packets, #[trigger] rs[t1])
                    != reading_key(p.packets, #[trigger] rs[t2])
            &&& forall|j: int, i: int|
                0 <= j < p.packets.len() && 0 <= i < p.packets[j].sensors@.len() && slot_active(
                    p.packets[j],
                    i,
                ) ==> exists|t: int|
                    0 <= t < rs.len() && #[trigger] reading_key(p.packets, rs[t]) == (
                        p.packets[j].edge_id,
                        p.packets[j].sensors@[i].id,
                        p.packets[j].sensors@[i].timestamp,
                    )
        },
{
    lemma_selection_deduplicates(p.packets);
    if let IngestActionView::InsertReadings(rs) = ingest_next(s, c, p, e).2 {
        assert(rs == first_occurrences(p.packets, active_slots(p.packets)));
        assert forall|j: int, i: int|
            0 <= j < p.packets.len() && 0 <= i < p.packets[j].sensors@.len() && slot_active(
                p.packets[j],
                i,
            ) implies exists|t: int|
            0 <= t < rs.len() && #[trigger] reading_key(p.packets, rs[t]) == (
                p.packets[j].edge_id,
                p.packets[j].sensors@[i].id,
                p.packets[j].sensors@[i].timestamp,
            ) by {
            let r = ReadingSlot { packet: j as usize, slot: i as usize };
            assert(has_key(p.packets, rs, reading_key(p.packets, r)));
        }
    }
}

} // verus!
