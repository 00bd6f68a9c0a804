//! Replication of a station's unsynced rows to the primary store.
//!
//! The worker polls: it starts a sync round when some unsynced metric is a
//! warning or an alert, or when the last successful round is a minute old.
//! A round fetches the unsynced readings and metrics, sends them, and only
//! once the primary acknowledged them marks them as synced. The worker's
//! decisions are a state machine; the I/O between them is done by its caller.
//!
//! The primary applies what it receives in one transaction: first it makes
//! sure each reading's station, edge and sensor exist (failures there are
//! ignored), then it inserts the readings, then the metrics.
use vstd::prelude::*;

verus! {

/// Seconds between two polls of the worker.
pub const POLL_INTERVAL_SECS: u64 = 5;

/// Age in seconds after which a round runs even without alerts.
pub const NORMAL_SYNC_INTERVAL_SECS: u64 = 60;

/// Most rows of each kind fetched for one round.
pub const SYNC_BATCH_LIMIT: usize = 1000;

/// Whether a poll starts a sync round.
pub fn should_sync(has_alerts: bool, secs_since_last_sync: u64) -> (res: bool)
    ensures
        res == (has_alerts || secs_since_last_sync >= NORMAL_SYNC_INTERVAL_SECS),
{
    has_alerts || secs_since_last_sync >= NORMAL_SYNC_INTERVAL_SECS
}

/// Where the worker stands. Row ids are UUIDs as 128-bit integers.
pub enum SyncState {
    /// Between rounds.
    Waiting,
    /// The unsynced rows are being fetched.
    Fetching,
    /// The fetched rows are being sent.
    Sending { reading_ids: Vec<u128>, metric_ids: Vec<u128>, total: usize },
    /// The sent readings are being marked as synced.
    MarkingReadings { metric_ids: Vec<u128>, total: usize },
    /// The sent metrics are being marked as synced.
    MarkingMetrics { total: usize },
}

/// What the caller reports back.
pub enum SyncEvent {
    /// A poll: whether an unsynced warning or alert exists, and the age of
    /// the last successful round.
    Tick { has_alerts: bool, secs_since_last_sync: u64 },
    /// The ids of the unsynced rows that were fetched.
    Fetched { reading_ids: Vec<u128>, metric_ids: Vec<u128> },
    /// The primary's answer to the rows sent: success or not.
    Delivered { success: bool },
    /// The requested rows were marked as synced.
    Marked,
    /// The requested step failed.
    Failed,
}

/// What the caller is to do next.
pub enum SyncAction {
    /// Nothing until the next poll.
    Sleep,
    /// Fetch the unsynced readings and metrics.
    FetchUnsynced,
    /// Send the fetched rows to the primary.
    Send,
    /// Mark these readings as synced.
    MarkReadingsSynced(Vec<u128>),
    /// Mark these metrics as synced.
    MarkMetricsSynced(Vec<u128>),
    /// The round succeeded with this many rows; it counts as the last sync.
    Completed(usize),
    /// The round failed; the last sync stays as it was.
    Aborted,
}

/// Mathematical view of a worker state.
pub ghost enum SyncStateView {
    Waiting,
    Fetching,
    Sending { reading_ids: Seq<u128>, metric_ids: Seq<u128>, total: nat },
    MarkingReadings { metric_ids: Seq<u128>, total: nat },
    MarkingMetrics { total: nat },
}

/// Mathematical view of an event.
pub ghost enum SyncEventView {
    Tick { has_alerts: bool, secs_since_last_sync: nat },
    Fetched { reading_ids: Seq<u128>, metric_ids: Seq<u128> },
    Delivered { success: bool },
    Marked,
    Failed,
}

/// Mathematical view of an action.
pub ghost enum SyncActionView {
    Sleep,
    FetchUnsynced,
    Send,
    MarkReadingsSynced(Seq<u128>),
    MarkMetricsSynced(Seq<u128>),
    Completed(nat),
    Aborted,
}

impl View for SyncState {
    type V = SyncStateView;

    open spec fn view(&self) -> SyncStateView {
        match self {
            SyncState::Waiting => SyncStateView::Waiting,
            SyncState::Fetching => SyncStateView::Fetching,
            SyncState::Sending { reading_ids, metric_ids, total } => SyncStateView::Sending {
                reading_ids: reading_ids@,
                metric_ids: metric_ids@,
                total: *total as nat,
            },
            SyncState::MarkingReadings { metric_ids, total } => SyncStateView::MarkingReadings {
                metric_ids: metric_ids@,
                total: *total as nat,
            },
            SyncState::MarkingMetrics { total } => SyncStateView::MarkingMetrics {
                total: *total as nat,
            },
        }
    }
}

impl View for SyncEvent {
    type V = SyncEventView;

    open spec fn view(&self) -> SyncEventView {
        match self {
            SyncEvent::Tick { has_alerts, secs_since_last_sync } => SyncEventView::Tick {
                has_alerts: *has_alerts,
                secs_since_last_sync: *secs_since_last_sync as nat,
            },
            SyncEvent::Fetched { reading_ids, metric_ids } => SyncEventView::Fetched {
                reading_ids: reading_ids@,
                metric_ids: metric_ids@,
            },
            SyncEvent::Delivered { success } => SyncEventView::Delivered { success: *success },
            SyncEvent::Marked => SyncEventView::Marked,
            SyncEvent::Failed => SyncEventView::Failed,
        }
    }
}

impl View for SyncAction {
    type V = SyncActionView;

    open spec fn view(&self) -> SyncActionView {
        match self {
            SyncAction::Sleep => SyncActionView::Sleep,
            SyncAction::FetchUnsynced => SyncActionView::FetchUnsynced,
            SyncAction::Send => SyncActionView::Send,
            SyncAction::MarkReadingsSynced(ids) => SyncActionView::MarkReadingsSynced(ids@),
            SyncAction::MarkMetricsSynced(ids) => SyncActionView::MarkMetricsSynced(ids@),
            SyncAction::Completed(n) => SyncActionView::Completed(*n as nat),
            SyncAction::Aborted => SyncActionView::Aborted,
        }
    }
}

/// After the primary accepted the rows: mark the readings, else the
/// metrics, else the round is done.
pub open spec fn after_delivery(
    reading_ids: Seq<u128>,
    metric_ids: Seq<u128>,
    total: nat,
) -> (SyncStateView, SyncActionView) {
    if reading_ids.len() > 0 {
        (
            SyncStateView::MarkingReadings { metric_ids, total },
            SyncActionView::MarkReadingsSynced(reading_ids),
        )
    } else {
        after_readings_marked(metric_ids, total)
    }
}

/// After the readings were marked: mark the metrics, else the round is done.
pub open spec fn after_readings_marked(metric_ids: Seq<u128>, total: nat) -> (
    SyncStateView,
    SyncActionView,
) {
    if metric_ids.len() > 0 {
        (SyncStateView::MarkingMetrics { total }, SyncActionView::MarkMetricsSynced(metric_ids))
    } else {
        (SyncStateView::Waiting, SyncActionView::Completed(total))
    }
}

/// The worker's transition: the next state and the action for an event.
/// An event that does not belong to the current state leaves it as it is.
pub open spec fn sync_next(s: SyncStateView, e: SyncEventView) -> (SyncStateView, SyncActionView) {
    match (s, e) {
        (SyncStateView::Waiting, SyncEventView::Tick { has_alerts, secs_since_last_sync }) => {
            if has_alerts || secs_since_last_sync >= NORMAL_SYNC_INTERVAL_SECS {
                (SyncStateView::Fetching, SyncActionView::FetchUnsynced)
            } else {
                (SyncStateView::Waiting, SyncActionView::Sleep)
            }
        },
        (SyncStateView::Fetching, SyncEventView::Fetched { reading_ids, metric_ids }) => {
            let total = reading_ids.len() + metric_ids.len();
            if total == 0 {
                (SyncStateView::Waiting, SyncActionView::Completed(0))
            } else {
                (SyncStateView::Sending { reading_ids, metric_ids, total }, SyncActionView::Send)
            }
        },
        (SyncStateView::Sending { reading_ids, metric_ids, total }, SyncEventView::Delivered {
            success,
        }) => {
            if success {
                after_delivery(reading_ids, metric_ids, total)
            } else {
                (SyncStateView::Waiting, SyncActionView::Aborted)
            }
        },
        (SyncStateView::MarkingReadings { metric_ids, total }, SyncEventView::Marked) => {
            after_readings_marked(metric_ids, total)
        },
        (SyncStateView::MarkingMetrics { total }, SyncEventView::Marked) => {
            (SyncStateView::Waiting, SyncActionView::Completed(total))
        },
        (SyncStateView::Waiting, _) => (s, SyncActionView::Sleep),
        (_, SyncEventView::Failed) => (SyncStateView::Waiting, SyncActionView::Aborted),
        (_, _) => (s, SyncActionView::Sleep),
    }
}

/// Whether an event can be handed to the worker: a fetch result's row
/// counts must add up within `usize`.
pub open spec fn event_fits(e: SyncEventView) -> bool {
    match e {
        SyncEventView::Fetched { reading_ids, metric_ids } => reading_ids.len() + metric_ids.len()
            <= usize::MAX,
        _ => true,
    }
}

fn finish_readings(metric_ids: Vec<u128>, total: usize) -> (res: (SyncState, SyncAction))
    ensures
        (res.0@, res.1@) == after_readings_marked(metric_ids@, total as nat),
{
    if metric_ids.len() > 0 {
        (SyncState::MarkingMetrics { total }, SyncAction::MarkMetricsSynced(metric_ids))
    } else {
        (SyncState::Waiting, SyncAction::Completed(total))
    }
}

/// Advances the worker by one event.
pub fn sync_step(state: SyncState, event: SyncEvent) -> (res: (SyncState, SyncAction))
    requires
        event_fits(event@),
    ensures
        (res.0@, res.1@) == sync_next(state@, event@),
{
    match (state, event) {
        (SyncState::Waiting, SyncEvent::Tick { has_alerts, secs_since_last_sync }) => {
            if should_sync(has_alerts, secs_since_last_sync) {
                (SyncState::Fetching, SyncAction::FetchUnsynced)
            } else {
                (SyncState::Waiting, SyncAction::Sleep)
            }
        },
        (SyncState::Fetching, SyncEvent::Fetched { reading_ids, metric_ids }) => {
            let total = reading_ids.len() + metric_ids.len();
            if total == 0 {
                (SyncState::Waiting, SyncAction::Completed(0))
            } else {
                (SyncState::Sending { reading_ids, metric_ids, total }, SyncAction::Send)
            }
        },
        (SyncState::Sending { reading_ids, metric_ids, total }, SyncEvent::Delivered {
            success,
        }) => {
            if !success {
                (SyncState::Waiting, SyncAction::Aborted)
            } else if reading_ids.len() > 0 {
                (
                    SyncState::MarkingReadings { metric_ids, total },
                    SyncAction::MarkReadingsSynced(reading_ids),
                )
            } else {
                finish_readings(metric_ids, total)
            }
        },
        (SyncState::MarkingReadings { metric_ids, total }, SyncEvent::Marked) => {
            finish_readings(metric_ids, total)
        },
        (SyncState::MarkingMetrics { total }, SyncEvent::Marked) => {
            (SyncState::Waiting, SyncAction::Completed(total))
        },
        (SyncState::Waiting, _) => (SyncState::Waiting, SyncAction::Sleep),
        (_, SyncEvent::Failed) => (SyncState::Waiting, SyncAction::Aborted),
        (s, _) => (s, SyncAction::Sleep),
    }
}


/// A poll with an unsynced warning or alert starts a round, however recent
/// the last one was.
pub proof fn lemma_alert_starts_round(secs_since_last_sync: nat)
    ensures
        sync_next(
            SyncStateView::Waiting,
            SyncEventView::Tick { has_alerts: true, secs_since_last_sync },
        ) == (SyncStateView::Fetching, SyncActionView::FetchUnsynced),
{
}

/// Without an alert, a poll starts a round exactly when the last
/// successful round is at least a minute old.
pub proof fn lemma_quiet_poll(secs_since_last_sync: nat)
    ensures
        sync_next(
            SyncStateView::Waiting,
            SyncEventView::Tick { has_alerts: false, secs_since_last_sync },
        ) == if secs_since_last_sync >= NORMAL_SYNC_INTERVAL_SECS {
            (SyncStateView::Fetching, SyncActionView::FetchUnsynced)
        } else {
            (SyncStateView::Waiting, SyncActionView::Sleep)
        },
{
}

/// Whether `ids`, marked as synced readings, are those that `s` sent and
/// `e` says the primary accepted.
pub open spec fn readings_mark_allowed(s: SyncStateView, e: SyncEventView, ids: Seq<u128>) -> bool {
    match s {
        SyncStateView::Sending { reading_ids, .. } => ids == reading_ids && e
            == SyncEventView::Delivered { success: true },
        _ => false,
    }
}

/// Whether `ids`, marked as synced metrics, are those of the round in `s`,
/// after the primary accepted them or after the round's readings were marked.
pub open spec fn metrics_mark_allowed(s: SyncStateView, e: SyncEventView, ids: Seq<u128>) -> bool {
    match s {
        SyncStateView::Sending { metric_ids, .. } => ids == metric_ids && e
            == SyncEventView::Delivered { success: true },
        SyncStateView::MarkingReadings { metric_ids, .. } => ids == metric_ids && e
            == SyncEventView::Marked,
        _ => false,
    }
}

/// Rows are marked as synced only once the primary accepted them: readings
/// right after a successful delivery, metrics after it or after the
/// readings of the same round were marked; the ids marked are the ones
/// fetched for the round.
pub proof fn lemma_marks_follow_delivery(s: SyncStateView, e: SyncEventView)
    ensures
        sync_next(s, e).1 is MarkReadingsSynced ==> readings_mark_allowed(
            s,
            e,
            sync_next(s, e).1->MarkReadingsSynced_0,
        ),
        sync_next(s, e).1 is MarkMetricsSynced ==> metrics_mark_allowed(
            s,
            e,
            sync_next(s, e).1->MarkMetricsSynced_0,
        ),
{
}

/// The event by which a delivery is refused.
pub open spec fn refused() -> SyncEventView {
    SyncEventView::Delivered { success: false }
}

/// The state of a round whose rows are being sent.
pub open spec fn sending(reading_ids: Seq<u128>, metric_ids: Seq<u128>, total: nat) -> SyncStateView {
    SyncStateView::Sending { reading_ids, metric_ids, total }
}

/// A delivery that the primary refused, or that failed, ends the round
/// without marking anything and without counting as a sync.
pub proof fn lemma_failed_delivery_aborts(
    reading_ids: Seq<u128>,
    metric_ids: Seq<u128>,
    total: nat,
    e: SyncEventView,
)
    requires
        e == refused() || e == SyncEventView::Failed,
    ensures
        sync_next(sending(reading_ids, metric_ids, total), e) == (
            SyncStateView::Waiting,
            SyncActionView::Aborted,
        ),
{
}

/// A round that finds nothing unsynced completes at once with zero rows.
pub proof fn lemma_empty_round_completes()
    ensures
        sync_next(
            SyncStateView::Fetching,
            SyncEventView::Fetched { reading_ids: Seq::empty(), metric_ids: Seq::empty() },
        ) == (SyncStateView::Waiting, SyncActionView::Completed(0)),
{
}

/// A round whose delivery and marks succeed sends once, marks the fetched
/// readings, then the fetched metrics, and completes with the number of
/// rows fetched, back between rounds.
pub proof fn lemma_successful_round(reading_ids: Seq<u128>, metric_ids: Seq<u128>)
    requires
        reading_ids.len() > 0,
        metric_ids.len() > 0,
    ensures
        ({
            let total = reading_ids.len() + metric_ids.len();
            let s1 = sync_next(
                SyncStateView::Fetching,
                SyncEventView::Fetched { reading_ids, metric_ids },
            );
            let s2 = sync_next(s1.0, SyncEventView::Delivered { success: true });
            let s3 = sync_next(s2.0, SyncEventView::Marked);
            let s4 = sync_next(s3.0, SyncEventView::Marked);
            &&& s1.1 == SyncActionView::Send
            &&& s2.1 == SyncActionView::MarkReadingsSynced(reading_ids)
            &&& s3.1 == SyncActionView::MarkMetricsSynced(metric_ids)
            &&& s4 == (SyncStateView::Waiting, SyncActionView::Completed(total))
        }),
{
}

/// Every row fetched for a round is marked as synced before the round
/// completes: after a successful delivery the fetched readings, if any, are
/// marked first, whatever metrics there are; then the fetched metrics, if
/// any; and only then does the round complete, with the number of rows.
pub proof fn lemma_delivery_marks_every_fetched_row(
    reading_ids: Seq<u128>,
    metric_ids: Seq<u128>,
    total: nat,
)
    ensures
        ({
            let delivered = sync_next(
                sending(reading_ids, metric_ids, total),
                SyncEventView::Delivered { success: true },
            );
            &&& reading_ids.len() > 0 ==> delivered.1 == SyncActionView::MarkReadingsSynced(
                reading_ids,
            )
            &&& reading_ids.len() == 0 && metric_ids.len() > 0 ==> delivered.1
                == SyncActionView::MarkMetricsSynced(metric_ids)
            &&& reading_ids.len() == 0 && metric_ids.len() == 0 ==> delivered
                == (SyncStateView::Waiting, SyncActionView::Completed(total))
            &&& reading_ids.len() > 0 ==> ({
                let marked = sync_next(delivered.0, SyncEventView::Marked);
                &&& metric_ids.len() > 0 ==> marked.1 == SyncActionView::MarkMetricsSynced(
                    metric_ids,
                )
                &&& metric_ids.len() > 0 ==> sync_next(marked.0, SyncEventView::Marked) == (
                    SyncStateView::Waiting,
                    SyncActionView::Completed(total),
                )
                &&& metric_ids.len() == 0 ==> marked == (
                    SyncStateView::Waiting,
                    SyncActionView::Completed(total),
                )
            })
            &&& reading_ids.len() == 0 && metric_ids.len() > 0 ==> sync_next(
                delivered.0,
                SyncEventView::Marked,
            ) == (SyncStateView::Waiting, SyncActionView::Completed(total))
        }),
{
}

/// Any round that completes reports the number of rows it fetched: the
/// count a completion carries is the total recorded when the rows came in.
pub proof fn lemma_completion_reports_fetched(s: SyncStateView, e: SyncEventView)
    ensures
        sync_next(s, e).1 matches SyncActionView::Completed(n) ==> match s {
            SyncStateView::Fetching => e matches SyncEventView::Fetched { reading_ids, metric_ids } && n
                == reading_ids.len() + metric_ids.len(),
            SyncStateView::Sending { total, .. } => n == total,
            SyncStateView::MarkingReadings { total, .. } => n == total,
            SyncStateView::MarkingMetrics { total } => n == total,
            SyncStateView::Waiting => false,
        },
{
}

/// One statement of the primary's transaction; the index is that of the
/// reading or metric it is about.
#[derive(Clone, Copy, Debug, PartialEq, Eq, Structural)]
pub enum ApplyStep {
    EnsureStation(usize),
    EnsureEdge(usize),
    EnsureSensor(usize),
    InsertReading(usize),
    InsertMetric(usize),
}

/// The hierarchy statement at position `i`: station, edge, sensor of
/// reading `i / 3`, in turn.
pub open spec fn hierarchy_step(i: int) -> ApplyStep {
    let r = (i / 3) as usize;
    if i % 3 == 0 {
        ApplyStep::EnsureStation(r)
    } else if i % 3 == 1 {
        ApplyStep::EnsureEdge(r)
    } else {
        ApplyStep::EnsureSensor(r)
    }
}

/// The primary's statements for a batch: the hierarchy of every reading,
/// then every reading, then every metric.
pub open spec fn apply_plan(readings: nat, metrics: nat) -> Seq<ApplyStep> {
    Seq::new(3 * readings, |i: int| hierarchy_step(i)) + Seq::new(
        readings,
        |i: int| ApplyStep::InsertReading(i as usize),
    ) + Seq::new(metrics, |i: int| ApplyStep::InsertMetric(i as usize))
}

/// Whether a step only makes sure a station, edge or sensor exists.
pub open spec fn is_hierarchy(step: ApplyStep) -> bool {
    step is EnsureStation || step is EnsureEdge || step is EnsureSensor
}

/// The statements to run for a batch of readings and metrics.
pub fn plan_sync_apply(readings: usize, metrics: usize) -> (plan: Vec<ApplyStep>)
    requires
        4 * readings + metrics <= usize::MAX,
    ensures
        plan@ == apply_plan(readings as nat, metrics as nat),
        plan@.len() == 4 * readings + metrics,
        forall|r: int|
            #![trigger plan@[3 * r]]
            0 <= r < readings ==> {
                &&& plan@[3 * r] == ApplyStep::EnsureStation(r as usize)
                &&& plan@[3 * r + 1] == ApplyStep::EnsureEdge(r as usize)
                &&& plan@[3 * r + 2] == ApplyStep::EnsureSensor(r as usize)
            },
        forall|r: int|
            0 <= r < readings ==> #[trigger] plan@[3 * readings + r] == ApplyStep::InsertReading(
                r as usize,
            ),
        forall|m: int|
            0 <= m < metrics ==> #[trigger] plan@[4 * readings + m] == ApplyStep::InsertMetric(
                m as usize,
            ),
{
    let mut plan: Vec<ApplyStep> = Vec::new();
    let mut r: usize = 0;
    while r < readings
        invariant
            r <= readings,
            4 * readings + metrics <= usize::MAX,
            plan@ =~= Seq::new(3 * r as nat, |i: int| hierarchy_step(i)),
        decreases readings - r,
    {
        plan.push(ApplyStep::EnsureStation(r));
        plan.push(ApplyStep::EnsureEdge(r));
        plan.push(ApplyStep::EnsureSensor(r));
        proof {
            let next = Seq::new(3 * (r + 1) as nat, |i: int| hierarchy_step(i));
            assert forall|i: int| 0 <= i < next.len() implies plan@[i] == next[i] by {
                if i >= 3 * r {
                    assert(i / 3 == r);
                }
            }
        }
        r = r + 1;
    }
    let ghost head = plan@;
    let mut j: usize = 0;
    while j < readings
        invariant
            j <= readings,
            4 * readings + metrics <= usize::MAX,
            head == Seq::new(3 * readings as nat, |i: int| hierarchy_step(i)),
            plan@ =~= head + Seq::new(j as nat, |i: int| ApplyStep::InsertReading(i as usize)),
        decreases readings - j,
    {
        plan.push(ApplyStep::InsertReading(j));
        j = j + 1;
    }
    let ghost mid = plan@;
    let mut m: usize = 0;
    while m < metrics
        invariant
            m <= metrics,
            mid == head + Seq::new(readings as nat, |i: int| ApplyStep::InsertReading(i as usize)),
            plan@ =~= mid + Seq::new(m as nat, |i: int| ApplyStep::InsertMetric(i as usize)),
        decreases metrics - m,
    {
        plan.push(ApplyStep::InsertMetric(m));
        m = m + 1;
    }
    proof {
        lemma_apply_order(readings as nat, metrics as nat);
    }
    plan
}

/// Whether a failed step is ignored: only the hierarchy statements are
/// allowed to fail; any other failure aborts the transaction.
pub fn failure_is_ignored(step: &ApplyStep) -> (res: bool)
    ensures
        res == is_hierarchy(*step),
{
    match step {
        ApplyStep::EnsureStation(_) | ApplyStep::EnsureEdge(_) | ApplyStep::EnsureSensor(_) => true,
        _ => false,
    }
}

/// In a batch, every hierarchy statement comes before every insert,
/// readings are inserted before metrics, and each reading's station, edge
/// and sensor are ensured before it is inserted.
pub proof fn lemma_apply_order(readings: nat, metrics: nat)
    ensures
        forall|i: int, j: int|
            0 <= i < j < apply_plan(readings, metrics).len() && is_hierarchy(
                #[trigger] apply_plan(readings, metrics)[j],
            ) ==> is_hierarchy(#[trigger] apply_plan(readings, metrics)[i]),
        forall|i: int, j: int|
            0 <= i < j < apply_plan(readings, metrics).len() && (#[trigger] apply_plan(
                readings,
                metrics,
            )[i] is InsertMetric) ==> #[trigger] apply_plan(readings, metrics)[j] is InsertMetric,
        forall|r: int|
            0 <= r < readings ==> {
                &&& #[trigger] apply_plan(readings, metrics)[3 * r] == ApplyStep::EnsureStation(
                    r as usize,
                )
                &&& apply_plan(readings, metrics)[3 * r + 1] == ApplyStep::EnsureEdge(r as usize)
                &&& apply_plan(readings, metrics)[3 * r + 2] == ApplyStep::EnsureSensor(r as usize)
                &&& apply_plan(readings, metrics)[3 * readings + r] == ApplyStep::InsertReading(
                    r as usize,
                )
            },
        forall|m: int|
            0 <= m < metrics ==> #[trigger] apply_plan(readings, metrics)[4 * readings + m]
                == ApplyStep::InsertMetric(m as usize),
        apply_plan(readings, metrics).len() == 4 * readings + metrics,
{
    let p = apply_plan(readings, metrics);
    assert forall|r: int| 0 <= r < readings implies {
        &&& #[trigger] p[3 * r] == ApplyStep::EnsureStation(r as usize)
        &&& p[3 * r + 1] == ApplyStep::EnsureEdge(r as usize)
        &&& p[3 * r + 2] == ApplyStep::EnsureSensor(r as usize)
        &&& p[3 * readings + r] == ApplyStep::InsertReading(r as usize)
    } by {
        assert((3 * r) / 3 == r && (3 * r) % 3 == 0);
        assert((3 * r + 1) / 3 == r && (3 * r + 1) % 3 == 1);
        assert((3 * r + 2) / 3 == r && (3 * r + 2) % 3 == 2);
    }
}

} // verus!
