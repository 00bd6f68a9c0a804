//! Per-reading status classification.
//!
//! Every metric of a reading is classified against a warning and an alert
//! threshold: at or above the alert threshold it is `alert`, else at or
//! above the warning threshold it is `warning`, else `normal`. A reading's
//! overall status is the most severe of its per-metric statuses.
//!
//! Readings and thresholds are binary32 values carried as bit patterns.
use vstd::prelude::*;
use crate::ieee::{f32_at_least, f32_ge};
use crate::text::str_eq;

verus! {

/// Acceleration magnitude at which a reading becomes a warning (18.0).
pub const ACCEL_WARN: u32 = 0x4190_0000;
/// Acceleration magnitude at which a reading becomes an alert (20.0).
pub const ACCEL_ALERT: u32 = 0x41a0_0000;
/// Seismic level at which a reading becomes a warning (1.0).
pub const SEIS_WARN: u32 = 0x3f80_0000;
/// Seismic level at which a reading becomes an alert (3.0).
pub const SEIS_ALERT: u32 = 0x4040_0000;
/// Relative humidity (%) at which a reading becomes a warning (50.0).
pub const HUM_WARN: u32 = 0x4248_0000;
/// Relative humidity (%) at which a reading becomes an alert (95.0).
pub const HUM_ALERT: u32 = 0x42be_0000;

/// The status of one metric, or of a whole reading.
#[derive(Clone, Copy, Debug, PartialEq, Eq, Structural)]
pub enum Status {
    Normal,
    Warning,
    Alert,
}

impl Status {
    /// How severe a status is: normal < warning < alert.
    pub open spec fn severity(self) -> nat {
        match self {
            Status::Normal => 0,
            Status::Warning => 1,
            Status::Alert => 2,
        }
    }

    /// The text under which a status is stored and reported.
    pub open spec fn text(self) -> Seq<char> {
        match self {
            Status::Normal => "normal"@,
            Status::Warning => "warning"@,
            Status::Alert => "alert"@,
        }
    }

    /// The text of this status.
    pub fn as_str(&self) -> (s: &'static str)
        ensures
            s@ == self.text(),
    {
        match self {
            Status::Normal => "normal",
            Status::Warning => "warning",
            Status::Alert => "alert",
        }
    }
}

/// The status of the given severity.
pub open spec fn status_of_severity(n: nat) -> Status {
    if n >= 2 {
        Status::Alert
    } else if n == 1 {
        Status::Warning
    } else {
        Status::Normal
    }
}

/// How severe a status text is; any text but `alert` and `warning` counts as normal.
pub open spec fn text_severity(s: Seq<char>) -> nat {
    if s == "alert"@ {
        2
    } else if s == "warning"@ {
        1
    } else {
        0
    }
}

/// The status a value gets against a warning and an alert threshold.
pub open spec fn classify_status(value: u32, warn: u32, alert: u32) -> Status {
    if f32_ge(value, alert) {
        Status::Alert
    } else if f32_ge(value, warn) {
        Status::Warning
    } else {
        Status::Normal
    }
}

/// The worst of a list of status texts: `alert` if one is `alert`, else
/// `warning` if one is `warning`, else `normal`.
pub open spec fn worst_text(statuses: Seq<Seq<char>>) -> Seq<char> {
    if exists|i: int| 0 <= i < statuses.len() && statuses[i] == "alert"@ {
        "alert"@
    } else if exists|i: int| 0 <= i < statuses.len() && statuses[i] == "warning"@ {
        "warning"@
    } else {
        "normal"@
    }
}

/// Classifies a single value against its warning/alert thresholds:
/// `>= alert` gives `alert`, else `>= warn` gives `warning`, else `normal`.
pub fn classify(value: u32, warn: u32, alert: u32) -> (s: &'static str)
    ensures
        s@ == classify_status(value, warn, alert).text(),
{
    if f32_at_least(value, alert) {
        "alert"
    } else if f32_at_least(value, warn) {
        "warning"
    } else {
        "normal"
    }
}

/// Whether some status in the list has exactly the given text.
fn any_is(statuses: &[&str], wanted: &str) -> (res: bool)
    ensures
        res == exists|i: int| 0 <= i < statuses@.len() && statuses@[i]@ == wanted@,
{
    let mut i: usize = 0;
    while i < statuses.len()
        invariant
            i <= statuses@.len(),
            forall|j: int| 0 <= j < i ==> statuses@[j]@ != wanted@,
        decreases statuses@.len() - i,
    {
        if str_eq(statuses[i], wanted) {
            return true;
        }
        i = i + 1;
    }
    false
}

/// The texts of a list of status strings.
pub open spec fn texts(statuses: Seq<&str>) -> Seq<Seq<char>> {
    statuses.map_values(|s: &str| s@)
}

/// Overall status = the worst (most severe) of the given per-metric statuses.
pub fn worst_status(statuses: &[&str]) -> (s: &'static str)
    ensures
        s@ == worst_text(texts(statuses@)),
{
    let ghost ts = texts(statuses@);
    let alert = any_is(statuses, "alert");
    proof {
        assert(alert == exists|i: int| 0 <= i < ts.len() && ts[i] == "alert"@) by {
            if alert {
                let i = choose|i: int| 0 <= i < statuses@.len() && statuses@[i]@ == "alert"@;
                assert(ts[i] == "alert"@);
            }
        }
    }
    if alert {
        return "alert";
    }
    let warning = any_is(statuses, "warning");
    proof {
        assert(warning == exists|i: int| 0 <= i < ts.len() && ts[i] == "warning"@) by {
            if warning {
                let i = choose|i: int| 0 <= i < statuses@.len() && statuses@[i]@ == "warning"@;
                assert(ts[i] == "warning"@);
            }
        }
    }
    if warning {
        "warning"
    } else {
        "normal"
    }
}

/// A reading's statuses: one per metric and the overall (worst) one.
pub struct ComputedMetric {
    /// Bit pattern of the acceleration magnitude that was classified.
    pub accel_mag: u32,
    pub accel_status: &'static str,
    pub seis_status: &'static str,
    pub hum_status: &'static str,
    pub status: &'static str,
}

/// Computes all four statuses for one reading from its acceleration
/// magnitude, seismic level and humidity (binary32 bit patterns).
pub fn compute(accel_mag: u32, seis: u32, hum: u32) -> (m: ComputedMetric)
    ensures
        m.accel_mag == accel_mag,
        m.accel_status@ == classify_status(accel_mag, ACCEL_WARN, ACCEL_ALERT).text(),
        m.seis_status@ == classify_status(seis, SEIS_WARN, SEIS_ALERT).text(),
        m.hum_status@ == classify_status(hum, HUM_WARN, HUM_ALERT).text(),
        m.status@ == worst_text(seq![m.accel_status@, m.seis_status@, m.hum_status@]),
        m.status@ == status_of_severity(
            max3(
                classify_status(accel_mag, ACCEL_WARN, ACCEL_ALERT).severity(),
                classify_status(seis, SEIS_WARN, SEIS_ALERT).severity(),
                classify_status(hum, HUM_WARN, HUM_ALERT).severity(),
            ),
        ).text(),
{
    let accel_status = classify(accel_mag, ACCEL_WARN, ACCEL_ALERT);
    let seis_status = classify(seis, SEIS_WARN, SEIS_ALERT);
    let hum_status = classify(hum, HUM_WARN, HUM_ALERT);
    let statuses = [accel_status, seis_status, hum_status];
    let status = worst_status(&statuses);
    proof {
        let ts = seq![accel_status@, seis_status@, hum_status@];
        assert(texts(statuses@) =~= ts);
        lemma_status_texts();
        lemma_worst_is_most_severe(ts);
        assert(ts[0] == accel_status@ && ts[1] == seis_status@ && ts[2] == hum_status@);
    }
    ComputedMetric { accel_mag, accel_status, seis_status, hum_status, status }
}

/// The largest of three numbers.
pub open spec fn max3(a: nat, b: nat, c: nat) -> nat {
    if a >= b && a >= c {
        a
    } else if b >= c {
        b
    } else {
        c
    }
}

/// The three status texts are distinct, and each has the severity of its status.
pub proof fn lemma_status_texts()
    ensures
        "alert"@ != "warning"@,
        "alert"@ != "normal"@,
        "warning"@ != "normal"@,
        forall|s: Status| #[trigger] text_severity(s.text()) == s.severity(),
{
    reveal_strlit("alert");
    reveal_strlit("warning");
    reveal_strlit("normal");
    assert("alert"@.len() != "warning"@.len());
    assert("alert"@.len() != "normal"@.len());
    assert("warning"@.len() != "normal"@.len());
}

/// The worst status of a list is at least as severe as each status in it;
/// it is `alert`, `warning` or `normal`; and unless it is `normal` it occurs in the list.
pub proof fn lemma_worst_is_most_severe(statuses: Seq<Seq<char>>)
    ensures
        forall|i: int|
            0 <= i < statuses.len() ==> text_severity(#[trigger] statuses[i]) <= text_severity(
                worst_text(statuses),
            ),
        worst_text(statuses) == status_of_severity(text_severity(worst_text(statuses))).text(),
        text_severity(worst_text(statuses)) > 0 ==> statuses.contains(worst_text(statuses)),
        statuses.len() == 0 ==> worst_text(statuses) == "normal"@,
{
    lemma_status_texts();
    let w = worst_text(statuses);
    if text_severity(w) > 0 {
        if w == "alert"@ {
            let i = choose|i: int| 0 <= i < statuses.len() && statuses[i] == "alert"@;
            assert(statuses[i] == w);
        } else {
            let i = choose|i: int| 0 <= i < statuses.len() && statuses[i] == "warning"@;
            assert(statuses[i] == w);
        }
    }
}

/// The worst status depends only on which statuses occur, not on their
/// order or on how often they occur.
pub proof fn lemma_worst_ignores_order(a: Seq<Seq<char>>, b: Seq<Seq<char>>)
    requires
        a.to_set() == b.to_set(),
    ensures
        worst_text(a) == worst_text(b),
{
    assert(a.contains("alert"@) == a.to_set().contains("alert"@));
    assert(b.contains("alert"@) == b.to_set().contains("alert"@));
    assert(a.contains("warning"@) == a.to_set().contains("warning"@));
    assert(b.contains("warning"@) == b.to_set().contains("warning"@));
}

/// Adding one more status to a list gives the more severe of the list's
/// worst status and the added one.
pub proof fn lemma_worst_push(statuses: Seq<Seq<char>>, s: Seq<char>)
    ensures
        text_severity(worst_text(statuses.push(s))) == if text_severity(worst_text(statuses))
            >= text_severity(s) {
            text_severity(worst_text(statuses))
        } else {
            text_severity(s)
        },
{
    lemma_status_texts();
    let p = statuses.push(s);
    assert(p[statuses.len() as int] == s);
    assert forall|i: int| 0 <= i < statuses.len() implies p[i] == statuses[i] by {}
    if exists|i: int| 0 <= i < statuses.len() && statuses[i] == "alert"@ {
        let i = choose|i: int| 0 <= i < statuses.len() && statuses[i] == "alert"@;
        assert(p[i] == "alert"@);
    }
    if exists|i: int| 0 <= i < statuses.len() && statuses[i] == "warning"@ {
        let i = choose|i: int| 0 <= i < statuses.len() && statuses[i] == "warning"@;
        assert(p[i] == "warning"@);
    }
}

/// Classification is monotone: a value at least as large never gets a
/// less severe status, whatever the thresholds.
pub proof fn lemma_classify_monotone(low: u32, high: u32, warn: u32, alert: u32)
    requires
        crate::ieee::f32_ge(high, low),
    ensures
        classify_status(low, warn, alert).severity() <= classify_status(high, warn, alert).severity(),
{
    if f32_ge(low, alert) {
        crate::ieee::lemma_f32_ge_transitive(high, low, alert);
    }
    if f32_ge(low, warn) {
        crate::ieee::lemma_f32_ge_transitive(high, low, warn);
    }
}

} // verus!
