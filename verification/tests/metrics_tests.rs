use iot_metrics::ieee::{f32_at_least, f32_key, f64_same};
use iot_metrics::metrics::{
    classify, compute, worst_status, Status, ACCEL_ALERT, ACCEL_WARN, HUM_ALERT, HUM_WARN,
    SEIS_ALERT, SEIS_WARN,
};

#[test]
fn thresholds_are_the_documented_values() {
    assert_eq!(ACCEL_WARN, 18.0f32.to_bits());
    assert_eq!(ACCEL_ALERT, 20.0f32.to_bits());
    assert_eq!(SEIS_WARN, 1.0f32.to_bits());
    assert_eq!(SEIS_ALERT, 3.0f32.to_bits());
    assert_eq!(HUM_WARN, 50.0f32.to_bits());
    assert_eq!(HUM_ALERT, 95.0f32.to_bits());
}

#[test]
fn f32_comparison_agrees_with_floats() {
    let values = [
        f32::NEG_INFINITY,
        -1.0e30,
        -3.5,
        -1.0,
        -f32::MIN_POSITIVE,
        -0.0,
        0.0,
        f32::MIN_POSITIVE,
        1.0e-40,
        0.5,
        1.0,
        17.999998,
        18.0,
        19.5,
        20.0,
        95.0,
        1.0e30,
        f32::MAX,
        f32::INFINITY,
        f32::NAN,
        -f32::NAN,
    ];
    for a in values {
        for b in values {
            assert_eq!(f32_at_least(a.to_bits(), b.to_bits()), a >= b, "{} >= {}", a, b);
        }
    }
}

#[test]
fn f32_key_orders_and_rejects_nan() {
    assert_eq!(f32_key(0.0f32.to_bits()), Some(0));
    assert_eq!(f32_key((-0.0f32).to_bits()), Some(0));
    assert_eq!(f32_key(1.0f32.to_bits()), Some(0x3f80_0000));
    assert_eq!(f32_key((-1.0f32).to_bits()), Some(-0x3f80_0000));
    assert_eq!(f32_key(f32::NAN.to_bits()), None);
    assert_eq!(f32_key(f32::INFINITY.to_bits()), Some(0x7f80_0000));
}

#[test]
fn f64_equality_agrees_with_floats() {
    let values = [0.0f64, -0.0, 1.5, -1.5, 37.7749, -122.4194, f64::INFINITY, f64::NAN];
    for a in values {
        for b in values {
            assert_eq!(f64_same(a.to_bits(), b.to_bits()), a == b, "{} == {}", a, b);
        }
    }
}

#[test]
fn classify_boundaries() {
    let c = |v: f32| classify(v.to_bits(), ACCEL_WARN, ACCEL_ALERT);
    assert_eq!(c(0.0), "normal");
    assert_eq!(c(17.9), "normal");
    assert_eq!(c(18.0), "warning");
    assert_eq!(c(19.99), "warning");
    assert_eq!(c(20.0), "alert");
    assert_eq!(c(250.0), "alert");
    assert_eq!(c(f32::INFINITY), "alert");
    assert_eq!(c(f32::NAN), "normal");
    assert_eq!(c(-30.0), "normal");
}

#[test]
fn classify_is_monotone_on_samples() {
    let sev = |s: &str| match s {
        "alert" => 2,
        "warning" => 1,
        _ => 0,
    };
    let samples = [-5.0f32, 0.0, 0.9, 1.0, 2.0, 3.0, 3.1, 50.0, 94.0, 95.0, 100.0];
    for lo in samples {
        for hi in samples {
            if hi >= lo {
                let a = classify(lo.to_bits(), SEIS_WARN, SEIS_ALERT);
                let b = classify(hi.to_bits(), SEIS_WARN, SEIS_ALERT);
                assert!(sev(a) <= sev(b));
            }
        }
    }
}

#[test]
fn worst_status_picks_most_severe() {
    assert_eq!(worst_status(&[]), "normal");
    assert_eq!(worst_status(&["normal", "normal"]), "normal");
    assert_eq!(worst_status(&["normal", "warning", "normal"]), "warning");
    assert_eq!(worst_status(&["warning", "alert", "normal"]), "alert");
    assert_eq!(worst_status(&["alert"]), "alert");
    assert_eq!(worst_status(&["unknown", "ALERT"]), "normal");
    assert_eq!(worst_status(&["alert", "warning"]), worst_status(&["warning", "alert"]));
}

#[test]
fn status_texts() {
    assert_eq!(Status::Normal.as_str(), "normal");
    assert_eq!(Status::Warning.as_str(), "warning");
    assert_eq!(Status::Alert.as_str(), "alert");
}

#[test]
fn compute_reading_statuses() {
    let m = compute(19.0f32.to_bits(), 0.5f32.to_bits(), 40.0f32.to_bits());
    assert_eq!(m.accel_mag, 19.0f32.to_bits());
    assert_eq!(m.accel_status, "warning");
    assert_eq!(m.seis_status, "normal");
    assert_eq!(m.hum_status, "normal");
    assert_eq!(m.status, "warning");

    let m = compute(9.81f32.to_bits(), 3.2f32.to_bits(), 60.0f32.to_bits());
    assert_eq!(m.accel_status, "normal");
    assert_eq!(m.seis_status, "alert");
    assert_eq!(m.hum_status, "warning");
    assert_eq!(m.status, "alert");

    let m = compute(1.0f32.to_bits(), 0.0f32.to_bits(), 10.0f32.to_bits());
    assert_eq!(m.status, "normal");
}
