//! The report of a run.

use etherwhere::anchors::{builtin_anchors, Anchor};
use etherwhere::calc::{Arith, Calc};
use etherwhere::double::Double;
use etherwhere::probe::{
    LocalRttFloor, Measurement, PingStats, ProbeMethod, TraceHop, TraceSummary,
};
use etherwhere::report::{describe_hop, report, Run};
use etherwhere::solver::{Estimate, EvaluatedConstraint, EvaluatedHint};

fn double(value: f64) -> Double {
    Double { bits: value.to_bits() }
}

fn number(value: Double) -> f64 {
    f64::from_bits(value.bits)
}

fn step(step: Calc) -> Double {
    double(match step {
        Calc::Count(n) => n as f64,
        Calc::Ratio(over, under) => f64::from(over) / f64::from(under),
        Calc::Add(a, b) => number(a) + number(b),
        Calc::Sub(a, b) => number(a) - number(b),
        Calc::Mul(a, b) => number(a) * number(b),
        Calc::Div(a, b) => number(a) / number(b),
        Calc::Remainder(a, b) => number(a).rem_euclid(number(b)),
        Calc::Square(a) => number(a).powi(2),
        Calc::Sqrt(a) => number(a).sqrt(),
        Calc::Exp(a) => number(a).exp(),
        Calc::Round(a) => number(a).round(),
        Calc::Radians(a) => number(a).to_radians(),
        Calc::Degrees(a) => number(a).to_degrees(),
        Calc::Sin(a) => number(a).sin(),
        Calc::Cos(a) => number(a).cos(),
        Calc::Atan2(y, x) => number(y).atan2(number(x)),
    })
}

fn show(value: Double, decimals: u8) -> String {
    format!("{:.*}", usize::from(decimals), number(value))
}

fn anchor(id: &str) -> Anchor {
    builtin_anchors()
        .into_iter()
        .find(|anchor| anchor.id == id)
        .expect("anchor should exist")
}

fn measured(anchor: Anchor, ping: Option<PingStats>) -> Measurement {
    Measurement {
        anchor,
        resolved_ip: None,
        ping,
        trace: None,
        cache_age_days: None,
        cache_uncertainty_ms: double(0.0),
        notes: Vec::new(),
    }
}

fn constraint(id: &str, bound: f64, distance: f64) -> EvaluatedConstraint {
    EvaluatedConstraint {
        anchor: anchor(id),
        min_rtt_ms: double(bound / 102.0),
        upper_bound_km: double(bound),
        distance_km: double(distance),
        overflow_km: double((distance - bound).max(0.0)),
    }
}

fn estimate() -> Estimate {
    Estimate {
        latitude: double(50.1109),
        longitude: double(8.6821),
        score: double(12.34567),
        mode_latitude: double(50.1109),
        mode_longitude: double(8.6821),
        mode_score: double(511.43),
        fitted_overhead_ms: double(1.234),
        fitted_km_per_ms: double(99.94),
        weighted_rmse_ms: double(0.456),
        confidence_radius_km: double(187.16),
        posterior_radius_km: double(187.16),
        stability_radius_km: double(10.0),
        constraints: vec![
            constraint("eu-west-1", 1200.0, 1082.0),
            constraint("eu-central-1", 102.0, 120.0),
        ],
        hints: vec![],
        dominant_corridor_hint: None,
    }
}

fn lines(measurements: &Vec<Measurement>, estimate: Option<Estimate>, floor: Option<f64>) -> Vec<String> {
    let local_rtt_floor = floor.map(|min_ms| LocalRttFloor {
        target: "192.0.2.1".to_string(),
        source: "default gateway".to_string(),
        min_ms: double(min_ms),
    });
    report(
        &Run {
            measurements,
            estimate: &estimate,
            km_per_ms: double(102.0),
            local_rtt_floor: &local_rtt_floor,
            shared_rtt_floor_ms: double(0.25),
            tcp_bias_ms: double(if floor == Some(1.0) { 1.5 } else { 0.0 }),
            cached_anchor_count: if floor == Some(1.0) { 7 } else { 0 },
        },
        &Arith { step },
        &show,
    )
}

#[test]
fn report_without_estimate_says_so() {
    let silent = anchor("eu-central-1");
    assert_eq!(
        lines(&vec![measured(silent, None)], None, None),
        vec![
            "Model: RTT upper bound using 102.0 km/ms".to_string(),
            "Limits: anycast, asymmetric routing, and metro-level anchor placement dominate error"
                .to_string(),
            String::new(),
            "Estimate: unavailable".to_string(),
            "Reason: no anchors returned usable RTT samples".to_string(),
            String::new(),
            "Measurements:".to_string(),
            format!("  Frankfurt (eu-central-1) [{}] no usable ping sample", silent.host),
        ]
    );
}

#[test]
fn calibration_is_reported() {
    let report = lines(&vec![], None, Some(1.0));
    assert_eq!(
        report[3..9],
        [
            "Calibration:",
            "  local RTT floor: 1.00 ms via 192.0.2.1 (default gateway)",
            "  shared floor used in bounds: 0.25 ms",
            "  TCP handshake bias correction: 1.50 ms",
            "  historical anchor floors loaded: 7",
            "",
        ]
    );
    let report = lines(&vec![], None, Some(2.0));
    assert_eq!(report[3..7], [
        "Calibration:",
        "  local RTT floor: 2.00 ms via 192.0.2.1 (default gateway)",
        "  shared floor used in bounds: 0.25 ms",
        "",
    ]);
}

#[test]
fn estimate_is_reported() {
    let report = lines(&vec![], Some(estimate()), None);
    assert_eq!(
        report[3..],
        [
            "Estimate:",
            "  latitude:  50.1109",
            "  longitude: 8.6821",
            "  anchors used: 2",
            "  nearest bundled metro: Frankfurt (eu-central-1) (0 km)",
            "  tightest bound: Frankfurt (eu-central-1) <= 102 km",
            "  solver score: 12.346",
            "  fitted base overhead: 1.23 ms",
            "  fitted effective speed: 99.9 km/ms",
            "  weighted RTT residual: 0.46 ms",
            "  confidence radius: 187.2 km",
            "  max constraint overflow: 18.0 km",
            "  warning: geometry is underdetermined with fewer than 3 anchors",
            "",
            "Measurements:",
            "",
            "Anchor fit:",
            "  Frankfurt (eu-central-1) rtt=1.00ms bound=102 km distance=120 km outside by 18 km",
            &format!(
                "  {} rtt=11.76ms bound=1200 km distance=1082 km inside by 118 km",
                anchor("eu-west-1").label()
            ),
            "",
            "Closest bundled city-center: Frankfurt (eu-central-1) at 0 km",
        ]
    );
}

#[test]
fn nearest_metro_need_not_have_answered() {
    let mut found = estimate();
    let graz = anchor("at-graz-1");
    found.latitude = double(f64::from(graz.latitude_e4) / 10_000.0);
    found.longitude = double(f64::from(graz.longitude_e4) / 10_000.0);
    let report = lines(&vec![], Some(found), None);
    assert!(graz.host.is_empty());
    assert!(report.contains(&"  nearest bundled metro: Graz (at-graz-1) (0 km)".to_string()));
    assert_eq!(report.last().expect("line"), "Closest bundled city-center: Graz (at-graz-1) at 0 km");

    let mut found = estimate();
    found.latitude = double(47.8415);
    found.longitude = double(13.5302);
    found.constraints = Vec::new();
    let report = lines(&vec![], Some(found), None);
    let nearest: Vec<&String> =
        report.iter().filter(|line| line.starts_with("  nearest bundled metro: ")).collect();
    assert_eq!(nearest, vec!["  nearest bundled metro: Munich (munich-de-cix) (149 km)"]);
    assert!(!report.iter().any(|line| line.starts_with("  tightest bound: ")));
}

#[test]
fn mode_and_hub_are_reported() {
    let mut found = estimate();
    found.mode_latitude = double(47.5994);
    found.mode_longitude = double(12.9912);
    found.dominant_corridor_hint = Some(EvaluatedHint {
        anchor: anchor("at-vienna-1"),
        weight: double(6.0),
        source: "trace".to_string(),
        distance_km: double(215.4),
    });
    found.constraints.push(constraint("us-east-1", 9000.0, 6500.0));
    let report = lines(&vec![], Some(found), None);
    assert_eq!(report[6], "  posterior mode: 47.5994, 12.9912 (score 511.430)");
    assert_eq!(report[14], "  confidence radius: 187.2 km");
    assert_eq!(report[15], "  dominant corridor hub: Vienna (at-vienna-1) (215 km)");
    assert_eq!(report[16], "  max constraint overflow: 18.0 km");
    assert_eq!(report[17], "");
}

#[test]
fn measurements_are_reported() {
    let mut measurement = measured(
        anchor("eu-central-1"),
        Some(PingStats {
            method: ProbeMethod::Tcp { port: 443 },
            transmitted: 1,
            received: 1,
            min_ms: double(1.5),
            avg_ms: double(2.0),
            max_ms: double(2.5),
            mdev_ms: double(0.125),
        }),
    );
    measurement.resolved_ip = Some("192.0.2.7".to_string());
    measurement.notes = vec!["first".to_string(), "second".to_string()];
    let hop = |hop: u8, address: Option<&str>, hostname: Option<&str>, note: Option<&str>| TraceHop {
        hop,
        address: address.map(|text| text.to_string()),
        hostname: hostname.map(|text| text.to_string()),
        rtt_ms: if hop == 1 { Some(double(0.5)) } else { None },
        note: note.map(|text| text.to_string()),
    };
    measurement.trace = Some(TraceSummary {
        hops: vec![
            hop(1, Some("192.0.2.1"), Some("router"), Some("asymm 5")),
            hop(2, Some("192.0.2.2"), None, None),
            hop(3, None, None, Some("no reply")),
        ],
    });
    let host = measurement.anchor.host;
    let report = lines(&vec![measurement], None, None);
    assert_eq!(
        report[7..],
        [
            format!(
                "  Frankfurt (eu-central-1) [{}] tcp/443 192.0.2.7 min=1.50ms avg=2.00ms max=2.50ms mdev=0.12ms <= 153 km",
                host
            ),
            "    trace: 1:router [192.0.2.1] 0.50ms asymm 5 | 2:192.0.2.2 ? | 3:* ?".to_string(),
            "    note: first".to_string(),
            "    note: second".to_string(),
        ]
    );
}

#[test]
fn named_hop_without_address_has_no_brackets() {
    let hop = TraceHop {
        hop: 9,
        address: None,
        hostname: Some("name".to_string()),
        rtt_ms: None,
        note: Some("odd".to_string()),
    };
    assert_eq!(describe_hop(&hop, &show), "9:name ? odd");
}

#[test]
fn unresolved_measurement_is_reported() {
    let measurement = measured(
        anchor("eu-central-1"),
        Some(PingStats {
            method: ProbeMethod::Icmp,
            transmitted: 1,
            received: 1,
            min_ms: double(1.0),
            avg_ms: double(1.0),
            max_ms: double(1.0),
            mdev_ms: double(0.0),
        }),
    );
    let report = lines(&vec![measurement], None, None);
    assert!(report[7].contains("] icmp unresolved min=1.00ms"));
}
