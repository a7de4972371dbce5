//! Estimates from made-up measurements.

use etherwhere::anchors::{builtin_anchors, Anchor};
use etherwhere::cache::ProbeCache;
use etherwhere::calc::{Arith, Calc};
use etherwhere::calibrate::apply_cached_anchor_floors;
use etherwhere::double::Double;
use etherwhere::hints::LocationHint;
use etherwhere::probe::{Measurement, PingStats, ProbeMethod};
use etherwhere::solver::{Constraint, Estimate};

fn double(value: f64) -> Double {
    Double { bits: value.to_bits() }
}

fn number(value: Double) -> f64 {
    f64::from_bits(value.bits)
}

fn step(step: Calc) -> Double {
    double(match step {
        Calc::Count(n) => n as f64,
        Calc::Ratio(over, under) => f64::from(over) / f64::from(under),
        Calc::Add(a, b) => number(a) + number(b),
        Calc::Sub(a, b) => number(a) - number(b),
        Calc::Mul(a, b) => number(a) * number(b),
        Calc::Div(a, b) => number(a) / number(b),
        Calc::Remainder(a, b) => number(a).rem_euclid(number(b)),
        Calc::Square(a) => number(a).powi(2),
        Calc::Sqrt(a) => number(a).sqrt(),
        Calc::Exp(a) => number(a).exp(),
        Calc::Round(a) => number(a).round(),
        Calc::Radians(a) => number(a).to_radians(),
        Calc::Degrees(a) => number(a).to_degrees(),
        Calc::Sin(a) => number(a).sin(),
        Calc::Cos(a) => number(a).cos(),
        Calc::Atan2(y, x) => number(y).atan2(number(x)),
    })
}

fn haversine_km(lat1: f64, lon1: f64, lat2: f64, lon2: f64) -> f64 {
    number(etherwhere::solver::haversine_km(
        double(lat1),
        double(lon1),
        double(lat2),
        double(lon2),
        &Arith { step },
    ))
}

fn constraints_from_measurements(measurements: &Vec<Measurement>, km_per_ms: f64) -> Vec<Constraint> {
    etherwhere::solver::constraints_from_measurements(
        measurements,
        double(km_per_ms),
        &Arith { step },
    )
}

fn solve(
    constraints: &Vec<Constraint>,
    hints: &Vec<LocationHint>,
    shared_rtt_floor_ms: f64,
) -> Option<Estimate> {
    etherwhere::solver::solve(constraints, hints, double(shared_rtt_floor_ms), &Arith { step })
}

fn anchor(id: &str) -> Anchor {
    builtin_anchors()
        .into_iter()
        .find(|anchor| anchor.id == id)
        .expect("anchor should exist")
}

fn latitude(anchor: &Anchor) -> f64 {
    f64::from(anchor.latitude_e4) / 10000.0
}

fn longitude(anchor: &Anchor) -> f64 {
    f64::from(anchor.longitude_e4) / 10000.0
}

fn constraint(anchor: Anchor, upper_bound_km: f64, min_rtt_ms: f64) -> Constraint {
    Constraint {
        anchor,
        upper_bound_km: double(upper_bound_km),
        min_rtt_ms: double(min_rtt_ms),
        jitter_ms: double(0.0),
        quality_weight: double(1.0),
    }
}

fn measurement(
    anchor_id: &str,
    min_ms: f64,
    avg_ms: f64,
    max_ms: f64,
    mdev_ms: f64,
) -> Measurement {
    Measurement {
        anchor: anchor(anchor_id),
        resolved_ip: None,
        ping: Some(PingStats {
            method: ProbeMethod::Icmp,
            transmitted: 1,
            received: 1,
            min_ms: double(min_ms),
            avg_ms: double(avg_ms),
            max_ms: double(max_ms),
            mdev_ms: double(mdev_ms),
        }),
        trace: None,
        cache_age_days: None,
        cache_uncertainty_ms: double(0.0),
        notes: Vec::new(),
    }
}

#[test]
fn haversine_matches_expected_scale() {
    let paris_to_london = haversine_km(48.8566, 2.3522, 51.5072, -0.1276);
    assert!((paris_to_london - 343.0).abs() < 10.0);
}

#[test]
fn solver_recovers_frankfurt_from_synthetic_constraints() {
    let target_lat = 50.1109;
    let target_lon = 8.6821;

    let anchors = [
        builtin_anchors()[0],
        builtin_anchors()[1],
        builtin_anchors()[2],
        builtin_anchors()[4],
        builtin_anchors()[9],
    ];

    let constraints = anchors
        .iter()
        .map(|anchor| {
            let distance_km =
                haversine_km(target_lat, target_lon, latitude(anchor), longitude(anchor));
            constraint(*anchor, distance_km + 150.0, (distance_km + 150.0) / 102.0)
        })
        .collect::<Vec<_>>();

    let estimate = solve(&constraints, &vec![], 0.0).expect("estimate should exist");
    let error_km = haversine_km(
        number(estimate.latitude),
        number(estimate.longitude),
        target_lat,
        target_lon,
    );

    assert!(error_km < 250.0, "error_km={error_km}");
}

#[test]
fn hints_can_break_ties_toward_the_right_metro() {
    let constraints = vec![
        constraint(builtin_anchors()[0], 400.0, 4.0),
        constraint(builtin_anchors()[1], 400.0, 4.0),
    ];
    let hints = vec![LocationHint {
        anchor: builtin_anchors()[0],
        weight: double(8.0),
        source: "trace hop".to_string(),
        supporting_anchors: Vec::new(),
    }];

    let estimate = solve(&constraints, &hints, 0.0).expect("estimate should exist");
    let frankfurt_distance = haversine_km(
        number(estimate.mode_latitude),
        number(estimate.mode_longitude),
        latitude(&builtin_anchors()[0]),
        longitude(&builtin_anchors()[0]),
    );
    let zurich_distance = haversine_km(
        number(estimate.mode_latitude),
        number(estimate.mode_longitude),
        latitude(&builtin_anchors()[1]),
        longitude(&builtin_anchors()[1]),
    );

    assert!(frankfurt_distance < zurich_distance);
}

#[test]
fn dominant_anchor_prior_pulls_estimate_toward_local_metro() {
    let constraints = vec![
        constraint(builtin_anchors()[0], 53.0, 0.52),
        constraint(builtin_anchors()[1], 689.0, 6.75),
        constraint(builtin_anchors()[2], 1017.0, 9.97),
        constraint(builtin_anchors()[5], 1379.0, 13.52),
    ];

    let raw_estimate = solve(&constraints, &vec![], 0.0).expect("raw estimate should exist");
    let guided_estimate = solve(&constraints, &vec![], 0.26).expect("guided estimate should exist");

    let raw_distance = haversine_km(
        number(raw_estimate.mode_latitude),
        number(raw_estimate.mode_longitude),
        latitude(&builtin_anchors()[0]),
        longitude(&builtin_anchors()[0]),
    );
    let guided_distance = haversine_km(
        number(guided_estimate.mode_latitude),
        number(guided_estimate.mode_longitude),
        latitude(&builtin_anchors()[0]),
        longitude(&builtin_anchors()[0]),
    );

    assert!(guided_distance < raw_distance);
}

#[test]
fn regional_cluster_prior_improves_alpine_geometry() {
    let salzburg = (47.8095, 13.0550);
    let constraints = vec![
        constraint(anchor("eu-central-1"), 3372.0, 33.06),
        constraint(anchor("eu-central-2"), 3178.0, 31.15),
        constraint(anchor("eu-south-1"), 2920.0, 28.63),
        constraint(anchor("eu-south-2"), 5620.0, 55.10),
        constraint(anchor("eu-west-1"), 5681.0, 55.70),
        constraint(anchor("eu-west-2"), 4782.0, 46.88),
        constraint(anchor("eu-west-3"), 3693.0, 36.21),
        constraint(anchor("eu-north-1"), 5069.0, 49.70),
        constraint(anchor("il-central-1"), 8501.0, 83.35),
        constraint(anchor("us-east-1"), 11878.0, 116.45),
        constraint(anchor("ca-central-1"), 12150.0, 119.12),
        constraint(anchor("me-central-1"), 14203.0, 139.25),
        constraint(anchor("ap-south-1"), 15288.0, 149.88),
    ];

    let estimate = solve(&constraints, &vec![], 2.81).expect("estimate should exist");
    let error_km = haversine_km(
        number(estimate.latitude),
        number(estimate.longitude),
        salzburg.0,
        salzburg.1,
    );

    assert!(error_km < 250.0, "error_km={error_km}");
}

#[test]
fn pairwise_ordering_prevents_slower_prague_from_beating_vienna() {
    let constraints = vec![
        constraint(anchor("at-vienna-interxion-1"), 1696.0, 16.63),
        constraint(anchor("at-vienna-1"), 1772.0, 17.38),
        Constraint {
            anchor: anchor("at-graz-1"),
            upper_bound_km: double(2074.0),
            min_rtt_ms: double(20.33),
            jitter_ms: double(2.99),
            quality_weight: double(0.55),
        },
        constraint(anchor("munich-de-cix"), 2076.0, 20.36),
        constraint(anchor("hr-zagreb-1"), 2546.0, 24.96),
        constraint(anchor("si-ljubljana-1"), 2595.0, 25.44),
        Constraint {
            anchor: anchor("cz-prague-1"),
            upper_bound_km: double(3508.0),
            min_rtt_ms: double(34.40),
            jitter_ms: double(4.91),
            quality_weight: double(0.45),
        },
        constraint(anchor("hu-budapest-1"), 3979.0, 39.01),
    ];

    let estimate = solve(&constraints, &vec![], 1.72).expect("estimate should exist");
    let prague_distance = haversine_km(
        number(estimate.latitude),
        number(estimate.longitude),
        latitude(&anchor("cz-prague-1")),
        longitude(&anchor("cz-prague-1")),
    );
    let vienna_distance = haversine_km(
        number(estimate.latitude),
        number(estimate.longitude),
        latitude(&anchor("at-vienna-1")),
        longitude(&anchor("at-vienna-1")),
    );

    assert!(vienna_distance < prague_distance);
}

#[test]
fn salzburg_style_trace_hints_pull_solution_out_of_prague() {
    let salzburg = (47.8095, 13.0550);
    let measurements = vec![
        measurement("at-vienna-interxion-1", 16.63, 24.11, 31.13, 5.93),
        measurement("at-vienna-1", 17.38, 17.38, 17.38, 0.0),
        measurement("at-graz-1", 20.33, 24.41, 27.41, 2.99),
        measurement("munich-de-cix", 20.36, 20.36, 20.36, 0.0),
        measurement("eu-central-1", 24.87, 24.87, 24.87, 0.0),
        measurement("hr-zagreb-1", 24.96, 24.96, 24.96, 0.0),
        measurement("si-ljubljana-1", 25.44, 25.44, 25.44, 0.0),
        measurement("eu-south-1", 27.19, 33.03, 43.03, 7.10),
        measurement("eu-central-2", 30.30, 30.30, 30.30, 0.0),
        measurement("cz-prague-1", 34.40, 41.33, 45.15, 4.91),
        measurement("eu-west-3", 36.21, 36.21, 36.21, 0.0),
        measurement("hu-budapest-1", 39.01, 39.01, 39.01, 0.0),
        measurement("eu-west-2", 39.85, 39.85, 39.85, 0.0),
    ];
    let constraints = constraints_from_measurements(&measurements, 102.0);
    let hints = vec![LocationHint {
        anchor: anchor("at-vienna-1"),
        weight: double(8.0),
        source: "trace hop hostname".to_string(),
        supporting_anchors: vec![anchor("at-vienna-1"), anchor("at-graz-1")],
    }];

    let estimate = solve(&constraints, &hints, 1.72).expect("estimate should exist");
    let error_km = haversine_km(
        number(estimate.latitude),
        number(estimate.longitude),
        salzburg.0,
        salzburg.1,
    );

    assert!(
        error_km < 100.0,
        "estimate=({:.4}, {:.4}) error_km={error_km}",
        number(estimate.latitude),
        number(estimate.longitude),
    );
}

#[test]
fn high_overhead_austria_replay_reports_broad_alpine_posterior() {
    let salzburg = (47.8095, 13.0550);
    let measurements = vec![
        measurement("eu-central-1", 27.78, 27.78, 27.78, 0.0),
        measurement("eu-central-2", 32.10, 38.52, 44.31, 5.01),
        measurement("eu-south-1", 30.18, 30.18, 30.18, 0.0),
        measurement("eu-south-2", 62.13, 62.13, 62.13, 0.0),
        measurement("eu-west-1", 68.43, 68.43, 68.43, 0.0),
        measurement("eu-west-2", 44.62, 44.62, 44.62, 0.0),
        measurement("eu-west-3", 39.20, 39.20, 39.20, 0.0),
        measurement("eu-north-1", 51.04, 51.04, 51.04, 0.0),
        measurement("us-east-1", 107.04, 107.04, 107.04, 0.0),
        measurement("ca-central-1", 115.17, 115.17, 115.17, 0.0),
        measurement("us-west-2", 178.38, 178.38, 178.38, 0.0),
        measurement("ap-south-1", 155.27, 155.27, 155.27, 0.0),
        measurement("ap-south-2", 163.07, 163.07, 163.07, 0.0),
        measurement("ap-southeast-1", 267.56, 267.56, 267.56, 0.0),
        measurement("ap-southeast-2", 299.67, 299.67, 299.67, 0.0),
        measurement("ap-east-1", 280.74, 280.74, 280.74, 0.0),
        measurement("ap-northeast-1", 263.57, 263.57, 263.57, 0.0),
        measurement("ap-northeast-2", 277.00, 277.00, 277.00, 0.0),
        measurement("il-central-1", 89.09, 89.09, 89.09, 0.0),
        measurement("me-central-1", 142.06, 142.06, 142.06, 0.0),
        measurement("sa-east-1", 226.18, 226.18, 226.18, 0.0),
        measurement("mx-central-1", 162.79, 162.79, 162.79, 0.0),
        measurement("af-south-1", 227.78, 227.78, 227.78, 0.0),
        measurement("munich-de-cix", 41.93, 41.93, 41.93, 0.0),
        measurement("at-vienna-1", 16.66, 17.71, 18.89, 0.91),
        measurement("at-vienna-interxion-1", 15.85, 20.86, 24.07, 3.59),
        measurement("at-graz-1", 22.55, 22.55, 22.55, 0.0),
        measurement("cz-prague-1", 34.38, 34.38, 34.38, 0.0),
        measurement("hu-budapest-1", 38.89, 38.89, 38.89, 0.0),
        measurement("si-ljubljana-1", 23.71, 25.82, 28.19, 1.84),
        measurement("hr-zagreb-1", 24.70, 26.97, 30.37, 2.45),
    ];
    let constraints = constraints_from_measurements(&measurements, 102.0);
    let hints = vec![LocationHint {
        anchor: anchor("at-vienna-1"),
        weight: double(6.0),
        source: "Vienna trace corridor".to_string(),
        supporting_anchors: vec![anchor("at-vienna-1"), anchor("at-graz-1")],
    }];

    let estimate = solve(&constraints, &hints, 2.74).expect("estimate should exist");
    let error_km = haversine_km(
        number(estimate.latitude),
        number(estimate.longitude),
        salzburg.0,
        salzburg.1,
    );

    assert!(error_km < 170.0, "error_km={error_km}");
    assert!(number(estimate.posterior_radius_km) > 100.0);
    assert!(number(estimate.confidence_radius_km) > 200.0);
}

#[test]
fn no_constraints_no_estimate() {
    assert!(solve(&vec![], &vec![], 0.0).is_none());
}

#[test]
fn constraints_come_from_times() {
    let mut list = vec![
        measurement("eu-central-1", 2.0, 3.0, 4.0, 0.25),
        measurement("us-east-1", 10.0, 10.0, 10.0, 1.5),
        measurement("eu-west-1", 10.0, 10.0, 10.0, 0.0),
    ];
    list[1].ping = list[1].ping.map(|ping| PingStats {
        method: ProbeMethod::Tcp { port: 443 },
        ..ping
    });
    list[1].cache_uncertainty_ms = double(1.5);
    list[2].ping = None;
    let constraints = constraints_from_measurements(&list, 100.0);
    assert_eq!(constraints.len(), 2);
    assert_eq!(constraints[0].anchor.id, "eu-central-1");
    assert_eq!(number(constraints[0].upper_bound_km), 200.0);
    assert_eq!(number(constraints[0].min_rtt_ms), 2.0);
    assert_eq!(number(constraints[0].jitter_ms), 0.75);
    assert_eq!(number(constraints[0].quality_weight), 0.8);
    assert_eq!(number(constraints[1].jitter_ms), 3.0);
    assert_eq!(number(constraints[1].quality_weight), 1.0 / 2.25);

    let noisy = constraints_from_measurements(&vec![measurement("us-east-1", 1.0, 99.0, 99.0, 0.0)], 1.0);
    assert_eq!(number(noisy[0].quality_weight), 0.12);
}

#[test]
fn older_floor_counts_less() {
    let mut cache = ProbeCache::default();
    cache.update_anchor("eu-central-1", ProbeMethod::Icmp, double(2.0));
    let constraint_at = |days: f64| {
        let mut list = vec![measurement("eu-central-1", 5.0, 5.0, 5.0, 0.0)];
        apply_cached_anchor_floors(&mut list, &cache, Some(double(days)), &|value, decimals| {
            format!("{:.*}", usize::from(decimals), number(value))
        });
        constraints_from_measurements(&list, 100.0)[0]
    };
    let (today, week) = (constraint_at(0.0), constraint_at(6.0));
    assert_eq!(number(today.min_rtt_ms), 2.0);
    assert_eq!(number(today.jitter_ms), 0.0);
    assert_eq!(number(today.quality_weight), 1.0);
    assert_eq!(week.min_rtt_ms, today.min_rtt_ms);
    assert_eq!(week.upper_bound_km, today.upper_bound_km);
    assert_eq!(number(week.jitter_ms), 6.0);
    assert_eq!(number(week.quality_weight), 1.0 / 3.0);
}

#[test]
fn estimate_says_how_each_constraint_is_met() {
    let constraints = vec![
        constraint(anchor("eu-central-1"), 102.0, 1.0),
        constraint(anchor("eu-west-3"), 900.0, 9.0),
        constraint(anchor("us-east-1"), 9000.0, 90.0),
    ];
    let hints = vec![LocationHint {
        anchor: anchor("at-vienna-1"),
        weight: double(2.0),
        source: "route".to_string(),
        supporting_anchors: vec![anchor("us-east-1")],
    }];
    let estimate = solve(&constraints, &hints, 0.0).expect("estimate should exist");
    assert_eq!(estimate.constraints.len(), 3);
    for (given, met) in constraints.iter().zip(estimate.constraints.iter()) {
        assert_eq!(given.anchor.id, met.anchor.id);
        let distance = haversine_km(
            number(estimate.latitude),
            number(estimate.longitude),
            latitude(&given.anchor),
            longitude(&given.anchor),
        );
        assert_eq!(number(met.distance_km), distance);
        assert_eq!(
            number(met.overflow_km),
            (distance - number(given.upper_bound_km)).max(0.0)
        );
    }
    let hub = estimate.dominant_corridor_hint.expect("hub should exist");
    assert_eq!(hub.anchor.id, "at-vienna-1");
    assert_eq!(hub.source, "route");
    assert_eq!(estimate.hints.len(), 1);
    assert!(
        number(estimate.confidence_radius_km)
            >= number(estimate.stability_radius_km).max(number(estimate.posterior_radius_km))
    );
}

#[test]
fn unsupported_hint_is_no_hub() {
    let constraints = vec![constraint(anchor("eu-central-1"), 102.0, 1.0)];
    let hints = vec![LocationHint {
        anchor: anchor("at-vienna-1"),
        weight: double(2.0),
        source: "name".to_string(),
        supporting_anchors: vec![],
    }];
    let estimate = solve(&constraints, &hints, 0.0).expect("estimate should exist");
    assert!(estimate.dominant_corridor_hint.is_none());
    assert_eq!(number(estimate.stability_radius_km), 0.0);
}

#[test]
fn subsets_are_prefixes_and_gaps() {
    let list = |n: usize| -> Vec<Constraint> {
        (0..n)
            .map(|i| constraint(builtin_anchors()[i], 100.0, 1.0 + i as f64))
            .collect()
    };
    let sizes = |n: usize| -> Vec<usize> {
        etherwhere::posterior::stability_subsets(&list(n)).iter().map(|subset| subset.len()).collect()
    };
    assert_eq!(sizes(3), Vec::<usize>::new());
    assert_eq!(sizes(4), vec![4, 3, 3, 3, 3]);
    assert_eq!(sizes(9), vec![4, 5, 6, 8, 8, 8, 8, 8]);
    let subsets = etherwhere::posterior::stability_subsets(&list(4));
    assert_eq!(subsets[2][0].anchor.id, builtin_anchors()[0].id);
    assert_eq!(subsets[2][1].anchor.id, builtin_anchors()[2].id);
}

#[test]
fn longitudes_and_latitudes_are_normalized() {
    let arith = Arith { step };
    let wrapped = |longitude: f64| {
        number(etherwhere::geometry::normalize_longitude(double(longitude), &arith))
    };
    assert_eq!(wrapped(190.0), -170.0);
    assert_eq!(wrapped(-190.0), 170.0);
    assert_eq!(wrapped(180.0), 180.0);
    assert_eq!(wrapped(-180.0), 180.0);
    assert_eq!(wrapped(12.5), 12.5);
    let clamped = |latitude: f64| {
        number(etherwhere::geometry::clamp_latitude(double(latitude), &arith))
    };
    assert_eq!(clamped(95.0), 89.9);
    assert_eq!(clamped(-95.0), -89.9);
    assert_eq!(clamped(47.5), 47.5);
}

#[test]
fn line_is_fitted_to_the_fastest() {
    let arith = Arith { step };
    let place = etherwhere::geometry::anchor_place(&anchor("eu-central-1"), &arith);
    let constraints: Vec<Constraint> = ["eu-central-1", "eu-west-3", "eu-west-1", "us-east-1"]
        .iter()
        .map(|id| {
            let km = number(etherwhere::geometry::anchor_distance_km(place, &anchor(id), &arith));
            constraint(anchor(id), 1000.0, 3.0 + km / 50.0)
        })
        .collect();
    let fit = etherwhere::fit::fit_latency_model(place, &constraints, &arith);
    assert!((number(fit.overhead_ms) - 3.0).abs() < 1e-6);
    assert!((number(fit.ms_per_km) - 0.02).abs() < 1e-9);
    assert!(number(fit.weighted_rmse_ms) < 1e-6);

    let fit = etherwhere::fit::fit_latency_model(place, &vec![], &arith);
    assert_eq!(number(fit.overhead_ms), 0.0);
    assert_eq!(number(fit.ms_per_km), 1.0 / 102.0);
    assert_eq!(number(fit.weighted_rmse_ms), 0.0);
}

#[test]
fn quantile_is_where_the_weight_is_reached() {
    let arith = Arith { step };
    let pairs: Vec<(Double, Double)> = [(1.0, 1.0), (2.0, 1.0), (3.0, 1.0), (4.0, 1.0)]
        .iter()
        .map(|(value, weight)| (double(*value), double(*weight)))
        .collect();
    let quantile = |share: f64| {
        number(etherwhere::summary::weighted_quantile_distance(&pairs, double(share), &arith))
    };
    assert_eq!(quantile(0.75), 3.0);
    assert_eq!(quantile(0.5), 2.0);
    assert_eq!(quantile(0.0), 1.0);
    assert_eq!(quantile(2.0), 4.0);
    assert_eq!(
        number(etherwhere::summary::weighted_quantile_distance(&vec![], double(0.75), &arith)),
        0.0
    );
}

#[test]
fn slower_neighbours_form_a_cluster() {
    let arith = Arith { step };
    let ranked = vec![
        constraint(anchor("eu-central-1"), 3000.0, 30.0),
        constraint(anchor("eu-central-2"), 3100.0, 31.0),
        constraint(anchor("eu-south-1"), 3200.0, 32.0),
        constraint(anchor("us-east-1"), 9000.0, 90.0),
    ];
    let cluster = etherwhere::cluster::regional_cluster(&ranked, &arith).expect("cluster");
    assert_eq!(cluster.members.len(), 3);
    assert_eq!(cluster.fastest.anchor.id, "eu-central-1");
    assert!(number(cluster.span_km) < 2200.0);

    let mut local = ranked.clone();
    local[0].min_rtt_ms = double(5.0);
    local[1].min_rtt_ms = double(9.0);
    assert!(etherwhere::cluster::regional_cluster(&local, &arith).is_none());
    assert!(etherwhere::cluster::regional_cluster(&ranked[..2].to_vec(), &arith).is_none());
}

#[test]
fn dominant_anchor_score_follows_its_formula() {
    let arith = Arith { step };
    let fastest = anchor("eu-central-1");
    let ranked = vec![
        constraint(fastest, 204.0, 2.0),
        constraint(anchor("eu-west-1"), 1224.0, 12.0),
    ];
    let place = etherwhere::geometry::anchor_place(&anchor("eu-west-3"), &arith);
    let distance = number(etherwhere::geometry::anchor_distance_km(place, &fastest, &arith));
    // The soft radius is (2 - 1) * 102 * 0.05 and the strength (6 - 3) / 3 + 1.
    let soft = 5.1_f64;
    let expected =
        60.0 * 2.0 * ((distance - soft) / 10.0).powi(2) + 8.0 * 2.0 * (distance / soft).powi(2);
    let score = |floor: f64| {
        number(etherwhere::priors::dominant_local_anchor_score(
            place,
            &ranked,
            double(floor),
            &arith,
        ))
    };
    assert!((score(1.0) - expected).abs() < 1e-6 * expected);
    assert_eq!(score(0.0), 0.0);
}

#[test]
fn distance_is_symmetric_and_bounded() {
    let places = [(0.0, 179.0), (0.0, -179.0), (48.2082, 16.3738), (-33.9, 151.2), (90.0, 0.0)];
    for (lat1, lon1) in places {
        assert_eq!(haversine_km(lat1, lon1, lat1, lon1), 0.0);
        for (lat2, lon2) in places {
            let there = haversine_km(lat1, lon1, lat2, lon2);
            assert_eq!(there, haversine_km(lat2, lon2, lat1, lon1));
            assert!((0.0..=6371.0 * std::f64::consts::PI).contains(&there));
            assert!((there - haversine_km(lat1, lon1 + 360.0, lat2, lon2)).abs() < 1e-6);
        }
    }
    assert!((haversine_km(0.0, 179.0, 0.0, -179.0) - 222.39).abs() < 0.01);
}
