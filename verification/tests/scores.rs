//! The terms of the score, and what the search makes of them.

use etherwhere::anchors::{builtin_anchors, Anchor};
use etherwhere::calc::{Arith, Calc};
use etherwhere::cluster::{regional_cluster, regional_cluster_score};
use etherwhere::double::Double;
use etherwhere::fit::{fit_latency_model, rank_constraints, LatencyFit};
use etherwhere::geometry::{anchor_distance_km, anchor_place, distance_km, move_place, weighted_center, Place};
use etherwhere::hints::LocationHint;
use etherwhere::posterior::{
    posterior_samples, sort_values, stability_radius_km, stability_subsets,
};
use etherwhere::priors::{
    dominant_local_anchor_score, pairwise_order_score, relative_spread_score,
};
use etherwhere::scores::{objective, trace_corridor_score_for_hint};
use etherwhere::search::{candidate, initial_candidates, refine, solve_once, Candidate, Scene};
use etherwhere::solver::Constraint;
use etherwhere::summary::{normalize_weighted_candidates, posterior_summary};

fn double(value: f64) -> Double {
    Double { bits: value.to_bits() }
}

fn number(value: Double) -> f64 {
    f64::from_bits(value.bits)
}

fn step(step: Calc) -> Double {
    double(match step {
        Calc::Count(n) => n as f64,
        Calc::Ratio(over, under) => f64::from(over) / f64::from(under),
        Calc::Add(a, b) => number(a) + number(b),
        Calc::Sub(a, b) => number(a) - number(b),
        Calc::Mul(a, b) => number(a) * number(b),
        Calc::Div(a, b) => number(a) / number(b),
        Calc::Remainder(a, b) => number(a).rem_euclid(number(b)),
        Calc::Square(a) => number(a).powi(2),
        Calc::Sqrt(a) => number(a).sqrt(),
        Calc::Exp(a) => number(a).exp(),
        Calc::Round(a) => number(a).round(),
        Calc::Radians(a) => number(a).to_radians(),
        Calc::Degrees(a) => number(a).to_degrees(),
        Calc::Sin(a) => number(a).sin(),
        Calc::Cos(a) => number(a).cos(),
        Calc::Atan2(y, x) => number(y).atan2(number(x)),
    })
}

fn anchor(id: &str) -> Anchor {
    builtin_anchors()
        .into_iter()
        .find(|anchor| anchor.id == id)
        .expect("anchor should exist")
}

fn place(id: &str) -> Place {
    anchor_place(&anchor(id), &Arith { step })
}

fn km(from: &str, to: &str) -> f64 {
    number(anchor_distance_km(place(from), &anchor(to), &Arith { step }))
}

fn constraint(id: &str, upper_bound_km: f64, min_rtt_ms: f64, jitter_ms: f64, quality: f64) -> Constraint {
    Constraint {
        anchor: anchor(id),
        upper_bound_km: double(upper_bound_km),
        min_rtt_ms: double(min_rtt_ms),
        jitter_ms: double(jitter_ms),
        quality_weight: double(quality),
    }
}

fn fit(overhead_ms: f64, ms_per_km: f64, weighted_rmse_ms: f64) -> LatencyFit {
    LatencyFit {
        overhead_ms: double(overhead_ms),
        ms_per_km: double(ms_per_km),
        weighted_rmse_ms: double(weighted_rmse_ms),
    }
}

fn hint(id: &str, weight: f64, supporters: Vec<&str>) -> LocationHint {
    LocationHint {
        anchor: anchor(id),
        weight: double(weight),
        source: "test".to_string(),
        supporting_anchors: supporters.iter().map(|id| anchor(id)).collect(),
    }
}

fn close(value: f64, expected: f64) -> bool {
    (value - expected).abs() <= 1e-9 * expected.abs().max(1.0)
}

const SLOW: f64 = 1.0 / 102.0;

#[test]
fn bounds_count_where_they_are_passed() {
    let arith = Arith { step };
    let constraints = vec![constraint("eu-central-1", 50.0, 0.5, 0.0, 0.5)];
    let score = |id: &str| {
        number(objective(
            place(id),
            &constraints,
            &vec![],
            fit(0.0, SLOW, 0.0),
            double(0.0),
            &arith,
        ))
    };
    assert_eq!(score("eu-central-1"), 0.0);
    let overflow = km("eu-west-3", "eu-central-1") - 50.0;
    assert!(close(score("eu-west-3"), 1000.0 * 0.5 * (overflow / 100.0).powi(2)));
}

#[test]
fn fit_has_its_price() {
    let arith = Arith { step };
    let constraints = vec![constraint("eu-central-1", 5000.0, 50.0, 0.0, 1.0)];
    let score = number(objective(
        place("eu-central-1"),
        &constraints,
        &vec![],
        fit(3.0, 0.02, 0.25),
        double(0.0),
        &arith,
    ));
    assert!(close(score, 80.0 * 0.25 + 0.5 * 3.0 + 2000.0 * (0.02 - SLOW)));
}

#[test]
fn unsupported_hint_pulls() {
    let arith = Arith { step };
    let constraints = vec![constraint("eu-central-1", 90000.0, 50.0, 0.0, 1.0)];
    let score = |from: &str| {
        number(objective(
            place(from),
            &constraints,
            &vec![hint("at-vienna-1", 4.0, vec![])],
            fit(0.0, SLOW, 0.0),
            double(0.0),
            &arith,
        ))
    };
    let near = km("munich-de-cix", "at-vienna-1");
    assert!(near < 450.0);
    assert!(close(score("munich-de-cix"), 4.0 * near / 400.0));
    let far = km("eu-west-1", "at-vienna-1");
    let expected = 4.0 * far / 400.0 + 25.0 * 4.0 * ((far - 450.0) / 450.0).powi(2);
    assert!(close(score("eu-west-1"), expected));
}

#[test]
fn supported_hint_explains_routes() {
    let arith = Arith { step };
    let constraints = vec![
        constraint("eu-central-1", 90000.0, 20.0, 0.0, 1.0),
        constraint("eu-west-1", 90000.0, 60.0, 1.0, 0.5),
    ];
    let here = "at-graz-1";
    let base = |to: &str| (km(here, "at-vienna-1") + km("at-vienna-1", to)) * SLOW;
    let overhead = (20.0 - base("eu-central-1")).min(60.0 - base("eu-west-1")).max(0.0);
    let term = |to: &str, rtt: f64, jitter: f64, quality: f64| {
        let residual = rtt - (overhead + base(to));
        let sigma = 1.0 + jitter;
        2.0 * quality
            * (40.0 * ((-residual).max(0.0) / sigma).powi(2)
                + 0.35 * (residual.max(0.0) / (sigma * 2.5)).powi(2))
    };
    let expected = term("eu-central-1", 20.0, 0.25, 1.0) + term("eu-west-1", 60.0, 1.0, 0.5);
    assert!(expected > 0.0);
    let supported = hint("at-vienna-1", 2.0, vec!["eu-central-1", "us-east-1", "eu-west-1"]);
    let score = |hint: &LocationHint| {
        number(trace_corridor_score_for_hint(place(here), &constraints, hint, &arith))
    };
    assert!(close(score(&supported), expected));
    assert_eq!(score(&hint("at-vienna-1", 2.0, vec!["us-east-1"])), 0.0);
}

#[test]
fn spread_follows_its_formula() {
    let arith = Arith { step };
    let ranked = vec![
        constraint("eu-central-1", 500.0, 5.0, 0.0, 1.0),
        constraint("eu-west-3", 900.0, 6.0, 0.0, 1.0),
        constraint("eu-west-1", 900.0, 25.0, 0.0, 0.5),
        constraint("us-east-1", 900.0, 46.0, 0.0, 1.0),
    ];
    // Only the third counts: the second is as fast, the fourth is too slow.
    let delta: f64 = 20.0;
    let least = delta * 102.0 * 0.30 - 20.0;
    let spread = (km("eu-west-1", "eu-west-1") - km("eu-west-1", "eu-central-1")).max(0.0);
    let expected = 45.0 * (2.0 * 0.5) * ((least - spread) / least).powi(2);
    assert!(close(number(relative_spread_score(place("eu-west-1"), &ranked, &arith)), expected));
    let slow = vec![
        constraint("eu-central-1", 500.0, 11.0, 0.0, 1.0),
        constraint("eu-west-1", 900.0, 25.0, 0.0, 0.5),
    ];
    assert_eq!(number(relative_spread_score(place("eu-west-1"), &slow, &arith)), 0.0);
    assert_eq!(number(relative_spread_score(place("eu-west-1"), &slow[..1].to_vec(), &arith)), 0.0);
}

#[test]
fn order_of_pairs_follows_its_formula() {
    let arith = Arith { step };
    let ranked = vec![
        constraint("eu-central-1", 500.0, 10.0, 1.0, 0.75),
        constraint("eu-west-1", 900.0, 20.0, 2.0, 0.5),
    ];
    // Seen from the slower anchor, the order is inverted.
    let ahead = km("eu-west-1", "eu-central-1");
    let effective: f64 = 10.0 - 0.5 * 3.0 - 1.0;
    let required = 20.0 + 4.0 * effective;
    let allowed: f64 = 100.0 + 20.0 * 3.0 - 8.0 * 10.0;
    let expected = 65.0 * 0.5 * (effective / 6.0) * ((required + ahead) / 120.0).powi(2)
        + 220.0 * 0.5 * (10.0 / 6.0) * ((ahead - allowed) / 120.0).powi(2);
    assert!(close(number(pairwise_order_score(place("eu-west-1"), &ranked, &arith)), expected));
    assert_eq!(number(pairwise_order_score(place("eu-central-1"), &ranked, &arith)), 0.0);
}

#[test]
fn only_twelve_near_constraints_are_paired() {
    let arith = Arith { step };
    let ids: Vec<&str> = builtin_anchors().iter().map(|anchor| anchor.id).collect();
    let ranked: Vec<Constraint> = (0..14)
        .map(|i| constraint(ids[i], 500.0, 10.0 + 2.0 * i as f64, 0.0, 1.0))
        .collect();
    let here = place("us-east-1");
    let score = |list: &Vec<Constraint>| number(pairwise_order_score(here, list, &arith));
    assert_eq!(score(&ranked), score(&ranked[..12].to_vec()));
    let mut slow = ranked[..3].to_vec();
    slow[2].min_rtt_ms = double(56.0);
    assert_eq!(score(&slow), score(&slow[..2].to_vec()));
}

#[test]
fn cluster_score_follows_its_formula() {
    let arith = Arith { step };
    let ranked = vec![
        constraint("eu-central-1", 3000.0, 30.0, 0.0, 1.0),
        constraint("eu-central-2", 3100.0, 30.0, 0.0, 0.5),
        constraint("eu-south-1", 3200.0, 33.0, 1.0, 0.75),
    ];
    let cluster = regional_cluster(&ranked, &arith).expect("cluster");
    let span = km("eu-central-1", "eu-central-2")
        .max(km("eu-central-1", "eu-south-1"))
        .max(km("eu-central-2", "eu-south-1"));
    assert!(close(number(cluster.span_km), span));
    assert!(close(number(cluster.strength), (1.45 - 1.0) * (2.25 / 3.0)));
    let here = place("us-east-1");
    let center = number(distance_km(here, cluster.center, &arith));
    let soft = (span * 0.40).clamp(140.0, 650.0);
    let strength = number(cluster.strength);
    let predicted = (km("us-east-1", "eu-south-1") - km("us-east-1", "eu-central-1")).max(0.0);
    let allowed = 3.0 * 70.0 + 140.0 + 80.0;
    let expected = 28.0 * strength * (center / soft).powi(2)
        + 14.0 * strength * (0.5 * 0.75) * ((predicted - allowed).max(0.0) / allowed).powi(2);
    assert!(close(number(regional_cluster_score(here, &ranked, &arith)), expected));
}

#[test]
fn constraints_are_ranked() {
    let list = vec![
        constraint("eu-central-1", 1.0, 3.0, 0.0, 1.0),
        constraint("eu-south-1", 1.0, 1.0, 0.0, 1.0),
        constraint("eu-west-1", 1.0, 3.0, 0.0, 1.0),
        constraint("eu-north-1", 1.0, 2.0, 0.0, 1.0),
    ];
    let ids: Vec<&str> = rank_constraints(&list).iter().map(|c| c.anchor.id).collect();
    assert_eq!(ids, vec!["eu-south-1", "eu-north-1", "eu-central-1", "eu-west-1"]);
    let values: Vec<Double> = [2.0, -1.0, 0.5].iter().map(|value| double(*value)).collect();
    let ordered: Vec<f64> = sort_values(&values).iter().map(|value| number(*value)).collect();
    assert_eq!(ordered, vec![-1.0, 0.5, 2.0]);
}

#[test]
fn search_starts_on_a_grid_and_never_ends_worse() {
    let arith = Arith { step };
    let constraints = vec![
        constraint("eu-central-1", 400.0, 4.0, 0.0, 1.0),
        constraint("eu-west-3", 600.0, 6.0, 0.0, 1.0),
    ];
    let places = initial_candidates(&constraints, &arith);
    assert_eq!(places.len(), 253);
    assert_eq!((number(places[0].latitude), number(places[0].longitude)), (-60.0, -180.0));
    assert_eq!((number(places[26].latitude), number(places[26].longitude)), (-45.0, -165.0));
    assert_eq!((number(places[249].latitude), number(places[249].longitude)), (75.0, 180.0));
    assert_eq!(places[250], place("eu-central-1"));
    assert_eq!(places[251], place("eu-west-3"));

    let hints = vec![];
    let scene = Scene {
        constraints: &constraints,
        hints: &hints,
        shared_rtt_floor_ms: double(0.0),
    };
    let best = solve_once(&constraints, &hints, double(0.0), &arith).expect("solution");
    for place in places {
        assert!(number(best.score) <= number(candidate(place, &scene, &arith).score));
    }
    assert_eq!(candidate(best.place, &scene, &arith), best);
    let start = candidate(place("us-east-1"), &scene, &arith);
    let better = refine(start, double(8.0), &scene, &arith);
    assert!(number(better.score) < number(start.score));
    assert!(solve_once(&vec![], &hints, double(0.0), &arith).is_none());
}

#[test]
fn samples_are_distinct() {
    let arith = Arith { step };
    let constraints = vec![constraint("eu-central-1", 400.0, 4.0, 0.0, 1.0)];
    let hints = vec![hint("eu-central-1", 1.0, vec![])];
    let scene = Scene {
        constraints: &constraints,
        hints: &hints,
        shared_rtt_floor_ms: double(0.0),
    };
    let mode = candidate(place("eu-central-1"), &scene, &arith);
    let samples = posterior_samples(&scene, &mode, &vec![], &arith);
    let mut keys: Vec<(i64, i64)> = samples
        .iter()
        .map(|sample| {
            (
                (number(sample.place.latitude) * 1000.0).round() as i64,
                (number(sample.place.longitude) * 1000.0).round() as i64,
            )
        })
        .collect();
    let count = keys.len();
    keys.sort();
    keys.dedup();
    assert_eq!(keys.len(), count);
    // All seeds are the same place: one square of each width, less the shared places.
    assert!(count > 81 && count < 405);
    let first = move_place(mode.place, -4, -4, double(2.0), &arith);
    assert_eq!(samples[0].place, first);
    assert_eq!(samples[0], candidate(first, &scene, &arith));
}

#[test]
fn radius_is_the_upper_quartile() {
    let arith = Arith { step };
    let here = place("eu-central-1");
    let at = |id: &str| Candidate { place: place(id), score: double(0.0), fit: fit(0.0, SLOW, 0.0) };
    let ids = ["us-east-1", "eu-central-2", "eu-west-3", "eu-west-1", "eu-south-1"];
    let modes: Vec<Candidate> = ids.iter().map(|id| at(id)).collect();
    let mut distances: Vec<f64> = ids.iter().map(|id| km("eu-central-1", id)).collect();
    distances.sort_by(f64::total_cmp);
    let radius = |modes: &Vec<Candidate>| number(stability_radius_km(here, modes, &arith));
    assert_eq!(radius(&modes), distances[3]);
    assert_eq!(radius(&modes[..1].to_vec()), km("eu-central-1", "us-east-1"));
    assert_eq!(radius(&vec![]), 0.0);
}

#[test]
fn summary_weighs_samples() {
    let arith = Arith { step };
    let at = |id: &str, score: f64| Candidate {
        place: place(id),
        score: double(score),
        fit: fit(0.0, SLOW, 0.0),
    };
    let mode = at("eu-central-1", 10.0);
    let samples = vec![at("eu-central-1", 10.0), at("eu-west-3", 14.0), at("eu-west-1", 12.0)];
    let modes = vec![at("eu-south-1", 11.0), at("eu-central-2", 9.0)];
    let summary = posterior_summary(&mode, &samples, &modes, &arith);

    // The differences above zero are 2 and 4, and the first of them is the temperature.
    let raw = [1.0, (-2.0_f64).exp(), (-1.0_f64).exp()];
    let total: f64 = raw.iter().sum();
    let ids = ["eu-central-1", "eu-west-3", "eu-west-1", "eu-south-1", "eu-central-2"];
    let weights = [raw[0] * 0.5 / total, raw[1] * 0.5 / total, raw[2] * 0.5 / total, 0.25, 0.25];
    let items: Vec<(Place, Double)> = ids
        .iter()
        .zip(weights.iter())
        .map(|(id, weight)| (place(id), double(*weight)))
        .collect();
    let center = weighted_center(&items, &arith);
    assert!(number(distance_km(center, summary.place, &arith)) < 1e-6);
    let mut pairs: Vec<(f64, f64)> = ids
        .iter()
        .zip(weights.iter())
        .map(|(id, weight)| (number(anchor_distance_km(center, &anchor(id), &arith)), *weight))
        .collect();
    pairs.sort_by(|a, b| a.0.total_cmp(&b.0));
    let mut sum = 0.0;
    let mut radius = 0.0;
    for (distance, weight) in pairs {
        sum += weight;
        radius = distance;
        if sum >= 0.75 {
            break;
        }
    }
    assert!(close(number(summary.radius_km), radius));

    let alone = posterior_summary(&mode, &samples[..1].to_vec(), &modes, &arith);
    assert_eq!(alone.place, mode.place);
    assert_eq!(number(alone.radius_km), 0.0);
}

#[test]
fn weights_are_scaled() {
    let arith = Arith { step };
    let items = vec![(place("eu-central-1"), double(1.0)), (place("eu-west-1"), double(3.0))];
    let scaled = normalize_weighted_candidates(items.clone(), double(0.5), &arith);
    let weights: Vec<f64> = scaled.iter().map(|item| number(item.1)).collect();
    assert_eq!(weights, vec![0.125, 0.375]);
    assert_eq!(scaled[1].0, items[1].0);
    assert_eq!(normalize_weighted_candidates(items.clone(), double(0.0), &arith), items);
    let none = vec![(place("eu-central-1"), double(0.0))];
    assert_eq!(normalize_weighted_candidates(none.clone(), double(0.5), &arith), none);
}

#[test]
fn pairs_at_one_anchor_count_in_either_order() {
    let arith = Arith { step };
    let slow = constraint("eu-central-1", 2000.0, 17.0, 0.0, 1.0);
    let fast = constraint("eu-central-1", 2000.0, 10.0, 0.0, 1.0);
    let here = place("eu-central-1");
    for list in [vec![slow, fast], vec![fast, slow]] {
        let score = number(pairwise_order_score(here, &list, &arith));
        assert!((score - 65.0 * (44.0_f64 / 120.0).powi(2)).abs() < 1e-6);
    }
}

#[test]
fn cluster_ascends_from_the_fastest() {
    let arith = Arith { step };
    let list: Vec<Constraint> = [30.0, 20.0, 25.0]
        .iter()
        .map(|min_rtt_ms| constraint("eu-central-1", 3000.0, *min_rtt_ms, 0.0, 1.0))
        .collect();
    let cluster = regional_cluster(&list, &arith).expect("cluster");
    assert_eq!(number(cluster.fastest.min_rtt_ms), 20.0);
    let times: Vec<f64> = cluster.members.iter().map(|member| number(member.min_rtt_ms)).collect();
    assert_eq!(times, vec![20.0, 25.0, 30.0]);
    assert_eq!(number(cluster.span_km), 0.0);
    assert!(close(number(cluster.strength), 1.45 - 1.25));
    let mut late = list.clone();
    late.push(constraint("eu-central-1", 3000.0, 46.0, 0.0, 1.0));
    assert_eq!(regional_cluster(&late, &arith).expect("cluster").members.len(), 3);
}

#[test]
fn order_given_does_not_matter() {
    let arith = Arith { step };
    let ids = [
        "eu-central-1", "eu-west-3", "eu-west-1", "us-east-1", "eu-south-1", "eu-north-1",
        "eu-central-2", "eu-west-2",
    ];
    let ranked: Vec<Constraint> = ids
        .iter()
        .enumerate()
        .map(|(i, id)| constraint(id, 900.0, 3.0 + 7.0 * i as f64, 0.5, 0.75))
        .collect();
    let mut reversed = ranked.clone();
    reversed.reverse();
    let mut rotated = ranked.clone();
    rotated.rotate_left(3);
    let here = place("eu-south-2");
    for list in [reversed, rotated] {
        assert_eq!(fit_latency_model(here, &list, &arith), fit_latency_model(here, &ranked, &arith));
        assert_eq!(
            pairwise_order_score(here, &list, &arith),
            pairwise_order_score(here, &ranked, &arith)
        );
        let spread = relative_spread_score(here, &ranked, &arith);
        assert!(number(spread) > 0.0);
        assert_eq!(relative_spread_score(here, &list, &arith), spread);
        let dominant = dominant_local_anchor_score(here, &ranked, double(0.5), &arith);
        assert!(number(dominant) > 0.0);
        assert_eq!(dominant_local_anchor_score(here, &list, double(0.5), &arith), dominant);
        assert_eq!(
            regional_cluster_score(here, &list, &arith),
            regional_cluster_score(here, &ranked, &arith)
        );
        let subset_ids = |list: &Vec<Constraint>| -> Vec<Vec<&'static str>> {
            stability_subsets(list)
                .iter()
                .map(|subset| subset.iter().map(|constraint| constraint.anchor.id).collect())
                .collect()
        };
        assert_eq!(subset_ids(&list), subset_ids(&ranked));
        assert_eq!(subset_ids(&list)[0], ids[..4].to_vec());
    }
}

#[test]
fn seventh_constraint_does_not_move_the_line() {
    let arith = Arith { step };
    let here = place("eu-central-1");
    let ids = ["eu-central-1", "eu-west-3", "eu-west-1", "us-east-1", "eu-south-1", "eu-north-1"];
    let six: Vec<Constraint> = ids
        .iter()
        .map(|id| constraint(id, 900.0, 4.0 + km("eu-central-1", id) / 60.0, 0.0, 1.0))
        .collect();
    let line = fit_latency_model(here, &six, &arith);
    assert!((number(line.overhead_ms) - 4.0).abs() < 1e-6);
    for at in [0, 3, 6] {
        let mut seven = six.clone();
        seven.insert(at, constraint("ap-northeast-1", 900.0, 500.0, 0.0, 1.0));
        assert_eq!(fit_latency_model(here, &seven, &arith), line);
        seven[at].min_rtt_ms = double(5.0);
        assert_ne!(fit_latency_model(here, &seven, &arith), line);
    }
}
