//! What a run makes of its measurements.

use etherwhere::anchors::builtin_anchors;
use etherwhere::cache::ProbeCache;
use etherwhere::calc::{Arith, Calc};
use etherwhere::calibrate::{
    apply_cached_anchor_floors, apply_tcp_bias_correction, cache_path, calibrate_tcp_bias_ms,
    calibrated_shared_rtt_floor_ms, keep_better, merge_local_rtt_floor, merge_tcp_bias_ms,
    rank_measurements, refine_config, refine_indices, should_replace_measurement, tcp_bias_targets, trace_indices,
};
use etherwhere::double::Double;
use etherwhere::probe::{LocalRttFloor, Measurement, PingStats, ProbeConfig, ProbeMethod};

fn double(value: f64) -> Double {
    Double { bits: value.to_bits() }
}

fn number(value: Double) -> f64 {
    f64::from_bits(value.bits)
}

fn step(step: Calc) -> Double {
    double(match step {
        Calc::Count(n) => n as f64,
        Calc::Ratio(over, under) => f64::from(over) / f64::from(under),
        Calc::Add(a, b) => number(a) + number(b),
        Calc::Sub(a, b) => number(a) - number(b),
        Calc::Mul(a, b) => number(a) * number(b),
        other => panic!("no other step is needed: {:?}", other),
    })
}

fn show(value: Double, decimals: u8) -> String {
    format!("{:.*}", usize::from(decimals), number(value))
}

fn stats(method: ProbeMethod, min_ms: f64, avg_ms: f64, max_ms: f64) -> PingStats {
    PingStats {
        method,
        transmitted: 1,
        received: 1,
        min_ms: double(min_ms),
        avg_ms: double(avg_ms),
        max_ms: double(max_ms),
        mdev_ms: double(0.0),
    }
}

fn measured(index: usize, ping: Option<PingStats>) -> Measurement {
    Measurement {
        anchor: builtin_anchors()[index],
        resolved_ip: None,
        ping,
        trace: None,
        cache_age_days: None,
        cache_uncertainty_ms: double(0.0),
        notes: Vec::new(),
    }
}

fn echo(index: usize, min_ms: f64) -> Measurement {
    measured(index, Some(stats(ProbeMethod::Icmp, min_ms, min_ms, min_ms)))
}

fn tcp(index: usize, min_ms: f64) -> Measurement {
    measured(
        index,
        Some(stats(ProbeMethod::Tcp { port: 443 }, min_ms, min_ms + 1.0, min_ms + 2.0)),
    )
}

fn floor(min_ms: f64) -> LocalRttFloor {
    LocalRttFloor { target: "gate".to_string(), source: "test".to_string(), min_ms: double(min_ms) }
}

#[test]
fn fastest_are_traced() {
    let list = vec![echo(0, 5.0), measured(1, None), tcp(2, 1.0), echo(3, 3.0), echo(4, 3.0)];
    let order: Vec<usize> = rank_measurements(&list).iter().map(|item| item.0).collect();
    assert_eq!(order, vec![2, 3, 4, 0]);
    assert_eq!(trace_indices(&list, 2), vec![2, 3]);
    assert_eq!(trace_indices(&list, 0), Vec::<usize>::new());
    assert_eq!(trace_indices(&list, 99), vec![2, 3, 4, 0]);
}

#[test]
fn fastest_and_silent_are_refined() {
    let arith = Arith { step };
    let list = vec![echo(0, 30.0), measured(1, None), echo(2, 7.0), echo(3, 28.0), echo(4, 28.5)];
    assert_eq!(refine_indices(&list, &arith), vec![1, 2, 3]);

    let list = vec![echo(0, 25.0), echo(1, 1.0), echo(2, 25.5)];
    assert_eq!(refine_indices(&list, &arith), vec![0, 1]);

    let list: Vec<Measurement> = (0..8).map(|i| echo(i, 8.0 - i as f64)).collect();
    assert_eq!(refine_indices(&list, &arith), vec![2, 3, 4, 5, 6, 7]);

    let list = vec![measured(0, None), measured(1, None)];
    assert_eq!(refine_indices(&list, &arith), Vec::<usize>::new());
}

#[test]
fn refining_takes_more_rounds() {
    let config = |rounds: u8, ping_count: u8| ProbeConfig {
        ping_count,
        timeout_ms: 1000,
        trace_hops: 8,
        rounds,
    };
    for (rounds, refined) in [(0, 5), (2, 5), (3, 5), (4, 6), (253, 255)] {
        assert_eq!(refine_config(&config(rounds, 3)).rounds, refined);
    }
    assert_eq!(refine_config(&config(2, 0)).ping_count, 1);
    assert_eq!(refine_config(&config(2, 4)).ping_count, 4);
    assert_eq!(refine_config(&config(2, 4)).trace_hops, 8);
}

#[test]
fn better_measurement_replaces() {
    assert!(should_replace_measurement(&echo(0, 2.0), &echo(0, 1.0)));
    assert!(!should_replace_measurement(&echo(0, 1.0), &echo(0, 1.0)));
    assert!(should_replace_measurement(&measured(0, None), &echo(0, 1.0)));
    assert!(!should_replace_measurement(&echo(0, 1.0), &measured(0, None)));
    assert!(!should_replace_measurement(&measured(0, None), &measured(0, None)));
}

#[test]
fn refining_keeps_the_better_and_the_rest() {
    let mut list = vec![echo(0, 5.0), measured(1, None), echo(2, 3.0), echo(3, 2.0)];
    keep_better(&mut list, 0, echo(0, 6.0));
    keep_better(&mut list, 1, measured(1, None));
    keep_better(&mut list, 2, echo(2, 1.0));
    assert!(list[1].ping.is_none());
    keep_better(&mut list, 0, echo(0, 4.0));
    keep_better(&mut list, 0, measured(0, None));
    keep_better(&mut list, 1, echo(1, 9.0));
    let times: Vec<f64> = list.iter().map(|m| number(m.ping.expect("ping").min_ms)).collect();
    assert_eq!(times, vec![4.0, 9.0, 1.0, 2.0]);
    for (index, measurement) in list.iter().enumerate() {
        assert_eq!(measurement.anchor.id, builtin_anchors()[index].id);
    }
}

#[test]
fn shared_floor_is_the_lower_bound() {
    let arith = Arith { step };
    let list = vec![echo(0, 8.0), echo(1, 4.0), measured(2, None)];
    let shared = |local: Option<LocalRttFloor>| {
        number(calibrated_shared_rtt_floor_ms(&list, &local, &arith))
    };
    assert_eq!(shared(Some(floor(1.0))), 1.0);
    assert_eq!(shared(Some(floor(9.0))), 3.0);
    assert_eq!(shared(None), 0.0);
    let silent = vec![measured(0, None)];
    assert_eq!(
        number(calibrated_shared_rtt_floor_ms(&silent, &Some(floor(1.0)), &arith)),
        0.0
    );
}

#[test]
fn bias_is_merged_with_the_cache() {
    let mut cache = ProbeCache::default();
    assert_eq!(merge_tcp_bias_ms(double(2.0), &cache), double(2.0));
    cache.tcp_bias_ms = Some(double(1.0));
    assert_eq!(merge_tcp_bias_ms(double(2.0), &cache), double(1.0));
    assert_eq!(merge_tcp_bias_ms(double(0.5), &cache), double(0.5));
    assert_eq!(merge_tcp_bias_ms(double(0.0), &cache), double(1.0));
}

#[test]
fn local_floor_is_merged_with_the_cache() {
    let mut cache = ProbeCache::default();
    assert!(merge_local_rtt_floor(None, &cache).is_none());
    assert_eq!(merge_local_rtt_floor(Some(floor(2.0)), &cache).expect("floor").target, "gate");
    cache.local_rtt_floor_ms = Some(double(1.0));
    for current in [Some(floor(2.0)), None] {
        let merged = merge_local_rtt_floor(current, &cache).expect("floor");
        assert_eq!(merged.target, ".etherwhere-cache");
        assert_eq!(merged.source, "historical lower envelope");
        assert_eq!(merged.min_ms, double(1.0));
    }
    assert_eq!(merge_local_rtt_floor(Some(floor(1.0)), &cache).expect("floor").target, "gate");
    assert_eq!(cache_path(), ".etherwhere-cache");
}

#[test]
fn cached_floors_lower_times() {
    let anchors = builtin_anchors();
    let mut cache = ProbeCache::default();
    cache.update_anchor(anchors[0].id, ProbeMethod::Icmp, double(2.0));
    cache.update_anchor(anchors[1].id, ProbeMethod::Tcp { port: 80 }, double(3.456));
    cache.update_anchor(anchors[2].id, ProbeMethod::Icmp, double(9.0));
    let mut list = vec![echo(0, 5.0), measured(1, None), echo(2, 4.0), echo(3, 1.0)];
    apply_cached_anchor_floors(&mut list, &cache, None, &show);
    let times: Vec<f64> = list.iter().map(|m| number(m.ping.expect("ping").min_ms)).collect();
    assert_eq!(times, vec![2.0, 3.456, 4.0, 1.0]);
    assert_eq!(list[0].notes, vec!["used cached lower envelope 2.00 ms via icmp"]);
    assert_eq!(list[1].notes, vec!["used cached lower envelope 3.46 ms via tcp/80"]);
    assert!(list[2].notes.is_empty());
    let notes: Vec<usize> = list.iter().map(|m| m.notes.len()).collect();
    apply_cached_anchor_floors(&mut list, &cache, None, &show);
    assert_eq!(list.iter().map(|m| m.notes.len()).collect::<Vec<_>>(), notes);
}

#[test]
fn cached_floors_decay() {
    let anchors = builtin_anchors();
    let mut cache = ProbeCache::default();
    cache.update_anchor(anchors[0].id, ProbeMethod::Icmp, double(2.0));
    let aged = |age: Option<f64>| {
        let mut list = vec![echo(0, 5.0), echo(1, 5.0), measured(0, None), echo(0, 1.0)];
        apply_cached_anchor_floors(&mut list, &cache, age.map(double), &show);
        list
    };
    let ages = |list: &Vec<Measurement>| -> Vec<Option<f64>> {
        list.iter().map(|m| m.cache_age_days.map(number)).collect()
    };
    let uncertain = |list: &Vec<Measurement>| -> Vec<f64> {
        list.iter().map(|m| number(m.cache_uncertainty_ms)).collect()
    };
    let unknown = aged(None);
    assert_eq!(ages(&unknown), vec![None; 4]);
    assert_eq!(uncertain(&unknown), vec![0.0; 4]);
    let today = aged(Some(0.0));
    assert_eq!(ages(&today), vec![Some(0.0), None, Some(0.0), None]);
    assert_eq!(uncertain(&today), vec![0.0; 4]);
    let week = aged(Some(7.5));
    assert_eq!(ages(&week), vec![Some(7.5), None, Some(7.5), None]);
    assert_eq!(uncertain(&week), vec![7.5, 0.0, 7.5, 0.0]);
    let month = aged(Some(30.0));
    assert_eq!(uncertain(&month), vec![30.0, 0.0, 30.0, 0.0]);
    assert_eq!(month[0].ping, week[0].ping);
    assert_eq!(month[0].notes, week[0].notes);
    assert_eq!(uncertain(&aged(Some(-3.0))), vec![0.0; 4]);
    assert_eq!(uncertain(&aged(Some(f64::NAN))), vec![0.0; 4]);
}

#[test]
fn four_fastest_echoes_are_compared() {
    let mut list = vec![
        echo(0, 6.0),
        tcp(1, 1.0),
        echo(2, 2.0),
        echo(3, 5.0),
        echo(4, 4.0),
        echo(5, 3.0),
        measured(6, None),
    ];
    list[2].resolved_ip = Some("192.0.2.1".to_string());
    let targets = tcp_bias_targets(&list);
    let echoes: Vec<f64> = targets.iter().map(|target| number(target.echo_ms)).collect();
    assert_eq!(echoes, vec![2.0, 3.0, 4.0, 5.0]);
    assert_eq!(targets[0].target, "192.0.2.1");
    assert_eq!(targets[1].target, builtin_anchors()[5].host);
}

#[test]
fn bias_is_the_middle_difference() {
    let arith = Arith { step };
    let handshake = |min_ms: f64| Some(stats(ProbeMethod::Tcp { port: 443 }, min_ms, min_ms, min_ms));
    let bias = |samples: Vec<(Double, Option<PingStats>)>| {
        number(calibrate_tcp_bias_ms(&samples, &arith))
    };
    assert_eq!(bias(vec![]), 0.0);
    assert_eq!(bias(vec![(double(1.0), None)]), 0.0);
    assert_eq!(bias(vec![(double(1.0), handshake(1.0)), (double(1.0), handshake(11.0))]), 0.0);
    assert_eq!(bias(vec![(double(1.0), handshake(f64::NAN))]), 0.0);
    assert_eq!(
        bias(vec![
            (double(1.0), handshake(4.0)),
            (double(1.0), handshake(2.0)),
            (double(1.0), handshake(6.0)),
            (double(5.0), handshake(4.0)),
        ]),
        3.0
    );
    assert_eq!(bias(vec![(double(1.0), handshake(4.0)), (double(1.0), handshake(2.0))]), 3.0);
}

#[test]
fn bias_is_taken_out_of_handshakes() {
    let arith = Arith { step };
    let mut list = vec![echo(0, 5.0), tcp(1, 5.0), tcp(2, 0.5), measured(3, None)];
    apply_tcp_bias_correction(&mut list, double(2.0), &arith, &show);
    assert_eq!(list[0].ping, echo(0, 5.0).ping);
    assert!(list[0].notes.is_empty());
    assert_eq!(
        list[1].ping,
        Some(stats(ProbeMethod::Tcp { port: 443 }, 3.0, 4.0, 5.0))
    );
    assert_eq!(list[1].notes, vec!["applied TCP bias correction of 2.00 ms"]);
    assert_eq!(
        list[2].ping,
        Some(stats(ProbeMethod::Tcp { port: 443 }, 0.05, 0.05, 0.5))
    );
    assert!(list[3].ping.is_none());

    let mut list = vec![tcp(1, 5.0)];
    apply_tcp_bias_correction(&mut list, double(0.0), &arith, &show);
    assert_eq!(list[0].ping, tcp(1, 5.0).ping);
    assert!(list[0].notes.is_empty());
}
