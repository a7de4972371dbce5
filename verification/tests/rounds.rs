//! The rounds of a probe.

use etherwhere::anchors::builtin_anchors;
use etherwhere::commands::LocalCandidate;
use etherwhere::double::Double;
use etherwhere::probe::{
    CommandOutput, PingStats, ProbeConfig, ProbeMethod, TraceHop, TraceSummary,
};
use etherwhere::rounds::{
    after_ping, after_tcp, enrich_trace_hostnames, handshake_config, local_attempts,
    local_ping_config, local_targets, measure_local_rtt_floor, probe_anchor, record_trace,
    round_targets, rounds_of, target_of, PingStep, RoundSamples, Sample,
};

fn double(value: f64) -> Double {
    Double { bits: value.to_bits() }
}

fn read(text: &str) -> Option<Double> {
    text.parse::<f64>().ok().map(double)
}

fn stats(min_ms: f64) -> PingStats {
    PingStats {
        method: ProbeMethod::Icmp,
        transmitted: 1,
        received: 1,
        min_ms: double(min_ms),
        avg_ms: double(min_ms),
        max_ms: double(min_ms),
        mdev_ms: double(0.0),
    }
}

fn config(rounds: u8) -> ProbeConfig {
    ProbeConfig { ping_count: 3, timeout_ms: 1000, trace_hops: 8, rounds }
}

fn good(min_ms: f64) -> Sample {
    Sample { stats: Some(stats(min_ms)), notes: Vec::new() }
}

fn bad(notes: Vec<&str>) -> Sample {
    Sample { stats: None, notes: notes.iter().map(|note| note.to_string()).collect() }
}

fn round(ips: Vec<&str>, samples: Vec<Sample>) -> RoundSamples {
    RoundSamples { ips: ips.iter().map(|ip| ip.to_string()).collect(), samples }
}

fn printed(stdout: &str, stderr: &str) -> CommandOutput {
    CommandOutput { stdout: stdout.to_string(), stderr: stderr.to_string() }
}

const PING: &str = "2 packets transmitted, 2 received\nrtt min/avg/max/mdev = 1.5/2.5/3.5/0.5 ms\n";

#[test]
fn ping_may_be_enough() {
    match after_ping(&Ok(printed(PING, "warning")), &read) {
        PingStep::Done(sample) => {
            assert_eq!(sample.stats.map(|stats| stats.min_ms), Some(double(1.5)));
            assert_eq!(sample.notes, vec!["warning"]);
        }
        PingStep::TryTcp(_) => panic!("the ping has a time"),
    }
}

#[test]
fn ping_without_time_leads_to_tcp() {
    match after_ping(&Ok(printed("", "")), &read) {
        PingStep::TryTcp(notes) => assert_eq!(notes, vec!["no ICMP replies"]),
        PingStep::Done(_) => panic!("the ping has no time"),
    }
    match after_ping(&Err("not found".to_string()), &read) {
        PingStep::TryTcp(notes) => assert_eq!(notes, vec!["ping failed: not found"]),
        PingStep::Done(_) => panic!("the ping did not run"),
    }
}

#[test]
fn handshake_is_noted() {
    let tcp = PingStats { method: ProbeMethod::Tcp { port: 443 }, ..stats(9.0) };
    let sample = after_tcp(vec!["a".to_string()], &Ok(Some(tcp)));
    assert_eq!(sample.stats, Some(tcp));
    assert_eq!(sample.notes, vec!["a", "used tcp/443 fallback"]);

    let sample = after_tcp(vec!["a".to_string()], &Ok(None));
    assert_eq!(sample.stats, None);
    assert_eq!(sample.notes, vec!["a"]);

    let sample = after_tcp(vec![], &Err("no route".to_string()));
    assert_eq!(sample.stats, None);
    assert_eq!(sample.notes, vec!["tcp probe failed: no route"]);
}

#[test]
fn targets_are_three_addresses_or_the_host() {
    let ips: Vec<String> = ["a", "b", "c", "d"].iter().map(|ip| ip.to_string()).collect();
    assert_eq!(round_targets(&ips, "host"), vec!["a", "b", "c"]);
    assert_eq!(round_targets(&ips[..2].to_vec(), "host"), vec!["a", "b"]);
    assert_eq!(round_targets(&vec![], "host"), vec!["host"]);
}

#[test]
fn lowest_time_of_all_rounds_wins() {
    let measurement = probe_anchor(
        builtin_anchors()[0],
        &config(2),
        &vec![
            round(vec!["a", "b"], vec![good(5.0), good(4.0)]),
            round(vec!["c"], vec![good(4.0)]),
        ],
    );
    assert_eq!(measurement.resolved_ip.as_deref(), Some("b"));
    assert_eq!(measurement.ping.map(|ping| ping.min_ms), Some(double(4.0)));
    assert_eq!(measurement.notes, vec!["round 1: selected best RTT from 2 resolved IPs"]);
    assert!(measurement.trace.is_none());
    assert_eq!(target_of(&measurement), "b");
}

#[test]
fn failed_rounds_are_noted() {
    let anchor = builtin_anchors()[0];
    let measurement = probe_anchor(
        anchor,
        &config(3),
        &vec![
            round(vec![], vec![bad(vec!["n1", "n2", "n3"])]),
            round(vec!["a", "b"], vec![bad(vec!["n4"]), bad(vec![])]),
            round(vec!["a"], vec![good(7.0)]),
        ],
    );
    assert_eq!(
        measurement.notes,
        vec![
            "round 1: DNS resolution failed".to_string(),
            "round 1: no usable RTT sample across 1 target(s)".to_string(),
            format!("round 1: {}: n1", anchor.host),
            format!("round 1: {}: n2", anchor.host),
            "round 2: no usable RTT sample across 2 target(s)".to_string(),
            "round 2: a: n4".to_string(),
            "round 2: selected best RTT from 2 resolved IPs".to_string(),
            "successful probe rounds: 1/3".to_string(),
        ]
    );
    assert_eq!(measurement.ping.map(|ping| ping.min_ms), Some(double(7.0)));
    assert_eq!(measurement.resolved_ip.as_deref(), Some("a"));
}

#[test]
fn host_itself_has_no_address() {
    let anchor = builtin_anchors()[0];
    let measurement = probe_anchor(anchor, &config(0), &vec![round(vec![], vec![good(1.0)])]);
    assert_eq!(measurement.resolved_ip, None);
    assert_eq!(measurement.notes, vec!["round 1: DNS resolution failed"]);
    assert_eq!(target_of(&measurement), anchor.host);
    assert_eq!(rounds_of(&config(0)), 1);
}

#[test]
fn trace_is_recorded() {
    let anchor = builtin_anchors()[0];
    let measurement = || probe_anchor(anchor, &config(1), &vec![round(vec!["a"], vec![good(1.0)])]);
    let traced = record_trace(measurement(), &Ok(printed(" 1: 192.0.2.1 1.0ms\n", "odd")), &read);
    assert_eq!(traced.trace.expect("trace should parse").hops.len(), 1);
    assert_eq!(traced.notes, vec!["odd"]);

    let traced = record_trace(measurement(), &Ok(printed("", "")), &read);
    assert!(traced.trace.is_none());
    assert!(traced.notes.is_empty());

    let traced = record_trace(measurement(), &Err("not found".to_string()), &read);
    assert!(traced.trace.is_none());
    assert_eq!(traced.notes, vec!["tracepath failed: not found"]);
}

#[test]
fn hops_get_their_names() {
    let hop = |address: Option<&str>| TraceHop {
        hop: 1,
        address: address.map(|address| address.to_string()),
        hostname: Some("old".to_string()),
        rtt_ms: None,
        note: None,
    };
    let summary = TraceSummary { hops: vec![hop(Some("a")), hop(Some("b")), hop(Some("c")), hop(None)] };
    let names = vec![Some("name".to_string()), Some("b".to_string()), None, Some("x".to_string())];
    let hops = enrich_trace_hostnames(summary, &names).hops;
    assert_eq!(hops[0].hostname.as_deref(), Some("name"));
    assert_eq!(hops[1].hostname, None);
    assert_eq!(hops[2].hostname, None);
    assert_eq!(hops[3].hostname, None);
    assert_eq!(hops[0].address.as_deref(), Some("a"));
}

#[test]
fn local_settings() {
    assert_eq!(local_ping_config(&config(2)).ping_count, 5);
    assert_eq!(local_ping_config(&ProbeConfig { ping_count: 9, ..config(2) }).ping_count, 9);
    assert_eq!(local_attempts(&config(0)), 2);
    assert_eq!(local_attempts(&config(7)), 7);
    let handshake = handshake_config(250);
    assert_eq!(handshake.timeout_ms, 250);
    assert_eq!((handshake.ping_count, handshake.trace_hops, handshake.rounds), (1, 1, 1));
}

#[test]
fn first_lowest_local_target_is_the_floor() {
    let traced = vec![LocalCandidate { target: "hop".to_string(), source: "tracepath hop 1".to_string() }];
    let targets = local_targets(Some("gate".to_string()), &traced);
    assert_eq!(targets.len(), 2);
    assert_eq!((targets[0].target.as_str(), targets[0].source.as_str()), ("gate", "default gateway"));
    assert_eq!(local_targets(None, &traced).len(), 1);

    let times = |min: &str| printed(&format!("rtt min/avg/max/mdev = {}/9/9/0 ms\n", min), "");
    let floor = measure_local_rtt_floor(
        &targets,
        &vec![vec![times("3"), printed("", ""), times("2")], vec![times("2"), times("4")]],
        &read,
    )
    .expect("floor should exist");
    assert_eq!(floor.target, "gate");
    assert_eq!(floor.source, "default gateway");
    assert_eq!(floor.min_ms, double(2.0));

    let floor = measure_local_rtt_floor(&targets, &vec![vec![], vec![times("4")]], &read)
        .expect("floor should exist");
    assert_eq!(floor.target, "hop");
    assert!(measure_local_rtt_floor(&targets, &vec![vec![], vec![]], &read).is_none());
}

#[test]
fn single_silent_round_is_noted() {
    let measurement = probe_anchor(
        builtin_anchors()[0],
        &config(1),
        &vec![round(vec!["a"], vec![bad(vec!["n"])])],
    );
    assert_eq!(
        measurement.notes,
        vec!["round 1: no usable RTT sample across 1 target(s)", "round 1: a: n"]
    );
    assert!(measurement.ping.is_none());
}
