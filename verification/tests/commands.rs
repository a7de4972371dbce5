//! Arguments and small outputs.

use etherwhere::commands::{
    collect_ips, default_gateway_ip, local_candidates, local_trace_config, ping_args,
    resolve_anchor_ips, reverse_lookup_ip, tcp_probe_ports, tcp_stats, tracepath_args,
    tracepath_local_candidates, ResolvedAddress,
};
use etherwhere::double::Double;
use etherwhere::probe::{CommandOutput, PingStats, ProbeConfig, ProbeMethod, TraceHop};

fn double(value: f64) -> Double {
    Double { bits: value.to_bits() }
}

fn read(text: &str) -> Option<Double> {
    text.parse::<f64>().ok().map(double)
}

fn config(timeout_ms: u64, trace_hops: u8) -> ProbeConfig {
    ProbeConfig { ping_count: 3, timeout_ms, trace_hops, rounds: 2 }
}

fn address(ip: &str, is_ipv4: bool) -> ResolvedAddress {
    ResolvedAddress { ip: ip.to_string(), is_ipv4 }
}

#[test]
fn ping_waits_whole_seconds() {
    assert_eq!(
        ping_args("192.0.2.1", &config(1000, 8)),
        vec!["-4", "-n", "-c", "3", "-W", "1", "192.0.2.1"]
    );
    for (timeout_ms, secs) in [
        (0, "1"),
        (1, "1"),
        (999, "1"),
        (1001, "2"),
        (2000, "2"),
        (u64::MAX, "18446744073709552"),
    ] {
        assert_eq!(ping_args("h", &config(timeout_ms, 8))[5], secs);
    }
}

#[test]
fn tracepath_is_told_the_hops() {
    assert_eq!(tracepath_args("host", &config(1000, 12)), vec!["-n", "-m", "12", "host"]);
}

#[test]
fn gateway_is_behind_via() {
    assert_eq!(
        default_gateway_ip("default via 192.0.2.1 dev eth0 proto dhcp\n"),
        Some("192.0.2.1".to_string())
    );
    assert_eq!(
        default_gateway_ip("default dev tun0\ndefault via\ndefault via 192.0.2.9 dev eth0 via x\n"),
        Some("192.0.2.9".to_string())
    );
    assert_eq!(default_gateway_ip(""), None);
}

#[test]
fn name_of_an_address() {
    let stdout = "192.0.2.2 other\n192.0.2.1\n192.0.2.1   router.example.net alias\n";
    assert_eq!(
        reverse_lookup_ip(stdout, "192.0.2.1"),
        Some("router.example.net".to_string())
    );
    assert_eq!(reverse_lookup_ip(stdout, "192.0.2.3"), None);
}

#[test]
fn addresses_come_once_and_version_four_first() {
    let first = vec![
        address("2001:db8::1", false),
        address("192.0.2.1", true),
        address("192.0.2.2", true),
        address("192.0.2.1", true),
    ];
    assert_eq!(resolve_anchor_ips(&first, &vec![]), vec!["192.0.2.1", "192.0.2.2"]);
    assert_eq!(collect_ips(&first, false), vec!["2001:db8::1", "192.0.2.1", "192.0.2.2"]);

    let only_six = vec![address("2001:db8::1", false), address("2001:db8::1", false)];
    assert_eq!(resolve_anchor_ips(&only_six, &only_six), vec!["2001:db8::1"]);
    assert_eq!(resolve_anchor_ips(&vec![], &vec![]), Vec::<String>::new());
}

#[test]
fn local_trace_takes_two_or_three_hops() {
    for (given, used) in [(0, 2), (1, 2), (2, 2), (3, 3), (4, 3), (255, 3)] {
        let local = local_trace_config(&config(1000, given));
        assert_eq!(local.trace_hops, used);
        assert_eq!(local.ping_count, 3);
        assert_eq!(local.rounds, 2);
        assert_eq!(local.timeout_ms, 1000);
    }
}

#[test]
fn first_two_hops_are_local_candidates() {
    let output = CommandOutput {
        stdout: " 1: 192.0.2.1 1.0ms\n 2: no reply\n 3: 192.0.2.3 1.0ms\n".to_string(),
        stderr: String::new(),
    };
    let candidates = tracepath_local_candidates(&output, &read);
    assert_eq!(candidates.len(), 1);
    assert_eq!(candidates[0].target, "192.0.2.1");
    assert_eq!(candidates[0].source, "tracepath hop 1");

    let hop = |hop: u8| TraceHop {
        hop,
        address: Some("192.0.2.1".to_string()),
        hostname: None,
        rtt_ms: None,
        note: None,
    };
    assert_eq!(local_candidates(&vec![hop(1), hop(2)]).len(), 1);

    let nothing = CommandOutput { stdout: String::new(), stderr: String::new() };
    assert!(tracepath_local_candidates(&nothing, &read).is_empty());
}

#[test]
fn handshakes_are_single_samples() {
    assert_eq!(tcp_probe_ports(), vec![443, 80]);
    assert_eq!(
        tcp_stats(80, double(12.5)),
        PingStats {
            method: ProbeMethod::Tcp { port: 80 },
            transmitted: 1,
            received: 1,
            min_ms: double(12.5),
            avg_ms: double(12.5),
            max_ms: double(12.5),
            mdev_ms: double(0.0),
        }
    );
}
