//! What commands print, and what is made of it.

use etherwhere::double::Double;
use etherwhere::ping::parse_ping_output;
use etherwhere::probe::{ProbeMethod, TraceHop};
use etherwhere::trace::{parse_tracepath_output, push_or_merge_hop};

fn double(value: f64) -> Double {
    Double { bits: value.to_bits() }
}

fn number(value: Double) -> f64 {
    f64::from_bits(value.bits)
}

fn read(text: &str) -> Option<Double> {
    text.parse::<f64>().ok().map(double)
}

#[test]
fn parses_ping_stats() {
    let stdout = r#"PING ec2.eu-central-1.amazonaws.com (52.94.137.21) 56(84) bytes of data.
64 bytes from 52.94.137.21: icmp_seq=1 ttl=244 time=1.16 ms
64 bytes from 52.94.137.21: icmp_seq=2 ttl=244 time=1.05 ms

--- ec2.eu-central-1.amazonaws.com ping statistics ---
2 packets transmitted, 2 received, 0% packet loss, time 1001ms
rtt min/avg/max/mdev = 1.051/1.104/1.158/0.053 ms
"#;
    let parsed = parse_ping_output(stdout, "", &read);
    let stats = parsed.stats.expect("stats should parse");

    assert_eq!(stats.transmitted, 2);
    assert_eq!(stats.received, 2);
    assert_eq!(stats.method, ProbeMethod::Icmp);
    assert!((number(stats.min_ms) - 1.051).abs() < 0.0001);
}

#[test]
fn parses_tracepath_hops() {
    let stdout = r#" 1?: [LOCALHOST]                      pmtu 1500
 1:  5.101.109.1                                           1.212ms
 2:  143.244.192.112                                       0.798ms
 3:  143.244.224.110                                       1.434ms asymm  5
 4:  no reply
     Too many hops: pmtu 1500
"#;
    let parsed = parse_tracepath_output(stdout, "", &read);
    let summary = parsed.summary.expect("trace should parse");

    assert_eq!(summary.hops.len(), 4);
    assert_eq!(summary.hops[0].hop, 1);
    assert_eq!(summary.hops[0].address.as_deref(), Some("5.101.109.1"));
    assert!(summary.hops[0].hostname.is_none());
    assert_eq!(summary.hops[3].note.as_deref(), Some("no reply"));
}

#[test]
fn every_time_of_a_ping_is_read() {
    let stdout = "5 packets transmitted, 4 received, 20% packet loss\nrtt min/avg/max/mdev = 1.5/2.5/3.5/0.5 ms\n";
    let stats = parse_ping_output(stdout, "", &read).stats.expect("stats should parse");
    assert_eq!(stats.transmitted, 5);
    assert_eq!(stats.received, 4);
    assert_eq!(stats.min_ms, double(1.5));
    assert_eq!(stats.avg_ms, double(2.5));
    assert_eq!(stats.max_ms, double(3.5));
    assert_eq!(stats.mdev_ms, double(0.5));
}

#[test]
fn ping_without_replies_is_noted() {
    let parsed = parse_ping_output("3 packets transmitted, 0 received\n", " unreachable \n", &read);
    assert!(parsed.stats.is_none());
    assert_eq!(parsed.notes, vec!["unreachable", "no ICMP replies"]);

    let parsed = parse_ping_output("3 packets transmitted, 1 received\n", "", &read);
    assert!(parsed.stats.is_none());
    assert!(parsed.notes.is_empty());

    let parsed = parse_ping_output("", "", &read);
    assert_eq!(parsed.notes, vec!["no ICMP replies"]);
}

#[test]
fn broken_times_of_a_ping_are_skipped() {
    let parsed = parse_ping_output(
        "rtt min/avg/max/mdev = 1/2/3 ms\nrtt min/avg/max/mdev = 1/2/x/4 ms\n",
        "",
        &read,
    );
    assert!(parsed.stats.is_none());
}

#[test]
fn counts_behind_the_times_come_too_late() {
    let parsed = parse_ping_output(
        "rtt min/avg/max/mdev = 1/2/3/4 ms\n2 packets transmitted, 2 received\n",
        "",
        &read,
    );
    let stats = parsed.stats.expect("stats should parse");
    assert_eq!(stats.transmitted, 0);
    assert_eq!(stats.received, 0);
}

#[test]
fn hops_of_one_number_are_merged() {
    let stdout = " 1:  no reply\n 1:  192.0.2.1  3.5ms pmtu 1500\n 1:  192.0.2.2  2.5ms\n 2:  192.0.2.3  1.5ms asymm  5 \n300:  192.0.2.4  1.5ms\nx: y\n";
    let parsed = parse_tracepath_output(stdout, " odd \n", &read);
    assert_eq!(parsed.notes, vec!["odd"]);
    let hops = parsed.summary.expect("trace should parse").hops;
    assert_eq!(hops.len(), 2);
    assert_eq!(hops[0].hop, 1);
    assert_eq!(hops[0].address.as_deref(), Some("192.0.2.1"));
    assert_eq!(hops[0].rtt_ms, Some(double(2.5)));
    assert_eq!(hops[0].note.as_deref(), Some("pmtu 1500"));
    assert_eq!(hops[1].note.as_deref(), Some("asymm 5"));
}

#[test]
fn trace_without_hops_is_none() {
    let parsed = parse_tracepath_output("no colon here\n 1?: [LOCALHOST]\n", "", &read);
    assert!(parsed.summary.is_none());
    assert!(parsed.notes.is_empty());
}

#[test]
fn hop_without_time_keeps_its_address() {
    let parsed = parse_tracepath_output("2: 192.0.2.1 slow\n", "", &read);
    let hops = parsed.summary.expect("trace should parse").hops;
    assert_eq!(hops[0].address.as_deref(), Some("192.0.2.1"));
    assert_eq!(hops[0].rtt_ms, None);
    assert_eq!(hops[0].note, None);
}

#[test]
fn merging_keeps_the_first_names() {
    let mut hops = vec![TraceHop {
        hop: 4,
        address: None,
        hostname: None,
        rtt_ms: None,
        note: Some("kept".to_string()),
    }];
    push_or_merge_hop(
        &mut hops,
        TraceHop {
            hop: 4,
            address: Some("a".to_string()),
            hostname: Some("h".to_string()),
            rtt_ms: Some(double(1.0)),
            note: Some("lost".to_string()),
        },
    );
    push_or_merge_hop(
        &mut hops,
        TraceHop {
            hop: 4,
            address: Some("b".to_string()),
            hostname: Some("i".to_string()),
            rtt_ms: Some(double(2.0)),
            note: None,
        },
    );
    assert_eq!(hops.len(), 1);
    assert_eq!(hops[0].address.as_deref(), Some("a"));
    assert_eq!(hops[0].hostname.as_deref(), Some("h"));
    assert_eq!(hops[0].rtt_ms, Some(double(1.0)));
    assert_eq!(hops[0].note.as_deref(), Some("kept"));
}

#[test]
fn methods_are_named() {
    assert_eq!(ProbeMethod::Icmp.label(), "icmp");
    assert_eq!(ProbeMethod::Tcp { port: 443 }.label(), "tcp/443");
    assert_eq!(ProbeMethod::Tcp { port: 0 }.label(), "tcp/0");
}

#[test]
fn method_names_are_read_back() {
    for method in [
        ProbeMethod::Icmp,
        ProbeMethod::Tcp { port: 0 },
        ProbeMethod::Tcp { port: 80 },
        ProbeMethod::Tcp { port: 65535 },
    ] {
        assert_eq!(ProbeMethod::parse(&method.label()), Some(method));
    }
    assert_eq!(ProbeMethod::parse("tcp/+80"), Some(ProbeMethod::Tcp { port: 80 }));
    for name in ["", "ICMP", "tcp", "tcp/", "tcp/x", "tcp/65536", "tcp/-1", "udp/53", "tcp/ 80"] {
        assert_eq!(ProbeMethod::parse(name), None, "{}", name);
    }
}
