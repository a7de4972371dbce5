//! The cache of timing floors.

use etherwhere::anchors::builtin_anchors;
use etherwhere::cache::{cached_ping_to_stats, CachedPing, ProbeCache};
use etherwhere::double::Double;
use etherwhere::probe::{LocalRttFloor, Measurement, PingStats, ProbeMethod};

fn double(value: f64) -> Double {
    Double { bits: value.to_bits() }
}

fn read(text: &str) -> Option<Double> {
    text.parse::<f64>().ok().map(double)
}

fn show(value: Double, decimals: u8) -> String {
    format!("{:.*}", usize::from(decimals), f64::from_bits(value.bits))
}

fn measured(index: usize, method: ProbeMethod, min_ms: f64) -> Measurement {
    Measurement {
        anchor: builtin_anchors()[index],
        resolved_ip: None,
        ping: Some(PingStats {
            method,
            transmitted: 1,
            received: 1,
            min_ms: double(min_ms),
            avg_ms: double(min_ms),
            max_ms: double(min_ms),
            mdev_ms: double(0.0),
        }),
        trace: None,
        cache_age_days: None,
        cache_uncertainty_ms: double(0.0),
        notes: Vec::new(),
    }
}

#[test]
fn parses_and_renders_cache() {
    let content = "\
version 1
local_rtt_floor_ms 0.230000
tcp_bias_ms 1.890000
anchor eu-central-1 icmp 0.290000
anchor ca-central-1 tcp/443 90.750000
";
    let cache = ProbeCache::parse(content, &read);

    assert_eq!(cache.local_rtt_floor_ms, Some(double(0.23)));
    assert_eq!(cache.tcp_bias_ms, Some(double(1.89)));
    assert_eq!(
        cache.anchor_floors.get("eu-central-1"),
        Some(&CachedPing {
            method: ProbeMethod::Icmp,
            min_ms: double(0.29),
        })
    );
    assert_eq!(
        cache.anchor_floors.get("ca-central-1"),
        Some(&CachedPing {
            method: ProbeMethod::Tcp { port: 443 },
            min_ms: double(90.75),
        })
    );

    let rendered = cache.render(&show);
    assert!(rendered.contains("anchor eu-central-1 icmp 0.290000"));
    assert!(rendered.contains("anchor ca-central-1 tcp/443 90.750000"));
}

#[test]
fn keeps_lower_anchor_floor() {
    let mut cache = ProbeCache::default();
    cache.update_anchor("eu-central-1", ProbeMethod::Icmp, double(0.50));
    cache.update_anchor("eu-central-1", ProbeMethod::Tcp { port: 443 }, double(0.80));
    cache.update_anchor("eu-central-1", ProbeMethod::Icmp, double(0.29));

    assert_eq!(
        cache.anchor_floors.get("eu-central-1"),
        Some(&CachedPing {
            method: ProbeMethod::Icmp,
            min_ms: double(0.29),
        })
    );
}

#[test]
fn renders_every_line_of_the_cache() {
    let mut cache = ProbeCache::default();
    assert_eq!(cache.render(&show), "version 1\n");

    cache.update_anchor("us-east-1", ProbeMethod::Tcp { port: 80 }, double(7.5));
    cache.update_anchor("eu-central-1", ProbeMethod::Icmp, double(0.25));
    cache.update_tcp_bias(double(1.5));
    assert_eq!(
        cache.render(&show),
        "version 1\ntcp_bias_ms 1.500000\nanchor eu-central-1 icmp 0.250000\nanchor us-east-1 tcp/80 7.500000\n"
    );
}

#[test]
fn text_gives_the_cache_back() {
    let mut cache = ProbeCache::default();
    cache.update_anchor("us-east-1", ProbeMethod::Tcp { port: 80 }, double(7.5));
    cache.update_anchor("eu-central-1", ProbeMethod::Icmp, double(0.25));
    cache.update_tcp_bias(double(1.5));
    let text = cache.render(&show);
    let again = ProbeCache::parse(&text, &read);
    assert_eq!(again, cache);
    assert_eq!(again.render(&show), text);
}

#[test]
fn reading_skips_what_it_does_not_know() {
    let content = "\n  # comment\r\nversion 2\nanchor a icmp\nanchor a smoke 1.0\nanchor a icmp fast\n\
anchor a icmp -1.0\nanchor a icmp NaN\nanchor a icmp inf\nanchor a icmp 0\nunknown 3\n";
    let cache = ProbeCache::parse(content, &read);
    assert_eq!(cache, ProbeCache::default());
    assert_eq!(cache.anchor_floors.len(), 0);
}

#[test]
fn last_shared_value_wins_and_may_be_lost() {
    let cache = ProbeCache::parse("tcp_bias_ms 1.0\ntcp_bias_ms 3.0\n", &read);
    assert_eq!(cache.tcp_bias_ms, Some(double(3.0)));
    let cache = ProbeCache::parse("local_rtt_floor_ms 1.0\nlocal_rtt_floor_ms x\n", &read);
    assert_eq!(cache.local_rtt_floor_ms, None);
}

#[test]
fn measurements_lower_floors() {
    let mut cache = ProbeCache::default();
    let id = builtin_anchors()[0].id;
    cache.update_anchor(id, ProbeMethod::Icmp, double(5.0));
    cache.update_anchor("other", ProbeMethod::Icmp, double(9.0));
    let list = vec![
        measured(0, ProbeMethod::Icmp, 6.0),
        measured(0, ProbeMethod::Tcp { port: 443 }, 4.0),
        measured(0, ProbeMethod::Icmp, 4.0),
        measured(0, ProbeMethod::Icmp, f64::NAN),
    ];
    cache.update_from_measurements(&list);
    let floor = *cache.anchor_floors.get(id).expect("floor should exist");
    assert_eq!(floor.method, ProbeMethod::Tcp { port: 443 });
    assert_eq!(floor.min_ms, double(4.0));
    assert_eq!(
        cache.anchor_floors.get("other").map(|floor| floor.min_ms),
        Some(double(9.0))
    );
    assert_eq!(cache.anchor_floors.len(), 2);
    let before = cache.clone();
    cache.update_from_measurements(&list);
    assert_eq!(cache, before);
}

#[test]
fn shared_values_only_fall() {
    let mut cache = ProbeCache::default();
    cache.update_tcp_bias(double(-1.0));
    cache.update_tcp_bias(double(f64::INFINITY));
    assert_eq!(cache.tcp_bias_ms, None);
    cache.update_tcp_bias(double(2.0));
    cache.update_tcp_bias(double(3.0));
    assert_eq!(cache.tcp_bias_ms, Some(double(2.0)));

    cache.update_local_rtt_floor(None);
    assert_eq!(cache.local_rtt_floor_ms, None);
    for min_ms in [0.5, 0.25, 0.75] {
        cache.update_local_rtt_floor(Some(&LocalRttFloor {
            target: "gateway".to_string(),
            source: "test".to_string(),
            min_ms: double(min_ms),
        }));
    }
    assert_eq!(cache.local_rtt_floor_ms, Some(double(0.25)));
}

#[test]
fn floor_makes_a_probe_of_one() {
    let stats = cached_ping_to_stats(&CachedPing {
        method: ProbeMethod::Tcp { port: 80 },
        min_ms: double(3.5),
    });
    assert_eq!(
        stats,
        PingStats {
            method: ProbeMethod::Tcp { port: 80 },
            transmitted: 1,
            received: 1,
            min_ms: double(3.5),
            avg_ms: double(3.5),
            max_ms: double(3.5),
            mdev_ms: double(0.0),
        }
    );
}

#[test]
fn two_texts_read_as_one() {
    let first = "version 1\r\nlocal_rtt_floor_ms 0.5\ntcp_bias_ms 2.0\nanchor a icmp 3.0\n\
anchor b tcp/80 4.0\nanchor d icmp 1.0\r";
    let second = "anchor a tcp/443 2.0\nanchor b icmp 4.0\nanchor c icmp 9.0\n\
local_rtt_floor_ms 0.7\nanchor d icmp 5.0\nanchor e icmp 0.0\n";
    let cache = ProbeCache::parse(&format!("{first}\n{second}"), &read);
    let floor = |id: &str| cache.anchor_floors.get(id).map(|ping| (ping.method, ping.min_ms));
    assert_eq!(cache.anchor_floors.len(), 4);
    assert_eq!(floor("a"), Some((ProbeMethod::Tcp { port: 443 }, double(2.0))));
    assert_eq!(floor("b"), Some((ProbeMethod::Tcp { port: 80 }, double(4.0))));
    assert_eq!(floor("c"), Some((ProbeMethod::Icmp, double(9.0))));
    assert_eq!(floor("d"), Some((ProbeMethod::Icmp, double(1.0))));
    assert_eq!(floor("e"), None);
    assert_eq!(cache.local_rtt_floor_ms, Some(double(0.7)));
    assert_eq!(cache.tcp_bias_ms, Some(double(2.0)));
}

#[test]
fn rounded_text_is_written_again() {
    let mut cache = ProbeCache::default();
    cache.update_anchor("b", ProbeMethod::Tcp { port: 80 }, double(1.0 / 3.0));
    cache.update_anchor("a", ProbeMethod::Icmp, double(2.0 / 3.0));
    cache.update_tcp_bias(double(10.0 / 7.0));
    let text = cache.render(&show);
    let again = ProbeCache::parse(&text, &read);
    assert_ne!(again, cache);
    assert_eq!(again.render(&show), text);
    assert_eq!(again.anchor_floors.get("a").map(|ping| ping.method), Some(ProbeMethod::Icmp));
    assert_eq!(again.anchor_floors.get("b").map(|ping| ping.min_ms), Some(double(0.333333)));
    assert_eq!(again.tcp_bias_ms, Some(double(1.428571)));
}

#[test]
fn tiny_floor_is_lost_in_the_text() {
    let mut cache = ProbeCache::default();
    cache.update_anchor("a", ProbeMethod::Icmp, double(0.0000001));
    assert_eq!(cache.anchor_floors.len(), 1);
    assert_eq!(ProbeCache::parse(&cache.render(&show), &read).anchor_floors.len(), 0);
}
