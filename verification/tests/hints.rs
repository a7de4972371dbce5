//! Hints from names.

use etherwhere::anchors::{builtin_anchors, find_anchor};
use etherwhere::calc::{Arith, Calc};
use etherwhere::double::Double;
use etherwhere::hints::{
    accumulate_matches, builtin_aliases, derive_location_hints, derive_trace_location_hints,
    local_hostname, tokenize, HintWeights, LocationHint,
};
use etherwhere::probe::{Measurement, TraceHop, TraceSummary};

fn double(value: f64) -> Double {
    Double { bits: value.to_bits() }
}

fn number(value: Double) -> f64 {
    f64::from_bits(value.bits)
}

fn step(step: Calc) -> Double {
    double(match step {
        Calc::Count(n) => n as f64,
        Calc::Div(a, b) => number(a) / number(b),
        other => panic!("no other step is needed: {:?}", other),
    })
}

fn traced(index: usize, hops: Vec<TraceHop>) -> Measurement {
    Measurement {
        anchor: builtin_anchors()[index],
        resolved_ip: None,
        ping: None,
        trace: Some(TraceSummary { hops }),
        cache_age_days: None,
        cache_uncertainty_ms: double(0.0),
        notes: Vec::new(),
    }
}

fn hop(hop: u8, address: &str, hostname: &str, rtt_ms: f64) -> TraceHop {
    TraceHop {
        hop,
        address: Some(address.to_string()),
        hostname: Some(hostname.to_string()),
        rtt_ms: Some(double(rtt_ms)),
        note: None,
    }
}

fn trace_hints(measurements: Vec<Measurement>) -> Vec<LocationHint> {
    derive_trace_location_hints(&measurements, &Arith { step })
}

#[test]
fn extracts_frankfurt_hint_from_hostname() {
    let mut weights = HintWeights::new();
    accumulate_matches(
        &mut weights,
        "core1.de-cix-fra.digitalocean.net",
        10,
        None,
        "trace",
    );

    let entry = weights.get("eu-central-1").expect("hint should exist");
    assert_eq!(entry.anchor.metro, "Frankfurt");
    assert!(entry.weight_halves as f64 / 2.0 >= 5.0);
}

#[test]
fn ignores_unrelated_text() {
    let mut weights = HintWeights::new();
    accumulate_matches(&mut weights, "router.edge.example.net", 10, None, "trace");

    assert!(weights.entries.is_empty());
}

#[test]
fn derives_trace_only_hints_from_trace_hostnames() {
    let hints = trace_hints(vec![traced(
        0,
        vec![hop(2, "192.0.2.1", "core1.de-cix-fra.digitalocean.net", 0.8)],
    )]);

    assert_eq!(hints.len(), 1);
    assert_eq!(hints[0].anchor.id, "eu-central-1");
    assert!(number(hints[0].weight) >= 4.0);
    assert_eq!(hints[0].supporting_anchors[0].id, "eu-central-1");
}

#[test]
fn derives_vienna_hint_from_later_trace_hops() {
    let hints = trace_hints(vec![traced(
        0,
        vec![hop(8, "77.244.255.130", "ae10.edge01.ndc2.vie.nessus.at", 23.6)],
    )]);

    assert_eq!(hints.len(), 1);
    assert_eq!(hints[0].anchor.id, "at-vienna-1");
    assert_eq!(hints[0].supporting_anchors[0].id, "eu-central-1");
}

#[test]
fn derives_vienna_hint_from_embedded_code_token() {
    let hints = trace_hints(vec![traced(
        0,
        vec![hop(7, "193.203.0.85", "at-vie09c-ri01.as8412.net", 23.5)],
    )]);

    assert_eq!(hints.len(), 1);
    assert_eq!(hints[0].anchor.id, "at-vienna-1");
    assert!(number(hints[0].weight) >= 2.0);
    assert_eq!(hints[0].supporting_anchors[0].id, "eu-central-1");
}

#[test]
fn case_of_a_name_does_not_matter() {
    let mut weights = HintWeights::new();
    accumulate_matches(&mut weights, "CORE1.VIE.Nessus.AT", 4, None, "trace");
    assert_eq!(weights.entries.len(), 1);
    assert_eq!(weights.entries[0].id, "at-vienna-1");

    // The Kelvin sign has an ASCII letter as its lower case.
    let mut weights = HintWeights::new();
    accumulate_matches(&mut weights, "FRAN\u{212a}FURT", 4, None, "trace");
    assert_eq!(weights.entries.len(), 1);
    assert_eq!(weights.entries[0].id, "eu-central-1");
}

#[test]
fn weights_by_hop_and_no_more_than_twelve() {
    let name = "ae10.vie.example.net";
    let weights: Vec<f64> = (0..=9)
        .map(|n| {
            let hints = trace_hints(vec![traced(0, vec![hop(n, "192.0.2.1", name, 1.0)])]);
            number(hints[0].weight)
        })
        .collect();
    assert_eq!(weights, vec![1.0, 5.0, 4.0, 3.0, 2.0, 1.5, 1.5, 2.0, 2.0, 1.0]);

    let hops: Vec<TraceHop> = (1..=3).map(|n| hop(n, "192.0.2.1", name, 1.0)).collect();
    let hints = trace_hints(vec![traced(0, hops.clone())]);
    assert_eq!(number(hints[0].weight), 12.0);
    let hints = trace_hints(vec![traced(0, hops.clone()), traced(1, hops)]);
    assert_eq!(number(hints[0].weight), 12.0);
}

#[test]
fn only_first_ten_hops_count() {
    let mut hops: Vec<TraceHop> = (1..=10).map(|n| hop(n, "192.0.2.1", "plain", 1.0)).collect();
    hops.push(hop(11, "192.0.2.1", "vie", 1.0));
    assert!(trace_hints(vec![traced(0, hops)]).is_empty());
}

#[test]
fn sources_and_supporters_are_listed_in_order() {
    let hints = trace_hints(vec![
        traced(4, vec![hop(2, "192.0.2.1", "vie.example.net", 1.0)]),
        traced(0, vec![hop(3, "192.0.2.2", "vie.example.net", 1.0)]),
        traced(4, vec![hop(4, "192.0.2.3", "vie.example.net", 1.0)]),
    ]);
    let anchors = builtin_anchors();
    assert_eq!(hints.len(), 1);
    assert_eq!(
        hints[0].source,
        format!(
            "{a} hop 2 hostname=vie.example.net | {b} hop 3 hostname=vie.example.net | {a} hop 4 hostname=vie.example.net",
            a = anchors[4].label(),
            b = anchors[0].label()
        )
    );
    let mut ids = vec![anchors[0].id, anchors[4].id];
    ids.sort();
    let supporters: Vec<&str> = hints[0].supporting_anchors.iter().map(|a| a.id).collect();
    assert_eq!(supporters, ids);
    assert_eq!(number(hints[0].weight), 9.0);
}

#[test]
fn hints_come_by_ascending_id() {
    let hints = trace_hints(vec![traced(
        0,
        vec![hop(1, "192.0.2.1", "vie-fra-gru-cpt.example.net", 1.0)],
    )]);
    let ids: Vec<&str> = hints.iter().map(|hint| hint.anchor.id).collect();
    assert_eq!(ids, vec!["af-south-1", "at-vienna-1", "eu-central-1", "sa-east-1"]);
}

#[test]
fn local_name_counts_without_support() {
    let hints = derive_location_hints(
        &Some("host.vie.example.net".to_string()),
        &vec![],
        &Arith { step },
    );
    assert_eq!(hints.len(), 1);
    assert_eq!(hints[0].anchor.id, "at-vienna-1");
    assert_eq!(number(hints[0].weight), 1.5);
    assert_eq!(hints[0].source, "local hostname=host.vie.example.net");
    assert!(hints[0].supporting_anchors.is_empty());

    let hints = derive_location_hints(
        &None,
        &vec![traced(0, vec![hop(1, "192.0.2.1", "vie", 1.0)])],
        &Arith { step },
    );
    assert_eq!(hints.len(), 1);
    assert_eq!(number(hints[0].weight), 5.0);
}

#[test]
fn tokens_of_a_name() {
    assert_eq!(
        tokenize("at-vie09c-ri01.as8412.net"),
        vec!["as8412", "at", "net", "ri01", "vie", "vie09c"]
    );
    assert_eq!(tokenize("12abc34def"), vec!["12abc34def", "def"]);
    assert_eq!(tokenize("-.-"), Vec::<String>::new());
}

#[test]
fn every_alias_names_a_listed_anchor() {
    let anchors = builtin_anchors();
    for alias in builtin_aliases() {
        assert!(find_anchor(&anchors, alias.id).is_some(), "{}", alias.id);
    }
}

#[test]
fn hostname_is_trimmed() {
    assert_eq!(local_hostname(" host \n"), Some("host".to_string()));
    assert_eq!(local_hostname(" \n"), None);
}

#[test]
fn tokens_of_a_text_are_those_of_its_parts() {
    let (a, b) = ("core1.de-cix-fra", "as8412vie ae10");
    for separator in ['.', '-', ' ', '_', '\u{e9}'] {
        let mut parts = tokenize(a);
        parts.extend(tokenize(b));
        parts.sort();
        parts.dedup();
        assert_eq!(tokenize(&format!("{a}{separator}{b}")), parts);
    }
}

#[test]
fn tokens_of_tokens_are_the_same() {
    for text in ["", "...", "fra", "at-vie09c-ri01.as8412.net", "ABC1def 2ghi3", "12ab34cde"] {
        let tokens = tokenize(text);
        assert_eq!(tokenize(&tokens.join(".")), tokens);
    }
    assert_eq!(tokenize("vie09fra"), vec!["fra", "vie", "vie09fra"]);
}

#[test]
fn order_of_routes_does_not_matter() {
    let routes = |order: [usize; 3]| {
        let all = [
            traced(0, vec![hop(2, "192.0.2.1", "core1.fra.example.net", 0.8)]),
            traced(3, vec![hop(8, "192.0.2.2", "vie.example.net", 5.0)]),
            traced(
                1,
                vec![
                    hop(1, "192.0.2.3", "frankfurt.example.net", 1.0),
                    hop(3, "192.0.2.4", "vienna.vie.example.net", 2.0),
                ],
            ),
        ];
        trace_hints(order.into_iter().map(|index| all[index].clone()).collect())
    };
    let first = routes([0, 1, 2]);
    assert_eq!(first.len(), 2);
    for order in [[0, 2, 1], [1, 0, 2], [1, 2, 0], [2, 0, 1], [2, 1, 0]] {
        let second = routes(order);
        assert_eq!(second.len(), first.len());
        for (a, b) in first.iter().zip(second.iter()) {
            assert_eq!(a.anchor.id, b.anchor.id);
            assert_eq!(a.weight, b.weight);
            let ids = |hint: &LocationHint| -> Vec<&'static str> {
                hint.supporting_anchors.iter().map(|anchor| anchor.id).collect()
            };
            assert_eq!(ids(a), ids(b));
        }
    }
    let reversed = routes([2, 1, 0]);
    assert_ne!(first[1].source, reversed[1].source);
}

#[test]
fn local_name_alone_gives_a_hint() {
    let hints = derive_location_hints(&Some("fra1".to_string()), &vec![], &Arith { step });
    assert_eq!(hints.len(), 1);
    assert_eq!(hints[0].anchor.id, "eu-central-1");
    assert_eq!(number(hints[0].weight), 1.5);
    assert_eq!(hints[0].source, "local hostname=fra1");
    assert!(hints[0].supporting_anchors.is_empty());
}

#[test]
fn silent_local_name_adds_nothing() {
    let list = vec![traced(0, vec![hop(2, "192.0.2.1", "core1.fra.example.net", 0.8)])];
    let routes = trace_hints(list.clone());
    for name in [None, Some("workstation".to_string()), Some(String::new())] {
        let hints = derive_location_hints(&name, &list, &Arith { step });
        assert_eq!(hints.len(), routes.len());
        assert_eq!(hints[0].anchor.id, routes[0].anchor.id);
        assert_eq!(hints[0].weight, routes[0].weight);
        assert_eq!(hints[0].source, routes[0].source);
        assert_eq!(hints[0].supporting_anchors.len(), routes[0].supporting_anchors.len());
    }
}
