//! The commands that a run calls on: their arguments, and what the smaller ones print.

use crate::double::{reads_all, reads_as, Double};
use crate::probe::{CommandOutput, HopView, PingStats, ProbeConfig, ProbeMethod, TraceHop};
use crate::text::{
    decimal, decimal_text, lines, lines_of, maybe_text, same, strings, texts, words, words_of,
};
use crate::trace::{parse_tracepath_output, trace_hops};
use vstd::prelude::*;
use vstd::string::*;

verus! {

/// The whole seconds that a command may wait: the time rounded up, and one at least.
pub open spec fn timeout_secs(timeout_ms: u64) -> nat {
    if timeout_ms == 0 {
        1
    } else {
        ((timeout_ms + 999) / 1000) as nat
    }
}

fn wait_secs(timeout_ms: u64) -> (secs: u64)
    ensures
        secs == timeout_secs(timeout_ms),
{
    if timeout_ms == 0 {
        1
    } else if timeout_ms % 1000 == 0 {
        timeout_ms / 1000
    } else {
        timeout_ms / 1000 + 1
    }
}

/// The arguments of `ping` for this target.
pub fn ping_args(target: &str, config: &ProbeConfig) -> (args: Vec<String>)
    ensures
        strings(args@) == seq![
            "-4"@,
            "-n"@,
            "-c"@,
            decimal(config.ping_count as nat),
            "-W"@,
            decimal(timeout_secs(config.timeout_ms)),
            target@,
        ],
{
    let mut args: Vec<String> = Vec::new();
    args.push("-4".to_owned());
    args.push("-n".to_owned());
    args.push("-c".to_owned());
    args.push(decimal_text(config.ping_count as u64));
    args.push("-W".to_owned());
    args.push(decimal_text(wait_secs(config.timeout_ms)));
    args.push(target.to_owned());
    assert(strings(args@) =~= seq![
        "-4"@,
        "-n"@,
        "-c"@,
        decimal(config.ping_count as nat),
        "-W"@,
        decimal(timeout_secs(config.timeout_ms)),
        target@,
    ]);
    args
}

/// The arguments of `tracepath` for this target.
pub fn tracepath_args(target: &str, config: &ProbeConfig) -> (args: Vec<String>)
    ensures
        strings(args@) == seq!["-n"@, "-m"@, decimal(config.trace_hops as nat), target@],
{
    let mut args: Vec<String> = Vec::new();
    args.push("-n".to_owned());
    args.push("-m".to_owned());
    args.push(decimal_text(config.trace_hops as u64));
    args.push(target.to_owned());
    assert(strings(args@) =~= seq!["-n"@, "-m"@, decimal(config.trace_hops as nat), target@]);
    args
}

/// The position of the first `word`, or one behind the last.
pub open spec fn word_position(found: Seq<Seq<char>>, word: Seq<char>) -> int
    decreases found.len(),
{
    if found.len() == 0 || found[0] == word {
        0
    } else {
        1 + word_position(found.skip(1), word)
    }
}

/// The gateway that the words of a route name: the word behind the first `via`.
pub open spec fn gateway_of_route(found: Seq<Seq<char>>) -> Option<Seq<char>> {
    let at = word_position(found, "via"@);
    if at + 1 < found.len() {
        Some(found[at + 1])
    } else {
        None
    }
}

/// The gateway of the first of these routes that names one.
pub open spec fn gateway_of_routes(routes: Seq<Seq<char>>) -> Option<Seq<char>>
    decreases routes.len(),
{
    if routes.len() == 0 {
        None
    } else {
        match gateway_of_route(words(routes[0])) {
            Some(gateway) => Some(gateway),
            None => gateway_of_routes(routes.skip(1)),
        }
    }
}

fn route_gateway(route: &str) -> (gateway: Option<String>)
    ensures
        maybe_text(gateway) == gateway_of_route(words(route@)),
{
    let found = words_of(route);
    let ghost all = texts(found@);
    let mut i: usize = 0;
    assert(all.skip(0) =~= all);
    while i < found.len() && !same(found[i], "via")
        invariant
            all == texts(found@),
            i <= found@.len(),
            word_position(all, "via"@) == i + word_position(all.skip(i as int), "via"@),
        decreases found@.len() - i,
    {
        assert(all.skip(i as int)[0] == found@[i as int]@);
        assert(all.skip(i as int).skip(1) =~= all.skip(i + 1));
        i = i + 1;
    }
    if i < found.len() {
        assert(all.skip(i as int)[0] == found@[i as int]@);
        if i + 1 < found.len() {
            return Some(found[i + 1].to_owned());
        }
    }
    None
}

/// The default gateway, from what `ip route show default` printed.
pub fn default_gateway_ip(stdout: &str) -> (gateway: Option<String>)
    ensures
        maybe_text(gateway) == gateway_of_routes(lines(stdout@)),
{
    let routes = lines_of(stdout);
    let ghost all = texts(routes@);
    let mut i: usize = 0;
    assert(all.skip(0) =~= all);
    while i < routes.len()
        invariant
            all == texts(routes@),
            all == lines(stdout@),
            i <= routes@.len(),
            gateway_of_routes(all) == gateway_of_routes(all.skip(i as int)),
        decreases routes@.len() - i,
    {
        assert(all.skip(i as int)[0] == routes@[i as int]@);
        let gateway = route_gateway(routes[i]);
        if gateway.is_some() {
            return gateway;
        }
        assert(all.skip(i as int).skip(1) =~= all.skip(i + 1));
        i = i + 1;
    }
    None
}

/// The name that the words of a hosts entry give this address.
pub open spec fn name_in_entry(found: Seq<Seq<char>>, ip: Seq<char>) -> Option<Seq<char>> {
    if found.len() >= 2 && found[0] == ip {
        Some(found[1])
    } else {
        None
    }
}

/// The name that the first of these hosts entries to do so gives this address.
pub open spec fn name_in_entries(entries: Seq<Seq<char>>, ip: Seq<char>) -> Option<Seq<char>>
    decreases entries.len(),
{
    if entries.len() == 0 {
        None
    } else {
        match name_in_entry(words(entries[0]), ip) {
            Some(name) => Some(name),
            None => name_in_entries(entries.skip(1), ip),
        }
    }
}

/// The name of this address, from what `getent hosts` printed.
pub fn reverse_lookup_ip(stdout: &str, ip: &str) -> (name: Option<String>)
    ensures
        maybe_text(name) == name_in_entries(lines(stdout@), ip@),
{
    let entries = lines_of(stdout);
    let ghost all = texts(entries@);
    let mut i: usize = 0;
    assert(all.skip(0) =~= all);
    while i < entries.len()
        invariant
            all == texts(entries@),
            all == lines(stdout@),
            i <= entries@.len(),
            name_in_entries(all, ip@) == name_in_entries(all.skip(i as int), ip@),
        decreases entries@.len() - i,
    {
        assert(all.skip(i as int)[0] == entries@[i as int]@);
        let found = words_of(entries[i]);
        if found.len() >= 2 {
            assert(texts(found@)[0] == found@[0]@);
            assert(texts(found@)[1] == found@[1]@);
            if same(found[0], ip) {
                return Some(found[1].to_owned());
            }
        }
        assert(all.skip(i as int).skip(1) =~= all.skip(i + 1));
        i = i + 1;
    }
    None
}

/// An address that a host name was resolved to.
#[derive(Debug, Clone)]
pub struct ResolvedAddress {
    pub ip: String,
    pub is_ipv4: bool,
}

/// What a `ResolvedAddress` stands for.
pub struct AddressView {
    pub ip: Seq<char>,
    pub is_ipv4: bool,
}

/// What a list of addresses stands for.
pub open spec fn address_views(list: Seq<ResolvedAddress>) -> Seq<AddressView> {
    Seq::new(list.len(), |i: int| AddressView { ip: list[i].ip@, is_ipv4: list[i].is_ipv4 })
}

/// The addresses, each once and in order of their first appearance. Those of
/// version 6 are left out on demand.
pub open spec fn distinct_ips(list: Seq<AddressView>, ipv4_only: bool) -> Seq<Seq<char>>
    decreases list.len(),
{
    if list.len() == 0 {
        Seq::<Seq<char>>::empty()
    } else {
        let before = distinct_ips(list.drop_last(), ipv4_only);
        let last = list.last();
        if (ipv4_only && !last.is_ipv4) || before.contains(last.ip) {
            before
        } else {
            before.push(last.ip)
        }
    }
}

fn string_among(list: &Vec<String>, item: &str) -> (yes: bool)
    ensures
        yes == strings(list@).contains(item@),
{
    let mut i: usize = 0;
    while i < list.len()
        invariant
            i <= list@.len(),
            forall|j: int| 0 <= j < i ==> #[trigger] strings(list@)[j] != item@,
        decreases list@.len() - i,
    {
        if same(list[i].as_str(), item) {
            assert(strings(list@)[i as int] == item@);
            return true;
        }
        i = i + 1;
    }
    false
}

/// The addresses, each once and in order of their first appearance.
pub fn collect_ips(list: &Vec<ResolvedAddress>, ipv4_only: bool) -> (ips: Vec<String>)
    ensures
        strings(ips@) == distinct_ips(address_views(list@), ipv4_only),
{
    let ghost all = address_views(list@);
    let mut ips: Vec<String> = Vec::new();
    let mut i: usize = 0;
    assert(strings(ips@) =~= distinct_ips(all.take(0), ipv4_only));
    while i < list.len()
        invariant
            all == address_views(list@),
            i <= list@.len(),
            strings(ips@) == distinct_ips(all.take(i as int), ipv4_only),
        decreases list@.len() - i,
    {
        assert(all.take(i + 1).drop_last() =~= all.take(i as int));
        let ghost before = strings(ips@);
        let address = &list[i];
        if (address.is_ipv4 || !ipv4_only) && !string_among(&ips, address.ip.as_str()) {
            ips.push(address.ip.clone());
            assert(strings(ips@) =~= before.push(address.ip@));
        }
        i = i + 1;
    }
    assert(all.take(list@.len() as int) =~= all);
    ips
}

/// The addresses of an anchor: those of version 4 of the first answer, or where
/// there are none, all of the second answer.
pub fn resolve_anchor_ips(
    first: &Vec<ResolvedAddress>,
    second: &Vec<ResolvedAddress>,
) -> (ips: Vec<String>)
    ensures
        strings(ips@) == (if distinct_ips(address_views(first@), true).len() > 0 {
            distinct_ips(address_views(first@), true)
        } else {
            distinct_ips(address_views(second@), false)
        }),
{
    let ips = collect_ips(first, true);
    assert(strings(ips@).len() == ips@.len());
    if ips.len() > 0 {
        ips
    } else {
        collect_ips(second, false)
    }
}

/// No address is collected twice.
pub proof fn lemma_distinct_ips(list: Seq<AddressView>, ipv4_only: bool)
    ensures
        distinct_ips(list, ipv4_only).no_duplicates(),
        forall|ip: Seq<char>| #[trigger]
            distinct_ips(list, ipv4_only).contains(ip) <==> exists|i: int|
                0 <= i < list.len() && (#[trigger] list[i]).ip == ip && (list[i].is_ipv4
                    || !ipv4_only),
    decreases list.len(),
{
    let all = distinct_ips(list, ipv4_only);
    if list.len() > 0 {
        let shorter = list.drop_last();
        let last = list.last();
        lemma_distinct_ips(shorter, ipv4_only);
        let before = distinct_ips(shorter, ipv4_only);
        assert forall|ip: Seq<char>| #[trigger] all.contains(ip) <==> exists|i: int|
            0 <= i < list.len() && (#[trigger] list[i]).ip == ip && (list[i].is_ipv4
                || !ipv4_only) by {
            if all.contains(ip) {
                let k = choose|k: int| 0 <= k < all.len() && all[k] == ip;
                if k < before.len() {
                    assert(before[k] == ip);
                    assert(before.contains(ip));
                    let i = choose|i: int|
                        0 <= i < shorter.len() && (#[trigger] shorter[i]).ip == ip && (
                        shorter[i].is_ipv4 || !ipv4_only);
                    assert(list[i] == shorter[i]);
                } else {
                    assert(list[list.len() - 1].ip == ip);
                }
            }
            if exists|i: int|
                0 <= i < list.len() && (#[trigger] list[i]).ip == ip && (list[i].is_ipv4
                    || !ipv4_only) {
                let i = choose|i: int|
                    0 <= i < list.len() && (#[trigger] list[i]).ip == ip && (list[i].is_ipv4
                        || !ipv4_only);
                if i < shorter.len() {
                    assert(shorter[i] == list[i]);
                    assert(before.contains(ip));
                    let k = choose|k: int| 0 <= k < before.len() && before[k] == ip;
                    assert(all[k] == ip);
                } else if before.contains(ip) {
                } else {
                    assert(all[before.len() as int] == ip);
                }
            }
        }
    }
}

/// The settings for tracing the way out of the local network: two or three hops.
pub fn local_trace_config(config: &ProbeConfig) -> (local: ProbeConfig)
    ensures
        local == (ProbeConfig {
            trace_hops: if config.trace_hops < 2 {
                2
            } else if config.trace_hops > 3 {
                3
            } else {
                config.trace_hops
            },
            ..*config
        }),
{
    let trace_hops: u8 = if config.trace_hops < 2 {
        2
    } else if config.trace_hops > 3 {
        3
    } else {
        config.trace_hops
    };
    ProbeConfig { trace_hops, ..*config }
}

/// A target near the local host, and how it was found.
pub struct CandidateView {
    pub target: Seq<char>,
    pub source: Seq<char>,
}

/// A target near the local host, and how it was found.
#[derive(Debug, Clone)]
pub struct LocalCandidate {
    pub target: String,
    pub source: String,
}

/// What a list of candidates stands for.
pub open spec fn candidate_views(list: Seq<LocalCandidate>) -> Seq<CandidateView> {
    Seq::new(
        list.len(),
        |i: int| CandidateView { target: list[i].target@, source: list[i].source@ },
    )
}

/// Tells whether one of the candidates has this target.
pub open spec fn has_target(list: Seq<CandidateView>, target: Seq<char>) -> bool {
    exists|i: int| 0 <= i < list.len() && (#[trigger] list[i]).target == target
}

/// The candidates that hops give: their addresses, each once.
pub open spec fn candidates_of_hops(hops: Seq<HopView>) -> Seq<CandidateView>
    decreases hops.len(),
{
    if hops.len() == 0 {
        Seq::<CandidateView>::empty()
    } else {
        let before = candidates_of_hops(hops.drop_last());
        let hop = hops.last();
        match hop.address {
            Some(address) => if has_target(before, address) {
                before
            } else {
                before.push(
                    CandidateView {
                        target: address,
                        source: "tracepath hop "@ + decimal(hop.hop as nat),
                    },
                )
            },
            None => before,
        }
    }
}

/// The first two hops.
pub open spec fn first_two(hops: Seq<HopView>) -> Seq<HopView> {
    if hops.len() > 2 {
        hops.take(2)
    } else {
        hops
    }
}

fn target_among(list: &Vec<LocalCandidate>, target: &str) -> (yes: bool)
    ensures
        yes == has_target(candidate_views(list@), target@),
{
    let ghost all = candidate_views(list@);
    let mut i: usize = 0;
    while i < list.len()
        invariant
            all == candidate_views(list@),
            i <= list@.len(),
            forall|j: int| 0 <= j < i ==> (#[trigger] all[j]).target != target@,
        decreases list@.len() - i,
    {
        if same(list[i].target.as_str(), target) {
            assert(all[i as int].target == target@);
            return true;
        }
        i = i + 1;
    }
    false
}

/// The candidates that the first two hops give.
pub fn local_candidates(hops: &Vec<TraceHop>) -> (candidates: Vec<LocalCandidate>)
    ensures
        candidate_views(candidates@) == candidates_of_hops(
            first_two(crate::probe::hop_views(hops@)),
        ),
{
    let ghost all = first_two(crate::probe::hop_views(hops@));
    let n: usize = if hops.len() > 2 {
        2
    } else {
        hops.len()
    };
    let mut candidates: Vec<LocalCandidate> = Vec::new();
    let mut i: usize = 0;
    assert(candidate_views(candidates@) =~= candidates_of_hops(all.take(0)));
    while i < n
        invariant
            all == first_two(crate::probe::hop_views(hops@)),
            n == all.len(),
            n <= hops@.len(),
            i <= n,
            candidate_views(candidates@) == candidates_of_hops(all.take(i as int)),
        decreases n - i,
    {
        assert(all.take(i + 1).drop_last() =~= all.take(i as int));
        assert(all.take(i + 1).last() == hops@[i as int]@);
        let ghost before = candidate_views(candidates@);
        let hop = &hops[i];
        match &hop.address {
            Some(address) => {
                if !target_among(&candidates, address.as_str()) {
                    let mut source = "tracepath hop ".to_owned();
                    let number = decimal_text(hop.hop as u64);
                    source.append(number.as_str());
                    let ghost added = CandidateView { target: address@, source: source@ };
                    candidates.push(LocalCandidate { target: address.clone(), source });
                    assert(candidate_views(candidates@) =~= before.push(added));
                }
            },
            None => {},
        }
        i = i + 1;
    }
    assert(all.take(n as int) =~= all);
    candidates
}

/// The candidates near the local host, from what `tracepath` printed.
pub fn tracepath_local_candidates<R: Fn(&str) -> Option<Double>>(
    output: &CommandOutput,
    read: &R,
) -> (candidates: Vec<LocalCandidate>)
    requires
        reads_all(*read),
    ensures
        forall|meaning: spec_fn(Seq<char>) -> Option<Double>| #[trigger]
            reads_as(*read, meaning) ==> candidate_views(candidates@) == candidates_of_hops(
                first_two(trace_hops(lines(output.stdout@), meaning)),
            ),
{
    let parsed = parse_tracepath_output(output.stdout.as_str(), output.stderr.as_str(), read);
    match &parsed.summary {
        Some(summary) => local_candidates(&summary.hops),
        None => {
            let candidates: Vec<LocalCandidate> = Vec::new();
            assert(candidate_views(candidates@) =~= candidates_of_hops(
                first_two(Seq::<HopView>::empty()),
            ));
            candidates
        },
    }
}

/// The TCP ports to try, in order.
pub fn tcp_probe_ports() -> (ports: Vec<u16>)
    ensures
        ports@ == seq![443u16, 80u16],
{
    let mut ports: Vec<u16> = Vec::new();
    ports.push(443);
    ports.push(80);
    assert(ports@ =~= seq![443u16, 80u16]);
    ports
}

/// The statistics of one TCP handshake that took so long.
pub fn tcp_stats(port: u16, elapsed_ms: Double) -> (stats: PingStats)
    ensures
        stats == (PingStats {
            method: ProbeMethod::Tcp { port },
            transmitted: 1,
            received: 1,
            min_ms: elapsed_ms,
            avg_ms: elapsed_ms,
            max_ms: elapsed_ms,
            mdev_ms: crate::double::zero(),
        }),
{
    PingStats {
        method: ProbeMethod::Tcp { port },
        transmitted: 1,
        received: 1,
        min_ms: elapsed_ms,
        avg_ms: elapsed_ms,
        max_ms: elapsed_ms,
        mdev_ms: Double { bits: 0 },
    }
}

} // verus!
