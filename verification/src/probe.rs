//! Probes: their settings, and what they measure.

use crate::anchors::{Anchor, AnchorView};
use crate::calc::{Arith, Calc, Rules};
use crate::double::Double;
use crate::text::{
    after, decimal, decimal_text, maybe_text, read_unsigned, same, strings, strip_start,
    unsigned,
};
use vstd::prelude::*;
use vstd::string::*;

verus! {

/// How anchors are probed.
#[derive(Debug, Clone, Copy)]
pub struct ProbeConfig {
    pub ping_count: u8,
    pub timeout_ms: u64,
    pub trace_hops: u8,
    pub rounds: u8,
}

/// How a round-trip time was measured.
#[derive(Debug, Clone, Copy, PartialEq, Eq, Structural)]
pub enum ProbeMethod {
    Icmp,
    Tcp { port: u16 },
}

/// The round-trip times of one probe, in milliseconds.
#[derive(Debug, Clone, Copy, PartialEq, Eq, Structural)]
pub struct PingStats {
    pub method: ProbeMethod,
    pub transmitted: u32,
    pub received: u32,
    pub min_ms: Double,
    pub avg_ms: Double,
    pub max_ms: Double,
    pub mdev_ms: Double,
}

/// One hop of a traced route.
#[derive(Debug, Clone)]
pub struct TraceHop {
    pub hop: u8,
    pub address: Option<String>,
    pub hostname: Option<String>,
    pub rtt_ms: Option<Double>,
    pub note: Option<String>,
}

/// A traced route.
#[derive(Debug, Clone)]
pub struct TraceSummary {
    pub hops: Vec<TraceHop>,
}

/// What was measured of one anchor.
#[derive(Debug, Clone)]
pub struct Measurement {
    pub anchor: Anchor,
    pub resolved_ip: Option<String>,
    pub ping: Option<PingStats>,
    pub trace: Option<TraceSummary>,
    pub cache_age_days: Option<Double>,
    pub cache_uncertainty_ms: Double,
    pub notes: Vec<String>,
}

/// The lowest round-trip time to the edge of the local network.
#[derive(Debug, Clone)]
pub struct LocalRttFloor {
    pub target: String,
    pub source: String,
    pub min_ms: Double,
}

/// What a command printed.
#[derive(Debug, Clone)]
pub struct CommandOutput {
    pub stdout: String,
    pub stderr: String,
}

/// The distance that the lowest time allows at this speed, in kilometres.
pub open spec fn reach_km(rules: Rules, ping: PingStats, km_per_ms: Double) -> Double {
    rules.mul(ping.min_ms, km_per_ms)
}

impl PingStats {
    /// The distance that the lowest time allows at this speed, in kilometres.
    pub fn upper_bound_km<A: Fn(Calc) -> Double>(
        &self,
        km_per_ms: Double,
        arith: &Arith<A>,
    ) -> (km: Double)
        requires
            arith.complete(),
        ensures
            forall|rules: Rules| #[trigger]
                arith.follows(rules) ==> km == reach_km(rules, *self, km_per_ms),
    {
        arith.mul(self.min_ms, km_per_ms)
    }
}

/// The name of probing this TCP port.
pub open spec fn tcp_name(port: u16) -> Seq<char> {
    "tcp/"@ + decimal(port as nat)
}

/// The TCP port that this name says is probed.
pub open spec fn tcp_named(name: Seq<char>) -> Option<u16> {
    if "tcp/"@.is_prefix_of(name) {
        match unsigned(after(name, "tcp/"@), u16::MAX as nat) {
            Some(port) => Some(port as u16),
            None => None,
        }
    } else {
        None
    }
}

/// The name of a probe method.
pub open spec fn method_name(method: ProbeMethod) -> Seq<char> {
    match method {
        ProbeMethod::Icmp => "icmp"@,
        ProbeMethod::Tcp { port } => tcp_name(port),
    }
}

/// The probe method of a name.
pub open spec fn method_named(name: Seq<char>) -> Option<ProbeMethod> {
    if name == "icmp"@ {
        Some(ProbeMethod::Icmp)
    } else {
        match tcp_named(name) {
            Some(port) => Some(ProbeMethod::Tcp { port }),
            None => None,
        }
    }
}

fn tcp_label(port: u16) -> (name: String)
    ensures
        name@ == tcp_name(port),
{
    let mut name = "tcp/".to_owned();
    let digits = decimal_text(port as u64);
    name.append(digits.as_str());
    name
}

fn parse_tcp(value: &str) -> (port: Option<u16>)
    ensures
        port == tcp_named(value@),
{
    match strip_start(value, "tcp/") {
        Some(rest) => match read_unsigned(rest, u16::MAX as u32) {
            Some(port) => Some(port as u16),
            None => None,
        },
        None => None,
    }
}

impl ProbeMethod {
    /// The name of this method.
    pub fn label(&self) -> (name: String)
        ensures
            name@ == method_name(*self),
    {
        match *self {
            ProbeMethod::Icmp => "icmp".to_owned(),
            ProbeMethod::Tcp { port } => tcp_label(port),
        }
    }

    /// The method of this name.
    pub fn parse(value: &str) -> (method: Option<ProbeMethod>)
        ensures
            method == method_named(value@),
    {
        if same(value, "icmp") {
            return Some(ProbeMethod::Icmp);
        }
        match parse_tcp(value) {
            Some(port) => Some(ProbeMethod::Tcp { port }),
            None => None,
        }
    }
}

proof fn lemma_tcp_name_round_trip(port: u16)
    ensures
        tcp_named(tcp_name(port)) == Some(port),
        tcp_name(port)[0] == 't',
{
    reveal_strlit("tcp/");
    let digits = decimal(port as nat);
    crate::text::lemma_decimal_round_trip(port as nat);
    assert(tcp_name(port).take(4) =~= "tcp/"@);
    assert(after(tcp_name(port), "tcp/"@) =~= digits);
    assert(crate::text::digit(digits[0]));
}

/// A method can be read back from its name.
pub proof fn lemma_method_name_round_trip(method: ProbeMethod)
    ensures
        method_named(method_name(method)) == Some(method),
{
    reveal_strlit("icmp");
    match method {
        ProbeMethod::Icmp => {},
        ProbeMethod::Tcp { port } => {
            lemma_tcp_name_round_trip(port);
            assert("icmp"@[0] == 'i');
        },
    }
}

/// The hop that a `TraceHop` stands for.
#[verifier::ext_equal]
pub struct HopView {
    pub hop: u8,
    pub address: Option<Seq<char>>,
    pub hostname: Option<Seq<char>>,
    pub rtt_ms: Option<Double>,
    pub note: Option<Seq<char>>,
}

impl View for TraceHop {
    type V = HopView;

    open spec fn view(&self) -> HopView {
        HopView {
            hop: self.hop,
            address: maybe_text(self.address),
            hostname: maybe_text(self.hostname),
            rtt_ms: self.rtt_ms,
            note: maybe_text(self.note),
        }
    }
}

/// The hops that a list of `TraceHop`s stands for.
pub open spec fn hop_views(hops: Seq<TraceHop>) -> Seq<HopView> {
    Seq::new(hops.len(), |i: int| hops[i]@)
}

/// The measurement that a `Measurement` stands for.
#[verifier::ext_equal]
pub struct MeasurementView {
    pub anchor: AnchorView,
    pub resolved_ip: Option<Seq<char>>,
    pub ping: Option<PingStats>,
    pub trace: Option<Seq<HopView>>,
    pub cache_age_days: Option<Double>,
    pub cache_uncertainty_ms: Double,
    pub notes: Seq<Seq<char>>,
}

/// The hops of a traced route, if there is one.
pub open spec fn maybe_hops(trace: Option<TraceSummary>) -> Option<Seq<HopView>> {
    match trace {
        Some(summary) => Some(hop_views(summary.hops@)),
        None => None,
    }
}

impl View for Measurement {
    type V = MeasurementView;

    open spec fn view(&self) -> MeasurementView {
        MeasurementView {
            anchor: self.anchor@,
            resolved_ip: maybe_text(self.resolved_ip),
            ping: self.ping,
            trace: maybe_hops(self.trace),
            cache_age_days: self.cache_age_days,
            cache_uncertainty_ms: self.cache_uncertainty_ms,
            notes: strings(self.notes@),
        }
    }
}

/// The measurements that a list of `Measurement`s stands for.
pub open spec fn measurement_views(list: Seq<Measurement>) -> Seq<MeasurementView> {
    Seq::new(list.len(), |i: int| list[i]@)
}

/// The floor that a `LocalRttFloor` stands for.
#[verifier::ext_equal]
pub struct LocalFloorView {
    pub target: Seq<char>,
    pub source: Seq<char>,
    pub min_ms: Double,
}

impl View for LocalRttFloor {
    type V = LocalFloorView;

    open spec fn view(&self) -> LocalFloorView {
        LocalFloorView { target: self.target@, source: self.source@, min_ms: self.min_ms }
    }
}

} // verus!
