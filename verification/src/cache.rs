//! The cache of timing floors: the lowest times seen in earlier runs.

use crate::double::{reads_all, reads_as, shows_as, writes_all, zero, Double};
use crate::probe::{
    method_name, method_named, LocalRttFloor, Measurement, MeasurementView, PingStats, ProbeMethod,
};
use crate::text::{
    comes_before, join, join_strings, lemma_precedes_irreflexive, lemma_precedes_total,
    lemma_precedes_transitive, lines, lines_of, precedes, same, strings, texts, trim, trim_of,
    words, words_of,
};
use vstd::prelude::*;
use vstd::string::*;

verus! {

/// The lowest time seen of an anchor, and how it was measured.
#[derive(Debug, Clone, Copy, PartialEq, Eq, Structural)]
pub struct CachedPing {
    pub method: ProbeMethod,
    pub min_ms: Double,
}

/// The floor of one anchor.
pub struct FloorView {
    pub id: Seq<char>,
    pub ping: CachedPing,
}

/// Tells whether the floors stand in ascending order of their ids.
pub open spec fn by_id(floors: Seq<FloorView>) -> bool {
    forall|i: int, j: int|
        0 <= i < j < floors.len() ==> precedes((#[trigger] floors[i]).id, (#[trigger] floors[j]).id)
}

/// The floor of this anchor.
pub open spec fn floor_of(floors: Seq<FloorView>, id: Seq<char>) -> Option<CachedPing>
    decreases floors.len(),
{
    if floors.len() == 0 {
        None
    } else if floors[0].id == id {
        Some(floors[0].ping)
    } else {
        floor_of(floors.skip(1), id)
    }
}

/// The floors with this one for this anchor, in the place that its id gives it.
pub open spec fn with_floor(floors: Seq<FloorView>, id: Seq<char>, ping: CachedPing) -> Seq<
    FloorView,
>
    decreases floors.len(),
{
    let entry = FloorView { id, ping };
    if floors.len() == 0 || precedes(id, floors[0].id) {
        seq![entry] + floors
    } else if floors[0].id == id {
        seq![entry] + floors.skip(1)
    } else {
        seq![floors[0]] + with_floor(floors.skip(1), id, ping)
    }
}

/// The floors of anchors, by ascending id and one for each id.
#[derive(Debug, PartialEq)]
pub struct AnchorFloors {
    entries: Vec<(String, CachedPing)>,
}

/// The floors that a list of entries stands for.
pub open spec fn floor_views(entries: Seq<(String, CachedPing)>) -> Seq<FloorView> {
    Seq::new(entries.len(), |i: int| FloorView { id: entries[i].0@, ping: entries[i].1 })
}

impl View for AnchorFloors {
    type V = Seq<FloorView>;

    closed spec fn view(&self) -> Seq<FloorView> {
        floor_views(self.entries@)
    }
}

impl AnchorFloors {
    #[verifier::type_invariant]
    closed spec fn ordered(&self) -> bool {
        by_id(floor_views(self.entries@))
    }

    /// No floors.
    pub fn new() -> (floors: AnchorFloors)
        ensures
            floors@ == Seq::<FloorView>::empty(),
    {
        let floors = AnchorFloors { entries: Vec::new() };
        assert(floors@ =~= Seq::<FloorView>::empty());
        floors
    }

    /// The number of floors.
    pub fn len(&self) -> (n: usize)
        ensures
            n == self@.len(),
            by_id(self@),
    {
        proof {
            use_type_invariant(self);
        }
        self.entries.len()
    }

    /// The floor of this anchor.
    pub fn get(&self, id: &str) -> (found: Option<&CachedPing>)
        ensures
            match found {
                Some(ping) => floor_of(self@, id@) == Some(*ping),
                None => floor_of(self@, id@) is None,
            },
    {
        let ghost all = self@;
        let mut i: usize = 0;
        assert(all.skip(0) =~= all);
        while i < self.entries.len()
            invariant
                all == floor_views(self.entries@),
                i <= self.entries@.len(),
                floor_of(all, id@) == floor_of(all.skip(i as int), id@),
            decreases self.entries@.len() - i,
        {
            if same(self.entries[i].0.as_str(), id) {
                return Some(&self.entries[i].1);
            }
            assert(all.skip(i as int).skip(1) =~= all.skip(i + 1));
            i = i + 1;
        }
        None
    }

    /// Makes this the floor of this anchor.
    pub fn set(&mut self, id: &str, ping: CachedPing)
        ensures
            final(self)@ == with_floor(old(self)@, id@, ping),
    {
        proof {
            use_type_invariant(&*self);
        }
        let mut entries: Vec<(String, CachedPing)> = Vec::new();
        std::mem::swap(&mut entries, &mut self.entries);
        let ghost all = floor_views(entries@);
        let mut i: usize = 0;
        assert(all.skip(0) =~= all);
        assert(all.take(0) + with_floor(all, id@, ping) =~= with_floor(all, id@, ping));
        while i < entries.len() && comes_before(entries[i].0.as_str(), id)
            invariant
                all == floor_views(entries@),
                i <= entries@.len(),
                with_floor(all, id@, ping) == all.take(i as int) + with_floor(
                    all.skip(i as int),
                    id@,
                    ping,
                ),
            decreases entries@.len() - i,
        {
            proof {
                let rest = all.skip(i as int);
                if precedes(id@, rest[0].id) {
                    lemma_precedes_transitive(id@, rest[0].id, id@);
                }
                lemma_precedes_irreflexive(id@);
                assert(rest.skip(1) =~= all.skip(i + 1));
                assert(all.take(i as int) + (seq![rest[0]] + with_floor(
                    rest.skip(1),
                    id@,
                    ping,
                )) =~= all.take(i + 1) + with_floor(all.skip(i + 1), id@, ping));
            }
            i = i + 1;
        }
        let ghost rest = all.skip(i as int);
        let ghost entry = FloorView { id: id@, ping };
        proof {
            lemma_with_floor_in_order(all, id@, ping);
        }
        if i < entries.len() && same(entries[i].0.as_str(), id) {
            proof {
                lemma_precedes_irreflexive(id@);
                assert(rest[0].id == id@);
                assert(all.take(i as int) + (seq![entry] + rest.skip(1)) =~= all.update(
                    i as int,
                    entry,
                ));
            }
            entries.set(i, (id.to_owned(), ping));
            assert(floor_views(entries@) =~= all.update(i as int, entry));
        } else {
            proof {
                if i < entries@.len() {
                    lemma_precedes_total(rest[0].id, id@);
                }
                assert(with_floor(rest, id@, ping) == seq![entry] + rest);
                assert(all.take(i as int) + (seq![entry] + rest) =~= all.insert(i as int, entry));
            }
            entries.insert(i, (id.to_owned(), ping));
            assert(floor_views(entries@) =~= all.insert(i as int, entry));
        }
        self.entries = entries;
    }
}

impl Clone for AnchorFloors {
    fn clone(&self) -> (copy: AnchorFloors)
        ensures
            copy@ == self@,
    {
        proof {
            use_type_invariant(self);
        }
        let mut entries: Vec<(String, CachedPing)> = Vec::new();
        let mut i: usize = 0;
        while i < self.entries.len()
            invariant
                i <= self.entries@.len(),
                floor_views(entries@) == floor_views(self.entries@).take(i as int),
            decreases self.entries@.len() - i,
        {
            let ghost before = floor_views(entries@);
            entries.push((self.entries[i].0.clone(), self.entries[i].1));
            assert(floor_views(entries@) =~= before.push(floor_views(self.entries@)[i as int]));
            i = i + 1;
            assert(floor_views(entries@) =~= floor_views(self.entries@).take(i as int));
        }
        assert(floor_views(entries@) =~= floor_views(self.entries@));
        AnchorFloors { entries }
    }
}

/// Setting a floor keeps the floors in ascending order of their ids.
pub proof fn lemma_with_floor_in_order(floors: Seq<FloorView>, id: Seq<char>, ping: CachedPing)
    requires
        by_id(floors),
    ensures
        by_id(with_floor(floors, id, ping)),
        forall|i: int|
            0 <= i < with_floor(floors, id, ping).len() ==> (#[trigger] with_floor(
                floors,
                id,
                ping,
            )[i]).id == id || exists|j: int|
                0 <= j < floors.len() && (#[trigger] floors[j]).id == with_floor(
                    floors,
                    id,
                    ping,
                )[i].id,
    decreases floors.len(),
{
    let all = with_floor(floors, id, ping);
    if floors.len() == 0 {
    } else if precedes(id, floors[0].id) {
        assert forall|i: int, j: int| 0 <= i < j < all.len() implies precedes(
            (#[trigger] all[i]).id,
            (#[trigger] all[j]).id,
        ) by {
            assert(all[j] == floors[j - 1]);
            if i > 0 {
                assert(all[i] == floors[i - 1]);
            } else if j > 1 {
                lemma_precedes_transitive(id, floors[0].id, floors[j - 1].id);
            }
        }
        assert forall|i: int| 0 <= i < all.len() && (#[trigger] all[i]).id != id implies exists|
            j: int,
        |
            0 <= j < floors.len() && (#[trigger] floors[j]).id == all[i].id by {
            assert(all[i] == floors[i - 1]);
        }
    } else if floors[0].id == id {
        assert forall|i: int, j: int| 0 <= i < j < all.len() implies precedes(
            (#[trigger] all[i]).id,
            (#[trigger] all[j]).id,
        ) by {
            assert(all[i].id == floors[i].id);
            assert(all[j].id == floors[j].id);
        }
        assert forall|i: int| 0 <= i < all.len() && (#[trigger] all[i]).id != id implies exists|
            j: int,
        |
            0 <= j < floors.len() && (#[trigger] floors[j]).id == all[i].id by {
            assert(all[i].id == floors[i].id);
        }
    } else {
        let rest = floors.skip(1);
        assert(by_id(rest)) by {
            assert forall|i: int, j: int| 0 <= i < j < rest.len() implies precedes(
                (#[trigger] rest[i]).id,
                (#[trigger] rest[j]).id,
            ) by {
                assert(rest[i] == floors[i + 1]);
                assert(rest[j] == floors[j + 1]);
            }
        }
        lemma_with_floor_in_order(rest, id, ping);
        lemma_precedes_total(floors[0].id, id);
        let inner = with_floor(rest, id, ping);
        assert forall|i: int, j: int| 0 <= i < j < all.len() implies precedes(
            (#[trigger] all[i]).id,
            (#[trigger] all[j]).id,
        ) by {
            assert(all[j] == inner[j - 1]);
            if i > 0 {
                assert(all[i] == inner[i - 1]);
            } else if inner[j - 1].id != id {
                let k = choose|k: int|
                    0 <= k < rest.len() && (#[trigger] rest[k]).id == inner[j - 1].id;
                assert(rest[k] == floors[k + 1]);
            }
        }
        assert forall|i: int| 0 <= i < all.len() && (#[trigger] all[i]).id != id implies exists|
            j: int,
        |
            0 <= j < floors.len() && (#[trigger] floors[j]).id == all[i].id by {
            if i > 0 {
                assert(all[i] == inner[i - 1]);
                let k = choose|k: int|
                    0 <= k < rest.len() && (#[trigger] rest[k]).id == inner[i - 1].id;
                assert(rest[k] == floors[k + 1]);
            } else {
                assert(all[0] == floors[0]);
            }
        }
    }
}

/// A floor that was set is the one that is found, and the others stay as they were.
pub proof fn lemma_floor_of_with_floor(
    floors: Seq<FloorView>,
    id: Seq<char>,
    ping: CachedPing,
    other: Seq<char>,
)
    requires
        by_id(floors),
    ensures
        floor_of(with_floor(floors, id, ping), id) == Some(ping),
        other != id ==> floor_of(with_floor(floors, id, ping), other) == floor_of(floors, other),
    decreases floors.len(),
{
    let entry = FloorView { id, ping };
    let all = with_floor(floors, id, ping);
    if floors.len() == 0 || precedes(id, floors[0].id) {
        assert(all.skip(1) =~= floors);
    } else if floors[0].id == id {
        assert(all.skip(1) =~= floors.skip(1));
    } else {
        let rest = floors.skip(1);
        assert(by_id(rest)) by {
            assert forall|i: int, j: int| 0 <= i < j < rest.len() implies precedes(
                (#[trigger] rest[i]).id,
                (#[trigger] rest[j]).id,
            ) by {
                assert(rest[i] == floors[i + 1]);
                assert(rest[j] == floors[j + 1]);
            }
        }
        lemma_floor_of_with_floor(rest, id, ping, other);
        assert(all.skip(1) =~= with_floor(rest, id, ping));
    }
}

/// The cache that a `ProbeCache` stands for.
#[verifier::ext_equal]
pub struct CacheView {
    pub floors: Seq<FloorView>,
    pub local_rtt_floor_ms: Option<Double>,
    pub tcp_bias_ms: Option<Double>,
}

/// The lowest times seen in earlier runs.
#[derive(Debug, Clone, PartialEq)]
pub struct ProbeCache {
    pub anchor_floors: AnchorFloors,
    pub local_rtt_floor_ms: Option<Double>,
    pub tcp_bias_ms: Option<Double>,
}

impl View for ProbeCache {
    type V = CacheView;

    open spec fn view(&self) -> CacheView {
        CacheView {
            floors: self.anchor_floors@,
            local_rtt_floor_ms: self.local_rtt_floor_ms,
            tcp_bias_ms: self.tcp_bias_ms,
        }
    }
}

/// The empty cache.
pub open spec fn empty_cache() -> CacheView {
    CacheView {
        floors: Seq::<FloorView>::empty(),
        local_rtt_floor_ms: None,
        tcp_bias_ms: None,
    }
}

/// Tells whether a time is fit to be a floor: a number above zero and not infinite.
pub open spec fn usable(time: Double) -> bool {
    time.finite() && !time.at_most(zero())
}

/// The floors after a time of an anchor. The lower time stays.
pub open spec fn lowered(
    floors: Seq<FloorView>,
    id: Seq<char>,
    method: ProbeMethod,
    min_ms: Double,
) -> Seq<FloorView> {
    if !usable(min_ms) {
        floors
    } else if floor_of(floors, id) is Some && floor_of(floors, id)->0.min_ms.at_most(min_ms) {
        floors
    } else {
        with_floor(floors, id, CachedPing { method, min_ms })
    }
}

/// The lower of a stored time and a new one.
pub open spec fn lowered_time(stored: Option<Double>, time: Double) -> Option<Double> {
    match stored {
        Some(existing) => Some(existing.lesser(time)),
        None => Some(time),
    }
}

/// The floors after the times of these measurements.
pub open spec fn lowered_by(floors: Seq<FloorView>, list: Seq<MeasurementView>) -> Seq<FloorView>
    decreases list.len(),
{
    if list.len() == 0 {
        floors
    } else {
        let before = lowered_by(floors, list.drop_last());
        match list.last().ping {
            Some(ping) => lowered(before, list.last().anchor.id, ping.method, ping.min_ms),
            None => before,
        }
    }
}

/// The cache after the words of one line.
pub open spec fn with_words(
    cache: CacheView,
    parts: Seq<Seq<char>>,
    meaning: spec_fn(Seq<char>) -> Option<Double>,
) -> CacheView {
    if parts.len() == 2 && parts[0] == "local_rtt_floor_ms"@ {
        CacheView { local_rtt_floor_ms: meaning(parts[1]), ..cache }
    } else if parts.len() == 2 && parts[0] == "tcp_bias_ms"@ {
        CacheView { tcp_bias_ms: meaning(parts[1]), ..cache }
    } else if parts.len() == 4 && parts[0] == "anchor"@ {
        match (method_named(parts[2]), meaning(parts[3])) {
            (Some(method), Some(min_ms)) => CacheView {
                floors: lowered(cache.floors, parts[1], method, min_ms),
                ..cache
            },
            _ => cache,
        }
    } else {
        cache
    }
}

/// The cache after one line. Empty lines and lines that start with `#` say nothing.
pub open spec fn with_line(
    cache: CacheView,
    line: Seq<char>,
    meaning: spec_fn(Seq<char>) -> Option<Double>,
) -> CacheView {
    let trimmed = trim(line);
    if trimmed.len() == 0 || trimmed[0] == '#' {
        cache
    } else {
        with_words(cache, words(trimmed), meaning)
    }
}

/// The cache that these lines describe.
pub open spec fn cache_of_lines(
    found: Seq<Seq<char>>,
    meaning: spec_fn(Seq<char>) -> Option<Double>,
) -> CacheView
    decreases found.len(),
{
    if found.len() == 0 {
        empty_cache()
    } else {
        with_line(cache_of_lines(found.drop_last(), meaning), found.last(), meaning)
    }
}

/// The line of the floor of one anchor.
pub open spec fn floor_line(floor: FloorView, written: spec_fn(Double, u8) -> Seq<char>) -> Seq<
    char,
> {
    "anchor "@ + floor.id + " "@ + method_name(floor.ping.method) + " "@ + written(
        floor.ping.min_ms,
        6,
    )
}

/// The line of one time, where there is one.
pub open spec fn time_line(
    head: Seq<char>,
    time: Option<Double>,
    written: spec_fn(Double, u8) -> Seq<char>,
) -> Seq<Seq<char>> {
    match time {
        Some(value) => seq![head + written(value, 6)],
        None => Seq::<Seq<char>>::empty(),
    }
}

/// The lines that describe a cache.
pub open spec fn cache_lines(cache: CacheView, written: spec_fn(Double, u8) -> Seq<char>) -> Seq<
    Seq<char>,
> {
    seq!["version 1"@] + time_line("local_rtt_floor_ms "@, cache.local_rtt_floor_ms, written)
        + time_line("tcp_bias_ms "@, cache.tcp_bias_ms, written) + Seq::new(
        cache.floors.len(),
        |i: int| floor_line(cache.floors[i], written),
    )
}

/// The text that describes a cache.
pub open spec fn cache_text(cache: CacheView, written: spec_fn(Double, u8) -> Seq<char>) -> Seq<
    char,
> {
    join(cache_lines(cache, written), "\n"@) + "\n"@
}

impl Default for ProbeCache {
    fn default() -> (cache: ProbeCache)
        ensures
            cache@ == empty_cache(),
    {
        ProbeCache {
            anchor_floors: AnchorFloors::new(),
            local_rtt_floor_ms: None,
            tcp_bias_ms: None,
        }
    }
}

fn is_usable(time: Double) -> (yes: bool)
    ensures
        yes == usable(time),
{
    time.is_finite() && !time.is_at_most(&Double { bits: 0 })
}

fn lower_time(stored: Option<Double>, time: Double) -> (lower: Option<Double>)
    ensures
        lower == lowered_time(stored, time),
{
    match stored {
        Some(existing) => Some(existing.min(time)),
        None => Some(time),
    }
}

impl ProbeCache {
    /// Takes note of a time of an anchor.
    pub fn update_anchor(&mut self, anchor_id: &str, method: ProbeMethod, min_ms: Double)
        ensures
            final(self)@ == (CacheView {
                floors: lowered(old(self)@.floors, anchor_id@, method, min_ms),
                ..old(self)@
            }),
    {
        if !is_usable(min_ms) {
            return;
        }
        let keep = match self.anchor_floors.get(anchor_id) {
            Some(existing) => existing.min_ms.is_at_most(&min_ms),
            None => false,
        };
        if !keep {
            self.anchor_floors.set(anchor_id, CachedPing { method, min_ms });
        }
    }

    /// Takes note of the times of measurements.
    pub fn update_from_measurements(&mut self, measurements: &Vec<Measurement>)
        ensures
            final(self)@ == (CacheView {
                floors: lowered_by(
                    old(self)@.floors,
                    crate::probe::measurement_views(measurements@),
                ),
                ..old(self)@
            }),
    {
        let ghost all = crate::probe::measurement_views(measurements@);
        let mut i: usize = 0;
        assert(all.take(0) =~= Seq::<MeasurementView>::empty());
        while i < measurements.len()
            invariant
                all == crate::probe::measurement_views(measurements@),
                i <= measurements@.len(),
                self@ == (CacheView {
                    floors: lowered_by(old(self)@.floors, all.take(i as int)),
                    ..old(self)@
                }),
            decreases measurements@.len() - i,
        {
            assert(all.take(i + 1).drop_last() =~= all.take(i as int));
            assert(all.take(i + 1).last() == measurements@[i as int]@);
            let measurement = &measurements[i];
            match &measurement.ping {
                Some(ping) => {
                    self.update_anchor(measurement.anchor.id, ping.method, ping.min_ms);
                },
                None => {},
            }
            i = i + 1;
        }
        assert(all.take(measurements@.len() as int) =~= all);
    }

    /// Takes note of the time to the edge of the local network.
    pub fn update_local_rtt_floor(&mut self, local_rtt_floor: Option<&LocalRttFloor>)
        ensures
            final(self)@ == (match local_rtt_floor {
                Some(floor) => CacheView {
                    local_rtt_floor_ms: lowered_time(
                        old(self)@.local_rtt_floor_ms,
                        floor.min_ms,
                    ),
                    ..old(self)@
                },
                None => old(self)@,
            }),
    {
        match local_rtt_floor {
            Some(floor) => {
                self.local_rtt_floor_ms = lower_time(self.local_rtt_floor_ms, floor.min_ms);
            },
            None => {},
        }
    }

    /// Takes note of how much longer TCP handshakes take.
    pub fn update_tcp_bias(&mut self, tcp_bias_ms: Double)
        ensures
            final(self)@ == (CacheView {
                tcp_bias_ms: if usable(tcp_bias_ms) {
                    lowered_time(old(self)@.tcp_bias_ms, tcp_bias_ms)
                } else {
                    old(self)@.tcp_bias_ms
                },
                ..old(self)@
            }),
    {
        if is_usable(tcp_bias_ms) {
            self.tcp_bias_ms = lower_time(self.tcp_bias_ms, tcp_bias_ms);
        }
    }

    fn apply_words<R: Fn(&str) -> Option<Double>>(&mut self, parts: &Vec<&str>, read: &R)
        requires
            reads_all(*read),
        ensures
            forall|meaning: spec_fn(Seq<char>) -> Option<Double>| #[trigger]
                reads_as(*read, meaning) ==> final(self)@ == with_words(
                    old(self)@,
                    texts(parts@),
                    meaning,
                ),
    {
        if parts.len() == 2 && same(parts[0], "local_rtt_floor_ms") {
            self.local_rtt_floor_ms = read(parts[1]);
        } else if parts.len() == 2 && same(parts[0], "tcp_bias_ms") {
            self.tcp_bias_ms = read(parts[1]);
        } else if parts.len() == 4 && same(parts[0], "anchor") {
            match ProbeMethod::parse(parts[2]) {
                Some(method) => match read(parts[3]) {
                    Some(min_ms) => {
                        self.update_anchor(parts[1], method, min_ms);
                    },
                    None => {},
                },
                None => {},
            }
        }
    }

    /// Reads a cache from its text. The function `read` reads the times in it.
    pub fn parse<R: Fn(&str) -> Option<Double>>(content: &str, read: &R) -> (cache: ProbeCache)
        requires
            reads_all(*read),
        ensures
            forall|meaning: spec_fn(Seq<char>) -> Option<Double>| #[trigger]
                reads_as(*read, meaning) ==> cache@ == cache_of_lines(lines(content@), meaning),
    {
        let found = lines_of(content);
        let mut cache = ProbeCache::default();
        let mut i: usize = 0;
        assert(texts(found@).take(0) =~= Seq::<Seq<char>>::empty());
        while i < found.len()
            invariant
                i <= found@.len(),
                reads_all(*read),
                forall|meaning: spec_fn(Seq<char>) -> Option<Double>| #[trigger]
                    reads_as(*read, meaning) ==> cache@ == cache_of_lines(
                        texts(found@).take(i as int),
                        meaning,
                    ),
            decreases found@.len() - i,
        {
            assert(texts(found@).take(i + 1).drop_last() =~= texts(found@).take(i as int));
            assert(texts(found@).take(i + 1).last() == found@[i as int]@);
            let trimmed = trim_of(found[i]);
            if !trimmed.is_empty() && trimmed.get_char(0) != '#' {
                let parts = words_of(trimmed);
                cache.apply_words(&parts, read);
            }
            i = i + 1;
        }
        assert(texts(found@).take(found@.len() as int) =~= texts(found@));
        cache
    }

    /// Writes a cache as text. The function `show` writes the times in it.
    pub fn render<S: Fn(Double, u8) -> String>(&self, show: &S) -> (text: String)
        requires
            writes_all(*show),
        ensures
            forall|written: spec_fn(Double, u8) -> Seq<char>| #[trigger]
                shows_as(*show, written) ==> text@ == cache_text(self@, written),
    {
        let entries = &self.anchor_floors.entries;
        let ghost floors = floor_views(entries@);
        let mut rows: Vec<String> = Vec::new();
        rows.push("version 1".to_owned());
        assert(strings(rows@) =~= seq!["version 1"@]);
        push_time(&mut rows, "local_rtt_floor_ms ", self.local_rtt_floor_ms, show);
        push_time(&mut rows, "tcp_bias_ms ", self.tcp_bias_ms, show);
        let ghost head = strings(rows@);
        let mut i: usize = 0;
        assert(forall|written: spec_fn(Double, u8) -> Seq<char>| #[trigger]
            shows_as(*show, written) ==> head + Seq::new(
                0,
                |j: int| floor_line(floors[j], written),
            ) =~= head);
        while i < entries.len()
            invariant
                entries@ == self.anchor_floors.entries@,
                floors == floor_views(entries@),
                i <= entries@.len(),
                writes_all(*show),
                forall|written: spec_fn(Double, u8) -> Seq<char>| #[trigger]
                    shows_as(*show, written) ==> strings(rows@) == head + Seq::new(
                        i as nat,
                        |j: int| floor_line(floors[j], written),
                    ),
            decreases entries@.len() - i,
        {
            let ghost before = strings(rows@);
            let mut row = "anchor ".to_owned();
            let method = entries[i].1.method.label();
            let time = show(entries[i].1.min_ms, 6);
            row.append(entries[i].0.as_str());
            row.append(" ");
            row.append(method.as_str());
            row.append(" ");
            row.append(time.as_str());
            let ghost line = row@;
            rows.push(row);
            assert(strings(rows@) =~= before.push(line));
            assert forall|written: spec_fn(Double, u8) -> Seq<char>| #[trigger]
                shows_as(*show, written) implies strings(rows@) == head + Seq::new(
                (i + 1) as nat,
                |j: int| floor_line(floors[j], written),
            ) by {
                assert(line == floor_line(floors[i as int], written));
                assert(strings(rows@) =~= head + Seq::new(
                    (i + 1) as nat,
                    |j: int| floor_line(floors[j], written),
                ));
            }
            i = i + 1;
        }
        let mut text = join_strings(&rows, "\n");
        text.append("\n");
        text
    }
}

fn push_time<S: Fn(Double, u8) -> String>(
    rows: &mut Vec<String>,
    head: &str,
    time: Option<Double>,
    show: &S,
)
    requires
        writes_all(*show),
    ensures
        forall|written: spec_fn(Double, u8) -> Seq<char>| #[trigger]
            shows_as(*show, written) ==> strings(final(rows)@) == strings(old(rows)@) + time_line(
                head@,
                time,
                written,
            ),
{
    let ghost before = strings(rows@);
    match time {
        Some(value) => {
            let mut row = head.to_owned();
            let number = show(value, 6);
            row.append(number.as_str());
            let ghost line = row@;
            rows.push(row);
            assert(strings(rows@) =~= before + seq![line]);
        },
        None => {
            assert(before + Seq::<Seq<char>>::empty() =~= before);
        },
    }
}

/// The statistics of a probe whose time is a floor from the cache.
pub open spec fn stats_of_floor(ping: CachedPing) -> PingStats {
    PingStats {
        method: ping.method,
        transmitted: 1,
        received: 1,
        min_ms: ping.min_ms,
        avg_ms: ping.min_ms,
        max_ms: ping.min_ms,
        mdev_ms: zero(),
    }
}

/// The statistics of a probe whose time is a floor from the cache.
pub fn cached_ping_to_stats(ping: &CachedPing) -> (stats: PingStats)
    ensures
        stats == stats_of_floor(*ping),
{
    PingStats {
        method: ping.method,
        transmitted: 1,
        received: 1,
        min_ms: ping.min_ms,
        avg_ms: ping.min_ms,
        max_ms: ping.min_ms,
        mdev_ms: Double { bits: 0 },
    }
}

} // verus!
