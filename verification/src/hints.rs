//! Location hints: what the names of routers tell of the way to an anchor.

use crate::anchors::{
    anchor_label, anchor_list, anchor_of, builtin_anchors, find_anchor, Anchor, AnchorView,
};
use crate::calc::{Arith, Calc, Rules};
use crate::double::Double;
use crate::probe::{HopView, Measurement, MeasurementView, TraceHop};
use crate::text::{
    chars_of, comes_before, contains_text, decimal, decimal_text, is_letter, join, join_strings,
    lemma_precedes_irreflexive, lemma_precedes_total, lemma_precedes_transitive, letter,
    list_contains, nonempty, occurs, pieces_with_text, precedes, put_text, same, split, split_text,
    strings, texts, with_text, Boundary,
};
use vstd::prelude::*;
use vstd::string::*;
use vstd::utf8::*;

verus! {

/// A piece of a router name that stands for an anchor. A partial alias may occur
/// anywhere in the name; any other must be a token of it.
#[derive(Debug, Clone, Copy)]
pub struct Alias {
    pub token: &'static str,
    pub id: &'static str,
    pub partial: bool,
}

/// The alias that an `Alias` stands for.
#[verifier::ext_equal]
pub struct AliasView {
    pub token: Seq<char>,
    pub id: Seq<char>,
    pub partial: bool,
}

impl View for Alias {
    type V = AliasView;

    open spec fn view(&self) -> AliasView {
        AliasView { token: self.token@, id: self.id@, partial: self.partial }
    }
}

/// The aliases that a list stands for.
pub open spec fn alias_views(list: Seq<Alias>) -> Seq<AliasView> {
    Seq::new(list.len(), |i: int| list[i]@)
}

/// One line of the list of aliases.
pub open spec fn named(token: &str, id: &str, partial: bool) -> AliasView {
    AliasView { token: token@, id: id@, partial }
}

/// The built-in aliases.
pub open spec fn alias_list() -> Seq<AliasView> {
    seq![
        named("fra", "eu-central-1", false),
        named("frankfurt", "eu-central-1", true),
        named("ffm", "eu-central-1", false),
        named("muc", "munich-de-cix", false),
        named("munich", "munich-de-cix", true),
        named("zrh", "eu-central-2", false),
        named("zurich", "eu-central-2", true),
        named("mil", "eu-south-1", false),
        named("milan", "eu-south-1", true),
        named("mad", "eu-south-2", false),
        named("madrid", "eu-south-2", true),
        named("dub", "eu-west-1", false),
        named("dublin", "eu-west-1", true),
        named("par", "eu-west-3", false),
        named("paris", "eu-west-3", true),
        named("prg", "cz-prague-1", false),
        named("prague", "cz-prague-1", true),
        named("vie", "at-vienna-1", false),
        named("vix", "at-vienna-1", true),
        named("vienna", "at-vienna-1", true),
        named("grz", "at-graz-1", false),
        named("graz", "at-graz-1", true),
        named("bud", "hu-budapest-1", false),
        named("budapest", "hu-budapest-1", true),
        named("lju", "si-ljubljana-1", false),
        named("ljubljana", "si-ljubljana-1", true),
        named("zag", "hr-zagreb-1", false),
        named("zagreb", "hr-zagreb-1", true),
        named("arn", "eu-north-1", false),
        named("sto", "eu-north-1", false),
        named("stockholm", "eu-north-1", true),
        named("iad", "us-east-1", false),
        named("ashburn", "us-east-1", true),
        named("yul", "ca-central-1", false),
        named("montreal", "ca-central-1", true),
        named("pdx", "us-west-2", false),
        named("portland", "us-west-2", true),
        named("bom", "ap-south-1", false),
        named("mumbai", "ap-south-1", true),
        named("hyd", "ap-south-2", false),
        named("hyderabad", "ap-south-2", true),
        named("sin", "ap-southeast-1", false),
        named("sgp", "ap-southeast-1", false),
        named("singapore", "ap-southeast-1", true),
        named("syd", "ap-southeast-2", false),
        named("sydney", "ap-southeast-2", true),
        named("hkg", "ap-east-1", false),
        named("hongkong", "ap-east-1", true),
        named("hong-kong", "ap-east-1", true),
        named("nrt", "ap-northeast-1", false),
        named("hnd", "ap-northeast-1", false),
        named("tokyo", "ap-northeast-1", true),
        named("tlv", "il-central-1", false),
        named("telaviv", "il-central-1", true),
        named("abudhabi", "me-central-1", true),
        named("auh", "me-central-1", false),
        named("gru", "sa-east-1", false),
        named("saopaulo", "sa-east-1", true),
        named("cpt", "af-south-1", false),
        named("capetown", "af-south-1", true),
        named("qro", "mx-central-1", false),
        named("queretaro", "mx-central-1", true),
    ]
}

/// The built-in aliases.
pub fn builtin_aliases() -> (aliases: Vec<Alias>)
    ensures
        alias_views(aliases@) == alias_list(),
{
    let aliases: Vec<Alias> = vec![
        Alias { token: "fra", id: "eu-central-1", partial: false },
        Alias { token: "frankfurt", id: "eu-central-1", partial: true },
        Alias { token: "ffm", id: "eu-central-1", partial: false },
        Alias { token: "muc", id: "munich-de-cix", partial: false },
        Alias { token: "munich", id: "munich-de-cix", partial: true },
        Alias { token: "zrh", id: "eu-central-2", partial: false },
        Alias { token: "zurich", id: "eu-central-2", partial: true },
        Alias { token: "mil", id: "eu-south-1", partial: false },
        Alias { token: "milan", id: "eu-south-1", partial: true },
        Alias { token: "mad", id: "eu-south-2", partial: false },
        Alias { token: "madrid", id: "eu-south-2", partial: true },
        Alias { token: "dub", id: "eu-west-1", partial: false },
        Alias { token: "dublin", id: "eu-west-1", partial: true },
        Alias { token: "par", id: "eu-west-3", partial: false },
        Alias { token: "paris", id: "eu-west-3", partial: true },
        Alias { token: "prg", id: "cz-prague-1", partial: false },
        Alias { token: "prague", id: "cz-prague-1", partial: true },
        Alias { token: "vie", id: "at-vienna-1", partial: false },
        Alias { token: "vix", id: "at-vienna-1", partial: true },
        Alias { token: "vienna", id: "at-vienna-1", partial: true },
        Alias { token: "grz", id: "at-graz-1", partial: false },
        Alias { token: "graz", id: "at-graz-1", partial: true },
        Alias { token: "bud", id: "hu-budapest-1", partial: false },
        Alias { token: "budapest", id: "hu-budapest-1", partial: true },
        Alias { token: "lju", id: "si-ljubljana-1", partial: false },
        Alias { token: "ljubljana", id: "si-ljubljana-1", partial: true },
        Alias { token: "zag", id: "hr-zagreb-1", partial: false },
        Alias { token: "zagreb", id: "hr-zagreb-1", partial: true },
        Alias { token: "arn", id: "eu-north-1", partial: false },
        Alias { token: "sto", id: "eu-north-1", partial: false },
        Alias { token: "stockholm", id: "eu-north-1", partial: true },
        Alias { token: "iad", id: "us-east-1", partial: false },
        Alias { token: "ashburn", id: "us-east-1", partial: true },
        Alias { token: "yul", id: "ca-central-1", partial: false },
        Alias { token: "montreal", id: "ca-central-1", partial: true },
        Alias { token: "pdx", id: "us-west-2", partial: false },
        Alias { token: "portland", id: "us-west-2", partial: true },
        Alias { token: "bom", id: "ap-south-1", partial: false },
        Alias { token: "mumbai", id: "ap-south-1", partial: true },
        Alias { token: "hyd", id: "ap-south-2", partial: false },
        Alias { token: "hyderabad", id: "ap-south-2", partial: true },
        Alias { token: "sin", id: "ap-southeast-1", partial: false },
        Alias { token: "sgp", id: "ap-southeast-1", partial: false },
        Alias { token: "singapore", id: "ap-southeast-1", partial: true },
        Alias { token: "syd", id: "ap-southeast-2", partial: false },
        Alias { token: "sydney", id: "ap-southeast-2", partial: true },
        Alias { token: "hkg", id: "ap-east-1", partial: false },
        Alias { token: "hongkong", id: "ap-east-1", partial: true },
        Alias { token: "hong-kong", id: "ap-east-1", partial: true },
        Alias { token: "nrt", id: "ap-northeast-1", partial: false },
        Alias { token: "hnd", id: "ap-northeast-1", partial: false },
        Alias { token: "tokyo", id: "ap-northeast-1", partial: true },
        Alias { token: "tlv", id: "il-central-1", partial: false },
        Alias { token: "telaviv", id: "il-central-1", partial: true },
        Alias { token: "abudhabi", id: "me-central-1", partial: true },
        Alias { token: "auh", id: "me-central-1", partial: false },
        Alias { token: "gru", id: "sa-east-1", partial: false },
        Alias { token: "saopaulo", id: "sa-east-1", partial: true },
        Alias { token: "cpt", id: "af-south-1", partial: false },
        Alias { token: "capetown", id: "af-south-1", partial: true },
        Alias { token: "qro", id: "mx-central-1", partial: false },
        Alias { token: "queretaro", id: "mx-central-1", partial: true },
    ];
    assert(alias_views(aliases@) =~= alias_list());
    aliases
}

/// The letters at the start of a text.
pub open spec fn leading_letters(s: Seq<char>) -> Seq<char>
    decreases s.len(),
{
    if s.len() > 0 && letter(s[0]) {
        seq![s[0]] + leading_letters(s.skip(1))
    } else {
        Seq::<char>::empty()
    }
}

/// The letters at the end of a text.
pub open spec fn trailing_letters(s: Seq<char>) -> Seq<char>
    decreases s.len(),
{
    if s.len() > 0 && letter(s.last()) {
        trailing_letters(s.drop_last()).push(s.last())
    } else {
        Seq::<char>::empty()
    }
}

/// The tokens with `part` among them, if it is three letters or more and less
/// than the whole piece.
pub open spec fn with_part(tokens: Seq<Seq<char>>, part: Seq<char>, piece: Seq<char>) -> Seq<
    Seq<char>,
> {
    if 3 <= part.len() < piece.len() {
        with_text(tokens, part)
    } else {
        tokens
    }
}

/// The tokens that pieces give: each piece, and the letters that it starts and ends with.
pub open spec fn tokens_of(pieces: Seq<Seq<char>>) -> Seq<Seq<char>>
    decreases pieces.len(),
{
    if pieces.len() == 0 {
        Seq::<Seq<char>>::empty()
    } else {
        let piece = pieces.last();
        let whole = with_text(tokens_of(pieces.drop_last()), piece);
        with_part(with_part(whole, leading_letters(piece), piece), trailing_letters(piece), piece)
    }
}

/// The tokens of a name, in ascending order: its runs of letters and digits, and
/// the letters that such a run starts and ends with.
pub open spec fn name_tokens(name: Seq<char>) -> Seq<Seq<char>> {
    tokens_of(nonempty(split(name, Boundary::NotAlphanumeric)))
}

fn letters_first<'a>(s: &'a str) -> (part: &'a str)
    ensures
        part@ == leading_letters(s@),
{
    let chars = chars_of(s);
    let mut i: usize = 0;
    assert(s@.skip(0) =~= s@);
    assert(s@.take(0) + leading_letters(s@) =~= leading_letters(s@));
    while i < chars.len() && is_letter(chars[i])
        invariant
            chars@ == s@,
            i <= chars@.len(),
            leading_letters(s@) == s@.take(i as int) + leading_letters(s@.skip(i as int)),
        decreases chars@.len() - i,
    {
        let ghost rest = s@.skip(i as int);
        assert(rest.skip(1) =~= s@.skip(i + 1));
        assert(s@.take(i as int) + (seq![rest[0]] + leading_letters(rest.skip(1))) =~= s@.take(
            i + 1,
        ) + leading_letters(s@.skip(i + 1)));
        i = i + 1;
    }
    let part = s.substring_char(0, i);
    assert(leading_letters(s@.skip(i as int)) =~= Seq::<char>::empty());
    assert(part@ =~= leading_letters(s@));
    part
}

fn letters_last<'a>(s: &'a str) -> (part: &'a str)
    ensures
        part@ == trailing_letters(s@),
{
    let chars = chars_of(s);
    let n: usize = chars.len();
    let mut i: usize = n;
    assert(s@.take(n as int) =~= s@);
    assert(trailing_letters(s@) + s@.skip(n as int) =~= trailing_letters(s@));
    while i > 0 && is_letter(chars[i - 1])
        invariant
            chars@ == s@,
            n == chars@.len(),
            i <= n,
            trailing_letters(s@) == trailing_letters(s@.take(i as int)) + s@.skip(i as int),
        decreases i,
    {
        let ghost front = s@.take(i as int);
        assert(front.drop_last() =~= s@.take(i - 1));
        assert(trailing_letters(front.drop_last()).push(front.last()) + s@.skip(i as int)
            =~= trailing_letters(s@.take(i - 1)) + s@.skip(i - 1));
        i = i - 1;
    }
    let part = s.substring_char(i, n);
    assert(trailing_letters(s@.take(i as int)) =~= Seq::<char>::empty());
    assert(part@ =~= trailing_letters(s@));
    part
}

fn put_part<'a>(tokens: &mut Vec<&'a str>, part: &'a str, piece: &str)
    ensures
        texts(final(tokens)@) == with_part(texts(old(tokens)@), part@, piece@),
{
    let n: usize = part.unicode_len();
    if n >= 3 && n < piece.unicode_len() {
        put_text(tokens, part);
    }
}

fn token_slices<'a>(name: &'a str) -> (tokens: Vec<&'a str>)
    ensures
        texts(tokens@) == name_tokens(name@),
{
    let all = split_text(name, Boundary::NotAlphanumeric);
    let pieces = pieces_with_text(&all);
    let mut tokens: Vec<&'a str> = Vec::new();
    let mut i: usize = 0;
    assert(texts(tokens@) =~= tokens_of(texts(pieces@).take(0)));
    while i < pieces.len()
        invariant
            i <= pieces@.len(),
            texts(tokens@) == tokens_of(texts(pieces@).take(i as int)),
        decreases pieces@.len() - i,
    {
        assert(texts(pieces@).take(i + 1).drop_last() =~= texts(pieces@).take(i as int));
        assert(texts(pieces@).take(i + 1).last() == pieces@[i as int]@);
        let piece = pieces[i];
        put_text(&mut tokens, piece);
        put_part(&mut tokens, letters_first(piece), piece);
        put_part(&mut tokens, letters_last(piece), piece);
        i = i + 1;
    }
    assert(texts(pieces@).take(pieces@.len() as int) =~= texts(pieces@));
    tokens
}

/// The tokens of a name, in ascending order.
pub fn tokenize(text: &str) -> (tokens: Vec<String>)
    ensures
        strings(tokens@) == name_tokens(text@),
{
    let slices = token_slices(text);
    let mut tokens: Vec<String> = Vec::new();
    let mut i: usize = 0;
    while i < slices.len()
        invariant
            i <= slices@.len(),
            tokens@.len() == i,
            forall|j: int| 0 <= j < i ==> (#[trigger] tokens@[j])@ == slices@[j]@,
        decreases slices@.len() - i,
    {
        tokens.push(slices[i].to_owned());
        i = i + 1;
    }
    assert(strings(tokens@) =~= texts(slices@));
    tokens
}

/// What speaks for one anchor. Weights are counted in halves.
#[derive(Debug)]
pub struct HintEntry {
    pub id: &'static str,
    pub anchor: Anchor,
    pub weight_halves: u64,
    pub sources: Vec<String>,
    pub supporters: Vec<&'static str>,
}

/// What a `HintEntry` stands for.
#[verifier::ext_equal]
pub struct EntryView {
    pub id: Seq<char>,
    pub anchor: AnchorView,
    pub weight_halves: int,
    pub sources: Seq<Seq<char>>,
    pub supporters: Seq<Seq<char>>,
}

impl View for HintEntry {
    type V = EntryView;

    open spec fn view(&self) -> EntryView {
        EntryView {
            id: self.id@,
            anchor: self.anchor@,
            weight_halves: self.weight_halves as int,
            sources: strings(self.sources@),
            supporters: texts(self.supporters@),
        }
    }
}

/// What speaks for each anchor, by ascending id.
#[derive(Debug)]
pub struct HintWeights {
    pub entries: Vec<HintEntry>,
}

impl View for HintWeights {
    type V = Seq<EntryView>;

    open spec fn view(&self) -> Seq<EntryView> {
        Seq::new(self.entries@.len(), |i: int| self.entries@[i]@)
    }
}

/// One observation: how much it weighs, which anchor the route led to, and where
/// it was made.
pub struct Observation {
    pub weight_halves: int,
    pub supporter: Option<Seq<char>>,
    pub source: Seq<char>,
}

/// The sum of two weights, which stops at the greatest that can be counted.
pub open spec fn weight_sum(a: int, b: int) -> int {
    if a + b > u64::MAX {
        u64::MAX as int
    } else {
        a + b
    }
}

/// An entry with one observation more.
pub open spec fn strengthened(entry: EntryView, seen: Observation) -> EntryView {
    EntryView {
        id: entry.id,
        anchor: entry.anchor,
        weight_halves: weight_sum(entry.weight_halves, seen.weight_halves),
        sources: entry.sources.push(seen.source),
        supporters: match seen.supporter {
            Some(id) => with_text(entry.supporters, id),
            None => entry.supporters,
        },
    }
}

/// An entry without observations.
pub open spec fn bare_entry(id: Seq<char>, anchor: AnchorView) -> EntryView {
    EntryView {
        id,
        anchor,
        weight_halves: 0,
        sources: Seq::<Seq<char>>::empty(),
        supporters: Seq::<Seq<char>>::empty(),
    }
}

/// The entries with one observation more for this anchor.
pub open spec fn with_observation(
    entries: Seq<EntryView>,
    id: Seq<char>,
    anchor: AnchorView,
    seen: Observation,
) -> Seq<EntryView>
    decreases entries.len(),
{
    if entries.len() == 0 || precedes(id, entries[0].id) {
        seq![strengthened(bare_entry(id, anchor), seen)] + entries
    } else if entries[0].id == id {
        seq![strengthened(entries[0], seen)] + entries.skip(1)
    } else {
        seq![entries[0]] + with_observation(entries.skip(1), id, anchor, seen)
    }
}

/// Tells whether an alias is found in a name in lower case.
pub open spec fn alias_found(alias: AliasView, haystack: Seq<char>) -> bool {
    if alias.partial {
        occurs(alias.token, haystack)
    } else {
        name_tokens(haystack).contains(alias.token)
    }
}

/// The entries after the aliases that are found in a name in lower case. An alias
/// for an anchor that is not listed counts for nothing.
pub open spec fn with_aliases(
    entries: Seq<EntryView>,
    aliases: Seq<AliasView>,
    haystack: Seq<char>,
    seen: Observation,
) -> Seq<EntryView>
    decreases aliases.len(),
{
    if aliases.len() == 0 {
        entries
    } else {
        let before = with_aliases(entries, aliases.drop_last(), haystack, seen);
        let alias = aliases.last();
        match anchor_of(anchor_list(), alias.id) {
            Some(anchor) => if alias_found(alias, haystack) {
                with_observation(before, alias.id, anchor, seen)
            } else {
                before
            },
            None => before,
        }
    }
}

/// The lower-case form of a text, as `str::to_lowercase` gives it.
pub uninterp spec fn lowercase(s: Seq<char>) -> Seq<char>;

/// The lower-case form of an ASCII character.
pub open spec fn ascii_lower(c: char) -> char {
    if 'A' <= c <= 'Z' {
        (c as int + 32) as char
    } else {
        c
    }
}

/// Tells whether the lower-case form of a text is what it has to be if the text is
/// ASCII.
pub open spec fn plainly_lowered(s: Seq<char>) -> bool {
    is_ascii_chars(s) ==> lowercase(s) == s.map_values(|c: char| ascii_lower(c))
}

/// Tells whether the lower-case form of the names of hops is what it has to be.
pub open spec fn hops_plainly_lowered(hops: Seq<HopView>) -> bool {
    forall|i: int|
        0 <= i < hops.len() && (#[trigger] hops[i]).hostname is Some ==> plainly_lowered(
            hops[i].hostname->0,
        )
}

/// Tells whether the lower-case form of the names along routes is what it has to be.
pub open spec fn traces_plainly_lowered(list: Seq<MeasurementView>) -> bool {
    forall|i: int|
        0 <= i < list.len() && (#[trigger] list[i]).trace is Some ==> hops_plainly_lowered(
            first_ten(list[i].trace->0),
        )
}

/// Calls `str::to_lowercase`. What it gives for a text depends on that text
/// alone, and for an ASCII text it is the text with `A` to `Z` replaced by `a`
/// to `z`.
#[verifier::external_body]
fn lowered(s: &str) -> (lower: String)
    ensures
        lower@ == lowercase(s@),
        is_ascii_chars(s@) ==> lower@ == s@.map_values(|c: char| ascii_lower(c)),
{
    s.to_lowercase()
}

/// The observation that the arguments of a call describe.
pub open spec fn observation(
    weight_halves: u64,
    supporter: Option<Anchor>,
    source: &str,
) -> Observation {
    Observation {
        weight_halves: weight_halves as int,
        supporter: match supporter {
            Some(anchor) => Some(anchor.id@),
            None => None,
        },
        source: source@,
    }
}

impl HintEntry {
    fn strengthen(&mut self, weight_halves: u64, supporter: Option<Anchor>, source: &str)
        ensures
            final(self)@ == strengthened(
                old(self)@,
                observation(weight_halves, supporter, source),
            ),
    {
        let ghost before = strings(self.sources@);
        self.weight_halves = self.weight_halves.saturating_add(weight_halves);
        self.sources.push(source.to_owned());
        assert(strings(self.sources@) =~= before.push(source@));
        match supporter {
            Some(anchor) => {
                put_text(&mut self.supporters, anchor.id);
            },
            None => {},
        }
    }
}

impl HintWeights {
    /// Nothing yet.
    pub fn new() -> (weights: HintWeights)
        ensures
            weights@ == Seq::<EntryView>::empty(),
    {
        let weights = HintWeights { entries: Vec::new() };
        assert(weights@ =~= Seq::<EntryView>::empty());
        weights
    }

    fn observe(
        &mut self,
        id: &'static str,
        anchor: Anchor,
        weight_halves: u64,
        supporter: Option<Anchor>,
        source: &str,
    )
        ensures
            final(self)@ == with_observation(
                old(self)@,
                id@,
                anchor@,
                observation(weight_halves, supporter, source),
            ),
    {
        let ghost all = self@;
        let ghost seen = observation(weight_halves, supporter, source);
        let ghost result = with_observation(all, id@, anchor@, seen);
        let mut i: usize = 0;
        assert(all.skip(0) =~= all);
        assert(all.take(0) + result =~= result);
        while i < self.entries.len() && comes_before(self.entries[i].id, id)
            invariant
                all == self@,
                i <= self.entries@.len(),
                result == all.take(i as int) + with_observation(
                    all.skip(i as int),
                    id@,
                    anchor@,
                    seen,
                ),
            decreases self.entries@.len() - i,
        {
            proof {
                let rest = all.skip(i as int);
                assert(rest[0] == self.entries@[i as int]@);
                if precedes(id@, rest[0].id) {
                    lemma_precedes_transitive(id@, rest[0].id, id@);
                }
                lemma_precedes_irreflexive(id@);
                assert(rest.skip(1) =~= all.skip(i + 1));
                assert(all.take(i as int) + (seq![rest[0]] + with_observation(
                    rest.skip(1),
                    id@,
                    anchor@,
                    seen,
                )) =~= all.take(i + 1) + with_observation(all.skip(i + 1), id@, anchor@, seen));
            }
            i = i + 1;
        }
        let ghost rest = all.skip(i as int);
        if i < self.entries.len() && same(self.entries[i].id, id) {
            proof {
                assert(rest[0] == self.entries@[i as int]@);
                lemma_precedes_irreflexive(id@);
                assert(all.take(i as int) + (seq![strengthened(rest[0], seen)] + rest.skip(1))
                    =~= all.update(i as int, strengthened(rest[0], seen)));
            }
            self.entries[i].strengthen(weight_halves, supporter, source);
            assert(self@ =~= all.update(i as int, strengthened(rest[0], seen)));
        } else {
            let mut entry = HintEntry {
                id,
                anchor,
                weight_halves: 0,
                sources: Vec::new(),
                supporters: Vec::new(),
            };
            assert(entry@ =~= bare_entry(id@, anchor@));
            entry.strengthen(weight_halves, supporter, source);
            let ghost added = entry@;
            proof {
                if i < self.entries@.len() {
                    assert(rest[0] == self.entries@[i as int]@);
                    lemma_precedes_total(rest[0].id, id@);
                }
                assert(all.take(i as int) + (seq![added] + rest) =~= all.insert(i as int, added));
            }
            self.entries.insert(i, entry);
            assert(self@ =~= all.insert(i as int, added));
        }
    }

    /// Takes note of the aliases that are found in a name in lower case.
    pub fn accumulate_lowered(
        &mut self,
        haystack: &str,
        weight_halves: u64,
        supporting_anchor: Option<Anchor>,
        source: &str,
    )
        ensures
            final(self)@ == with_aliases(
                old(self)@,
                alias_list(),
                haystack@,
                observation(weight_halves, supporting_anchor, source),
            ),
    {
        let ghost seen = observation(weight_halves, supporting_anchor, source);
        let tokens = token_slices(haystack);
        let aliases = builtin_aliases();
        let anchors = builtin_anchors();
        let ghost all = alias_views(aliases@);
        let mut i: usize = 0;
        assert(all.take(0) =~= Seq::<AliasView>::empty());
        while i < aliases.len()
            invariant
                all == alias_views(aliases@),
                anchor_list() == crate::anchors::anchor_views(anchors@),
                texts(tokens@) == name_tokens(haystack@),
                seen == observation(weight_halves, supporting_anchor, source),
                i <= aliases@.len(),
                self@ == with_aliases(old(self)@, all.take(i as int), haystack@, seen),
            decreases aliases@.len() - i,
        {
            assert(all.take(i + 1).drop_last() =~= all.take(i as int));
            assert(all.take(i + 1).last() == aliases@[i as int]@);
            let alias = aliases[i];
            let found = if alias.partial {
                contains_text(haystack, alias.token)
            } else {
                list_contains(&tokens, alias.token)
            };
            if found {
                match find_anchor(&anchors, alias.id) {
                    Some(anchor) => {
                        self.observe(alias.id, anchor, weight_halves, supporting_anchor, source);
                    },
                    None => {},
                }
            }
            i = i + 1;
        }
        assert(all.take(aliases@.len() as int) =~= all);
    }

    /// The entry for this anchor.
    pub fn get(&self, id: &str) -> (found: Option<&HintEntry>)
        ensures
            match found {
                Some(entry) => exists|i: int|
                    {
                        &&& 0 <= i < self@.len()
                        &&& #[trigger] self@[i] == entry@
                        &&& entry@.id == id@
                        &&& forall|j: int| 0 <= j < i ==> (#[trigger] self@[j]).id != id@
                    },
                None => forall|i: int| 0 <= i < self@.len() ==> (#[trigger] self@[i]).id != id@,
            },
    {
        let mut i: usize = 0;
        while i < self.entries.len()
            invariant
                i <= self.entries@.len(),
                forall|j: int| 0 <= j < i ==> (#[trigger] self@[j]).id != id@,
            decreases self.entries@.len() - i,
        {
            if same(self.entries[i].id, id) {
                assert(self@[i as int] == self.entries@[i as int]@);
                return Some(&self.entries[i]);
            }
            i = i + 1;
        }
        None
    }
}

/// Takes note of the aliases that are found in a name, whatever its case.
pub fn accumulate_matches(
    weights: &mut HintWeights,
    text: &str,
    weight_halves: u64,
    supporting_anchor: Option<Anchor>,
    source: &str,
)
    ensures
        final(weights)@ == with_aliases(
            old(weights)@,
            alias_list(),
            lowercase(text@),
            observation(weight_halves, supporting_anchor, source),
        ),
        plainly_lowered(text@),
{
    let haystack = lowered(text);
    weights.accumulate_lowered(haystack.as_str(), weight_halves, supporting_anchor, source);
}

/// The weight, in halves, of a name at this hop.
pub open spec fn hop_weight(hop: u8) -> u64 {
    if hop == 1 {
        10
    } else if hop == 2 {
        8
    } else if hop == 3 {
        6
    } else if hop == 4 || hop == 7 || hop == 8 {
        4
    } else if hop == 5 || hop == 6 {
        3
    } else {
        2
    }
}

fn weight_of_hop(hop: u8) -> (weight: u64)
    ensures
        weight == hop_weight(hop),
{
    match hop {
        1 => 10,
        2 => 8,
        3 => 6,
        4 => 4,
        5 | 6 => 3,
        7 | 8 => 4,
        _ => 2,
    }
}

/// Where a name at a hop was seen.
pub open spec fn hop_source(anchor: AnchorView, hop: u8, hostname: Seq<char>) -> Seq<char> {
    anchor_label(anchor) + " hop "@ + decimal(hop as nat) + " hostname="@ + hostname
}

/// The entries after the names of these hops on the way to this anchor.
pub open spec fn with_hops(
    entries: Seq<EntryView>,
    anchor: AnchorView,
    hops: Seq<HopView>,
) -> Seq<EntryView>
    decreases hops.len(),
{
    if hops.len() == 0 {
        entries
    } else {
        let before = with_hops(entries, anchor, hops.drop_last());
        let hop = hops.last();
        match hop.hostname {
            Some(hostname) => with_aliases(
                before,
                alias_list(),
                lowercase(hostname),
                Observation {
                    weight_halves: hop_weight(hop.hop) as int,
                    supporter: Some(anchor.id),
                    source: hop_source(anchor, hop.hop, hostname),
                },
            ),
            None => before,
        }
    }
}

/// The hops whose names count: the first ten.
pub open spec fn first_ten(hops: Seq<HopView>) -> Seq<HopView> {
    if hops.len() > 10 {
        hops.take(10)
    } else {
        hops
    }
}

/// The entries after the names of the hops of these measurements.
pub open spec fn with_traces(entries: Seq<EntryView>, list: Seq<MeasurementView>) -> Seq<EntryView>
    decreases list.len(),
{
    if list.len() == 0 {
        entries
    } else {
        let before = with_traces(entries, list.drop_last());
        match list.last().trace {
            Some(hops) => with_hops(before, list.last().anchor, first_ten(hops)),
            None => before,
        }
    }
}

/// A hint at a location.
#[derive(Debug, Clone)]
pub struct LocationHint {
    pub anchor: Anchor,
    pub weight: Double,
    pub source: String,
    pub supporting_anchors: Vec<Anchor>,
}

/// What a `LocationHint` stands for.
#[verifier::ext_equal]
pub struct HintView {
    pub anchor: AnchorView,
    pub weight: Double,
    pub source: Seq<char>,
    pub supporting_anchors: Seq<AnchorView>,
}

impl View for LocationHint {
    type V = HintView;

    open spec fn view(&self) -> HintView {
        HintView {
            anchor: self.anchor@,
            weight: self.weight,
            source: self.source@,
            supporting_anchors: crate::anchors::anchor_views(self.supporting_anchors@),
        }
    }
}

/// What a list of hints stands for.
pub open spec fn hint_views(list: Seq<LocationHint>) -> Seq<HintView> {
    Seq::new(list.len(), |i: int| list[i]@)
}

/// The listed anchors of these ids.
pub open spec fn anchors_of(ids: Seq<Seq<char>>) -> Seq<AnchorView>
    decreases ids.len(),
{
    if ids.len() == 0 {
        Seq::<AnchorView>::empty()
    } else {
        let before = anchors_of(ids.drop_last());
        match anchor_of(anchor_list(), ids.last()) {
            Some(anchor) => before.push(anchor),
            None => before,
        }
    }
}

/// The halves of a weight that count. No weight counts for more than twelve.
pub open spec fn counted_halves(halves: int) -> int {
    if halves > 24 {
        24
    } else {
        halves
    }
}

/// The hint that an entry gives.
pub open spec fn hint_of(rules: Rules, entry: EntryView) -> HintView {
    HintView {
        anchor: entry.anchor,
        weight: rules.div(rules.count(counted_halves(entry.weight_halves)), rules.count(2)),
        source: join(entry.sources, " | "@),
        supporting_anchors: anchors_of(entry.supporters),
    }
}

/// The hints that entries give.
pub open spec fn hints_of(rules: Rules, entries: Seq<EntryView>) -> Seq<HintView> {
    Seq::new(entries.len(), |i: int| hint_of(rules, entries[i]))
}

fn find_anchors(anchors: &Vec<Anchor>, ids: &Vec<&'static str>) -> (found: Vec<Anchor>)
    requires
        crate::anchors::anchor_views(anchors@) == anchor_list(),
    ensures
        crate::anchors::anchor_views(found@) == anchors_of(texts(ids@)),
{
    let mut found: Vec<Anchor> = Vec::new();
    let mut i: usize = 0;
    assert(crate::anchors::anchor_views(found@) =~= anchors_of(texts(ids@).take(0)));
    while i < ids.len()
        invariant
            crate::anchors::anchor_views(anchors@) == anchor_list(),
            i <= ids@.len(),
            crate::anchors::anchor_views(found@) == anchors_of(texts(ids@).take(i as int)),
        decreases ids@.len() - i,
    {
        assert(texts(ids@).take(i + 1).drop_last() =~= texts(ids@).take(i as int));
        assert(texts(ids@).take(i + 1).last() == ids@[i as int]@);
        let ghost before = crate::anchors::anchor_views(found@);
        match find_anchor(anchors, ids[i]) {
            Some(anchor) => {
                found.push(anchor);
                assert(crate::anchors::anchor_views(found@) =~= before.push(anchor@));
            },
            None => {},
        }
        i = i + 1;
    }
    assert(texts(ids@).take(ids@.len() as int) =~= texts(ids@));
    found
}

/// The hints that the weights give, by ascending id of their anchors.
pub fn weights_to_hints<A: Fn(Calc) -> Double>(
    weights: &HintWeights,
    arith: &Arith<A>,
) -> (hints: Vec<LocationHint>)
    requires
        arith.complete(),
    ensures
        forall|rules: Rules| #[trigger]
            arith.follows(rules) ==> hint_views(hints@) == hints_of(rules, weights@),
{
    let anchors = builtin_anchors();
    let mut hints: Vec<LocationHint> = Vec::new();
    let mut i: usize = 0;
    while i < weights.entries.len()
        invariant
            crate::anchors::anchor_views(anchors@) == anchor_list(),
            i <= weights.entries@.len(),
            hints@.len() == i,
            arith.complete(),
            forall|rules: Rules, j: int|
                #![trigger arith.follows(rules), hints@[j]]
                arith.follows(rules) && 0 <= j < i ==> hints@[j]@ == hint_of(rules, weights@[j]),
        decreases weights.entries@.len() - i,
    {
        let entry = &weights.entries[i];
        let halves: u64 = if entry.weight_halves > 24 {
            24
        } else {
            entry.weight_halves
        };
        let hint = LocationHint {
            anchor: entry.anchor,
            weight: arith.div(arith.count(halves), arith.count(2)),
            source: join_strings(&entry.sources, " | "),
            supporting_anchors: find_anchors(&anchors, &entry.supporters),
        };
        let ghost view = hint@;
        assert forall|rules: Rules| #[trigger] arith.follows(rules) implies view == hint_of(
            rules,
            weights@[i as int],
        ) by {}
        hints.push(hint);
        i = i + 1;
    }
    assert forall|rules: Rules| #[trigger] arith.follows(rules) implies hint_views(hints@)
        == hints_of(rules, weights@) by {
        assert(hint_views(hints@) =~= hints_of(rules, weights@));
    }
    hints
}

fn accumulate_hops(weights: &mut HintWeights, anchor: Anchor, hops: &Vec<TraceHop>)
    ensures
        final(weights)@ == with_hops(
            old(weights)@,
            anchor@,
            first_ten(crate::probe::hop_views(hops@)),
        ),
        hops_plainly_lowered(first_ten(crate::probe::hop_views(hops@))),
{
    let ghost all = first_ten(crate::probe::hop_views(hops@));
    let n: usize = if hops.len() > 10 {
        10
    } else {
        hops.len()
    };
    let mut i: usize = 0;
    assert(all.take(0) =~= Seq::<HopView>::empty());
    while i < n
        invariant
            all == first_ten(crate::probe::hop_views(hops@)),
            n == all.len(),
            n <= hops@.len(),
            i <= n,
            weights@ == with_hops(old(weights)@, anchor@, all.take(i as int)),
            forall|j: int|
                0 <= j < i && (#[trigger] all[j]).hostname is Some ==> plainly_lowered(
                    all[j].hostname->0,
                ),
        decreases n - i,
    {
        assert(all.take(i + 1).drop_last() =~= all.take(i as int));
        assert(all.take(i + 1).last() == hops@[i as int]@);
        let hop = &hops[i];
        match &hop.hostname {
            Some(hostname) => {
                let mut source = anchor.label();
                let number = decimal_text(hop.hop as u64);
                source.append(" hop ");
                source.append(number.as_str());
                source.append(" hostname=");
                source.append(hostname.as_str());
                accumulate_matches(
                    weights,
                    hostname.as_str(),
                    weight_of_hop(hop.hop),
                    Some(anchor),
                    source.as_str(),
                );
            },
            None => {},
        }
        i = i + 1;
    }
    assert(all.take(n as int) =~= all);
}

fn accumulate_traces(weights: &mut HintWeights, measurements: &Vec<Measurement>)
    ensures
        final(weights)@ == with_traces(
            old(weights)@,
            crate::probe::measurement_views(measurements@),
        ),
        traces_plainly_lowered(crate::probe::measurement_views(measurements@)),
{
    let ghost all = crate::probe::measurement_views(measurements@);
    let mut i: usize = 0;
    assert(all.take(0) =~= Seq::<MeasurementView>::empty());
    while i < measurements.len()
        invariant
            all == crate::probe::measurement_views(measurements@),
            i <= measurements@.len(),
            forall|j: int|
                0 <= j < i && (#[trigger] all[j]).trace is Some ==> hops_plainly_lowered(
                    first_ten(all[j].trace->0),
                ),
            weights@ == with_traces(old(weights)@, all.take(i as int)),
        decreases measurements@.len() - i,
    {
        assert(all.take(i + 1).drop_last() =~= all.take(i as int));
        assert(all.take(i + 1).last() == measurements@[i as int]@);
        let measurement = &measurements[i];
        match &measurement.trace {
            Some(trace) => {
                accumulate_hops(weights, measurement.anchor, &trace.hops);
            },
            None => {},
        }
        i = i + 1;
    }
    assert(all.take(measurements@.len() as int) =~= all);
}

/// The hints that the traced routes give.
pub fn derive_trace_location_hints<A: Fn(Calc) -> Double>(
    measurements: &Vec<Measurement>,
    arith: &Arith<A>,
) -> (hints: Vec<LocationHint>)
    requires
        arith.complete(),
    ensures
        forall|rules: Rules| #[trigger]
            arith.follows(rules) ==> hint_views(hints@) == hints_of(
                rules,
                with_traces(
                    Seq::<EntryView>::empty(),
                    crate::probe::measurement_views(measurements@),
                ),
            ),
        traces_plainly_lowered(crate::probe::measurement_views(measurements@)),
{
    let mut weights = HintWeights::new();
    accumulate_traces(&mut weights, measurements);
    weights_to_hints(&weights, arith)
}

/// The entries after the name of the local host.
pub open spec fn with_local_name(hostname: Option<Seq<char>>) -> Seq<EntryView> {
    match hostname {
        Some(name) => with_aliases(
            Seq::<EntryView>::empty(),
            alias_list(),
            lowercase(name),
            Observation {
                weight_halves: 3,
                supporter: None,
                source: "local hostname="@ + name,
            },
        ),
        None => Seq::<EntryView>::empty(),
    }
}

/// The hints that the name of the local host and the traced routes give.
pub fn derive_location_hints<A: Fn(Calc) -> Double>(
    local_hostname: &Option<String>,
    measurements: &Vec<Measurement>,
    arith: &Arith<A>,
) -> (hints: Vec<LocationHint>)
    requires
        arith.complete(),
    ensures
        forall|rules: Rules| #[trigger]
            arith.follows(rules) ==> hint_views(hints@) == hints_of(
                rules,
                with_traces(
                    with_local_name(crate::text::maybe_text(*local_hostname)),
                    crate::probe::measurement_views(measurements@),
                ),
            ),
        *local_hostname is Some ==> plainly_lowered((*local_hostname)->0@),
        traces_plainly_lowered(crate::probe::measurement_views(measurements@)),
{
    let mut weights = HintWeights::new();
    match local_hostname {
        Some(hostname) => {
            let mut source = "local hostname=".to_owned();
            source.append(hostname.as_str());
            accumulate_matches(&mut weights, hostname.as_str(), 3, None, source.as_str());
        },
        None => {},
    }
    accumulate_traces(&mut weights, measurements);
    weights_to_hints(&weights, arith)
}

/// The name of the local host, from what `hostname` printed.
pub fn local_hostname(stdout: &str) -> (hostname: Option<String>)
    ensures
        crate::text::maybe_text(hostname) == (if crate::text::trim(stdout@).len() == 0 {
            None
        } else {
            Some(crate::text::trim(stdout@))
        }),
{
    let trimmed = crate::text::trim_of(stdout);
    if trimmed.is_empty() {
        None
    } else {
        Some(trimmed.to_owned())
    }
}

} // verus!
