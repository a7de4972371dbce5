//! What the hints promise: one for each anchor, by ascending id, and with each
//! supporter once. And what the tokens of a name are.

use crate::anchors::{anchor_list, anchor_of, anchor_position, AnchorView};
use crate::hints::{
    alias_list, bare_entry, first_ten, leading_letters, name_tokens, strengthened, tokens_of,
    trailing_letters, with_aliases, with_hops, with_local_name, with_observation, with_part,
    with_traces, AliasView, EntryView, Observation,
};
use crate::probe::{HopView, MeasurementView};
use crate::text::{
    ascending_texts, join, lemma_ascending_unique, lemma_nonempty_members, lemma_nonempty_of_parts,
    lemma_pieces_unbroken, lemma_precedes_total, lemma_precedes_transitive, lemma_split_at,
    lemma_split_join, lemma_with_text, letter, nonempty, precedes, separates, split, unbroken,
    with_text, Boundary,
};
use vstd::prelude::*;

verus! {

/// Tells whether an entry is on the anchor of its id, says where it was seen, and
/// names each supporter once.
pub open spec fn sound(entry: EntryView) -> bool {
    &&& entry.anchor.id == entry.id
    &&& entry.sources.len() > 0
    &&& ascending_texts(entry.supporters)
}

/// Tells whether entries are sound and stand in ascending order of their ids, so that
/// no anchor has two.
pub open spec fn in_order(entries: Seq<EntryView>) -> bool {
    &&& forall|i: int| 0 <= i < entries.len() ==> sound(#[trigger] entries[i])
    &&& forall|i: int, j: int|
        0 <= i < j < entries.len() ==> precedes(
            (#[trigger] entries[i]).id,
            (#[trigger] entries[j]).id,
        )
}

proof fn lemma_strengthened(entry: EntryView, seen: Observation)
    requires
        entry.anchor.id == entry.id,
        ascending_texts(entry.supporters),
    ensures
        sound(strengthened(entry, seen)),
{
    if let Some(id) = seen.supporter {
        lemma_with_text(entry.supporters, id);
    }
}

/// All entries but the first are still in order.
pub proof fn lemma_rest_in_order(entries: Seq<EntryView>)
    requires
        in_order(entries),
        entries.len() > 0,
    ensures
        in_order(entries.skip(1)),
{
    let rest = entries.skip(1);
    assert forall|i: int| 0 <= i < rest.len() implies sound(#[trigger] rest[i]) by {
        assert(rest[i] == entries[i + 1]);
    }
    assert forall|i: int, j: int| 0 <= i < j < rest.len() implies precedes(
        (#[trigger] rest[i]).id,
        (#[trigger] rest[j]).id,
    ) by {
        assert(rest[i] == entries[i + 1]);
        assert(rest[j] == entries[j + 1]);
    }
}

proof fn lemma_with_observation(
    entries: Seq<EntryView>,
    id: Seq<char>,
    anchor: AnchorView,
    seen: Observation,
)
    requires
        in_order(entries),
        anchor.id == id,
    ensures
        in_order(with_observation(entries, id, anchor, seen)),
        forall|i: int|
            0 <= i < with_observation(entries, id, anchor, seen).len() ==> (
            #[trigger] with_observation(entries, id, anchor, seen)[i]).id == id || exists|j: int|
                0 <= j < entries.len() && (#[trigger] entries[j]).id == with_observation(
                    entries,
                    id,
                    anchor,
                    seen,
                )[i].id,
    decreases entries.len(),
{
    let all = with_observation(entries, id, anchor, seen);
    lemma_strengthened(bare_entry(id, anchor), seen);
    if entries.len() == 0 {
    } else if precedes(id, entries[0].id) {
        assert forall|i: int| 0 <= i < all.len() implies sound(#[trigger] all[i]) by {
            if i > 0 {
                assert(all[i] == entries[i - 1]);
            }
        }
        assert forall|i: int, j: int| 0 <= i < j < all.len() implies precedes(
            (#[trigger] all[i]).id,
            (#[trigger] all[j]).id,
        ) by {
            assert(all[j] == entries[j - 1]);
            if i > 0 {
                assert(all[i] == entries[i - 1]);
            } else if j > 1 {
                lemma_precedes_transitive(id, entries[0].id, entries[j - 1].id);
            }
        }
        assert forall|i: int| 0 <= i < all.len() && (#[trigger] all[i]).id != id implies exists|
            j: int,
        |
            0 <= j < entries.len() && (#[trigger] entries[j]).id == all[i].id by {
            assert(all[i] == entries[i - 1]);
        }
    } else if entries[0].id == id {
        lemma_strengthened(entries[0], seen);
        assert forall|i: int| 0 <= i < all.len() implies sound(#[trigger] all[i]) by {
            if i > 0 {
                assert(all[i] == entries[i]);
            }
        }
        assert forall|i: int, j: int| 0 <= i < j < all.len() implies precedes(
            (#[trigger] all[i]).id,
            (#[trigger] all[j]).id,
        ) by {
            assert(all[i].id == entries[i].id);
            assert(all[j].id == entries[j].id);
        }
        assert forall|i: int| 0 <= i < all.len() && (#[trigger] all[i]).id != id implies exists|
            j: int,
        |
            0 <= j < entries.len() && (#[trigger] entries[j]).id == all[i].id by {
            assert(all[i].id == entries[i].id);
        }
    } else {
        let rest = entries.skip(1);
        lemma_rest_in_order(entries);
        lemma_with_observation(rest, id, anchor, seen);
        lemma_precedes_total(entries[0].id, id);
        let inner = with_observation(rest, id, anchor, seen);
        assert forall|i: int| 0 <= i < all.len() implies sound(#[trigger] all[i]) by {
            if i > 0 {
                assert(all[i] == inner[i - 1]);
            } else {
                assert(all[0] == entries[0]);
            }
        }
        assert forall|i: int, j: int| 0 <= i < j < all.len() implies precedes(
            (#[trigger] all[i]).id,
            (#[trigger] all[j]).id,
        ) by {
            assert(all[j] == inner[j - 1]);
            if i > 0 {
                assert(all[i] == inner[i - 1]);
            } else if inner[j - 1].id != id {
                let k = choose|k: int|
                    0 <= k < rest.len() && (#[trigger] rest[k]).id == inner[j - 1].id;
                assert(rest[k] == entries[k + 1]);
            }
        }
        assert forall|i: int| 0 <= i < all.len() && (#[trigger] all[i]).id != id implies exists|
            j: int,
        |
            0 <= j < entries.len() && (#[trigger] entries[j]).id == all[i].id by {
            if i > 0 {
                assert(all[i] == inner[i - 1]);
                let k = choose|k: int|
                    0 <= k < rest.len() && (#[trigger] rest[k]).id == inner[i - 1].id;
                assert(rest[k] == entries[k + 1]);
            } else {
                assert(all[0] == entries[0]);
            }
        }
    }
}

proof fn lemma_anchor_position(anchors: Seq<AnchorView>, id: Seq<char>)
    ensures
        0 <= anchor_position(anchors, id) <= anchors.len(),
        anchor_position(anchors, id) < anchors.len() ==> anchors[anchor_position(anchors, id)].id
            == id,
    decreases anchors.len(),
{
    if anchors.len() > 0 && anchors[0].id != id {
        lemma_anchor_position(anchors.skip(1), id);
    }
}

/// The aliases that are found in a name keep the entries in order.
pub proof fn lemma_with_aliases_in_order(
    entries: Seq<EntryView>,
    aliases: Seq<AliasView>,
    haystack: Seq<char>,
    seen: Observation,
)
    requires
        in_order(entries),
    ensures
        in_order(with_aliases(entries, aliases, haystack, seen)),
    decreases aliases.len(),
{
    if aliases.len() > 0 {
        lemma_with_aliases_in_order(entries, aliases.drop_last(), haystack, seen);
        let before = with_aliases(entries, aliases.drop_last(), haystack, seen);
        let alias = aliases.last();
        lemma_anchor_position(anchor_list(), alias.id);
        if let Some(anchor) = anchor_of(anchor_list(), alias.id) {
            lemma_with_observation(before, alias.id, anchor, seen);
        }
    }
}

/// The names of hops keep the entries in order.
pub proof fn lemma_with_hops_in_order(
    entries: Seq<EntryView>,
    anchor: AnchorView,
    hops: Seq<HopView>,
)
    requires
        in_order(entries),
    ensures
        in_order(with_hops(entries, anchor, hops)),
    decreases hops.len(),
{
    if hops.len() > 0 {
        lemma_with_hops_in_order(entries, anchor, hops.drop_last());
        let before = with_hops(entries, anchor, hops.drop_last());
        let hop = hops.last();
        if let Some(hostname) = hop.hostname {
            lemma_with_aliases_in_order(
                before,
                alias_list(),
                crate::hints::lowercase(hostname),
                Observation {
                    weight_halves: crate::hints::hop_weight(hop.hop) as int,
                    supporter: Some(anchor.id),
                    source: crate::hints::hop_source(anchor, hop.hop, hostname),
                },
            );
        }
    }
}

/// The names along traced routes keep the entries in order.
pub proof fn lemma_with_traces_in_order(entries: Seq<EntryView>, list: Seq<MeasurementView>)
    requires
        in_order(entries),
    ensures
        in_order(with_traces(entries, list)),
    decreases list.len(),
{
    if list.len() > 0 {
        lemma_with_traces_in_order(entries, list.drop_last());
        let before = with_traces(entries, list.drop_last());
        if let Some(hops) = list.last().trace {
            lemma_with_hops_in_order(before, list.last().anchor, first_ten(hops));
        }
    }
}

/// Whatever the name of the local host and the routes are, there is at most one hint
/// for each anchor, the hints stand in ascending order of the ids of their anchors,
/// and each names its supporters once.
pub proof fn lemma_hints_in_order(hostname: Option<Seq<char>>, list: Seq<MeasurementView>)
    ensures
        in_order(with_traces(Seq::<EntryView>::empty(), list)),
        in_order(with_traces(with_local_name(hostname), list)),
{
    let nothing = Seq::<EntryView>::empty();
    lemma_with_traces_in_order(nothing, list);
    if let Some(name) = hostname {
        lemma_with_aliases_in_order(
            nothing,
            alias_list(),
            crate::hints::lowercase(name),
            Observation {
                weight_halves: 3,
                supporter: None,
                source: "local hostname="@ + name,
            },
        );
    }
    lemma_with_traces_in_order(with_local_name(hostname), list);
}

proof fn lemma_tokens_of(pieces: Seq<Seq<char>>)
    ensures
        ascending_texts(tokens_of(pieces)),
    decreases pieces.len(),
{
    if pieces.len() > 0 {
        lemma_tokens_of(pieces.drop_last());
        let piece = pieces.last();
        let before = tokens_of(pieces.drop_last());
        lemma_with_text(before, piece);
        let whole = with_text(before, piece);
        lemma_with_text(whole, leading_letters(piece));
        lemma_with_text(
            with_part(whole, leading_letters(piece), piece),
            trailing_letters(piece),
        );
    }
}

/// The tokens of a name stand in ascending order, each once.
pub proof fn lemma_name_tokens_ascend(name: Seq<char>)
    ensures
        ascending_texts(name_tokens(name)),
{
    lemma_tokens_of(nonempty(split(name, Boundary::NotAlphanumeric)));
}

/// Tells whether a piece of a name gives a token: the whole piece, or the letters that
/// it starts or ends with if they are three or more and less than the whole.
pub open spec fn gives(piece: Seq<char>, token: Seq<char>) -> bool {
    ||| token == piece
    ||| 3 <= token.len() < piece.len() && (token == leading_letters(piece) || token
        == trailing_letters(piece))
}

/// Tells whether one of the pieces gives a token.
pub open spec fn some_gives(pieces: Seq<Seq<char>>, token: Seq<char>) -> bool {
    exists|i: int| 0 <= i < pieces.len() && gives(#[trigger] pieces[i], token)
}

proof fn lemma_with_part(
    tokens: Seq<Seq<char>>,
    part: Seq<char>,
    piece: Seq<char>,
    token: Seq<char>,
)
    requires
        ascending_texts(tokens),
    ensures
        ascending_texts(with_part(tokens, part, piece)),
        with_part(tokens, part, piece).contains(token) <==> tokens.contains(token) || (token
            == part && 3 <= part.len() < piece.len()),
{
    lemma_with_text(tokens, part);
}

/// The tokens of pieces are what the pieces give.
pub proof fn lemma_tokens_are_given(pieces: Seq<Seq<char>>, token: Seq<char>)
    ensures
        tokens_of(pieces).contains(token) <==> some_gives(pieces, token),
    decreases pieces.len(),
{
    if pieces.len() > 0 {
        let shorter = pieces.drop_last();
        let piece = pieces[pieces.len() - 1];
        lemma_tokens_are_given(shorter, token);
        lemma_tokens_of(shorter);
        let before = tokens_of(shorter);
        lemma_with_text(before, piece);
        let whole = with_text(before, piece);
        assert(whole.contains(token) <==> before.contains(token) || token == piece);
        lemma_with_part(whole, leading_letters(piece), piece, token);
        lemma_with_part(
            with_part(whole, leading_letters(piece), piece),
            trailing_letters(piece),
            piece,
            token,
        );
        assert(tokens_of(pieces).contains(token) <==> before.contains(token) || gives(
            piece,
            token,
        ));
        if some_gives(shorter, token) {
            let k = choose|k: int| 0 <= k < shorter.len() && gives(#[trigger] shorter[k], token);
            assert(gives(pieces[k], token));
        }
        if some_gives(pieces, token) {
            let k = choose|k: int| 0 <= k < pieces.len() && gives(#[trigger] pieces[k], token);
            if k < shorter.len() {
                assert(gives(shorter[k], token));
            }
        }
    }
}

/// The tokens of a text are those of its two parts on either side of a separator,
/// whichever separator it is.
pub proof fn lemma_tokens_of_parts(a: Seq<char>, separator: char, b: Seq<char>)
    requires
        separates(Boundary::NotAlphanumeric, separator),
    ensures
        forall|token: Seq<char>| #[trigger]
            name_tokens(a + seq![separator] + b).contains(token) <==> name_tokens(a).contains(token)
                || name_tokens(b).contains(token),
{
    let boundary = Boundary::NotAlphanumeric;
    let text = a + seq![separator] + b;
    assert(text =~= a.push(separator) + b);
    lemma_split_at(a, separator, b, boundary);
    lemma_nonempty_of_parts(split(a, boundary), split(b, boundary));
    let left = nonempty(split(a, boundary));
    let right = nonempty(split(b, boundary));
    let all = nonempty(split(text, boundary));
    assert(all == left + right);
    assert forall|token: Seq<char>| #[trigger] name_tokens(text).contains(token) <==> name_tokens(
        a,
    ).contains(token) || name_tokens(b).contains(token) by {
        lemma_tokens_are_given(left, token);
        lemma_tokens_are_given(right, token);
        lemma_tokens_are_given(all, token);
        if some_gives(all, token) {
            let k = choose|k: int| 0 <= k < all.len() && gives(#[trigger] all[k], token);
            if k < left.len() {
                assert(gives(left[k], token));
            } else {
                assert(gives(right[k - left.len()], token));
            }
        }
        if some_gives(left, token) {
            let k = choose|k: int| 0 <= k < left.len() && gives(#[trigger] left[k], token);
            assert(gives(all[k], token));
        }
        if some_gives(right, token) {
            let k = choose|k: int| 0 <= k < right.len() && gives(#[trigger] right[k], token);
            assert(gives(all[left.len() + k], token));
        }
    }
}

spec fn all_letters(s: Seq<char>) -> bool {
    forall|i: int| 0 <= i < s.len() ==> letter(#[trigger] s[i])
}

proof fn lemma_leading_letters(s: Seq<char>)
    ensures
        leading_letters(s).len() <= s.len(),
        forall|i: int|
            0 <= i < leading_letters(s).len() ==> #[trigger] leading_letters(s)[i] == s[i],
        all_letters(leading_letters(s)),
        all_letters(s) ==> leading_letters(s) == s,
    decreases s.len(),
{
    if s.len() > 0 && letter(s[0]) {
        let rest = s.skip(1);
        lemma_leading_letters(rest);
        let found = leading_letters(s);
        assert forall|i: int| 0 <= i < found.len() implies #[trigger] found[i] == s[i] by {
            if i > 0 {
                assert(found[i] == leading_letters(rest)[i - 1]);
            }
        }
        assert forall|i: int| 0 <= i < found.len() implies letter(#[trigger] found[i]) by {
            if i > 0 {
                assert(found[i] == leading_letters(rest)[i - 1]);
            }
        }
        if all_letters(s) {
            assert forall|i: int| 0 <= i < rest.len() implies letter(#[trigger] rest[i]) by {
                assert(rest[i] == s[i + 1]);
            }
            assert(found =~= s);
        }
    } else if s.len() > 0 {
        assert(!letter(s[0]));
    } else {
        assert(leading_letters(s) =~= s);
    }
}

proof fn lemma_trailing_letters(s: Seq<char>)
    ensures
        trailing_letters(s).len() <= s.len(),
        forall|i: int|
            0 <= i < trailing_letters(s).len() ==> #[trigger] trailing_letters(s)[i] == s[s.len()
                - trailing_letters(s).len() + i],
        all_letters(trailing_letters(s)),
        all_letters(s) ==> trailing_letters(s) == s,
    decreases s.len(),
{
    if s.len() > 0 && letter(s.last()) {
        let rest = s.drop_last();
        lemma_trailing_letters(rest);
        let found = trailing_letters(s);
        let inner = trailing_letters(rest);
        assert forall|i: int| 0 <= i < found.len() implies #[trigger] found[i] == s[s.len()
            - found.len() + i] by {
            if i < inner.len() {
                assert(found[i] == inner[i]);
            }
        }
        assert forall|i: int| 0 <= i < found.len() implies letter(#[trigger] found[i]) by {
            if i < inner.len() {
                assert(found[i] == inner[i]);
            }
        }
        if all_letters(s) {
            assert forall|i: int| 0 <= i < rest.len() implies letter(#[trigger] rest[i]) by {
                assert(rest[i] == s[i]);
            }
            assert(found =~= s);
        }
    } else if s.len() > 0 {
        assert(!letter(s[s.len() - 1]));
    } else {
        assert(trailing_letters(s) =~= s);
    }
}

/// What a token of a piece gives, the piece gives already.
proof fn lemma_gives_again(piece: Seq<char>, token: Seq<char>, again: Seq<char>)
    requires
        gives(piece, token),
        gives(token, again),
    ensures
        gives(piece, again),
{
    if token != piece {
        lemma_leading_letters(piece);
        lemma_trailing_letters(piece);
        lemma_leading_letters(token);
        lemma_trailing_letters(token);
    }
}

proof fn lemma_token_unbroken(piece: Seq<char>, token: Seq<char>)
    requires
        unbroken(piece, Boundary::NotAlphanumeric),
        piece.len() > 0,
        gives(piece, token),
    ensures
        unbroken(token, Boundary::NotAlphanumeric),
        token.len() > 0,
{
    lemma_leading_letters(piece);
    lemma_trailing_letters(piece);
    assert forall|i: int| 0 <= i < token.len() implies !separates(
        Boundary::NotAlphanumeric,
        #[trigger] token[i],
    ) by {
        if token == piece || token == leading_letters(piece) {
            assert(token[i] == piece[i]);
        } else {
            assert(token[i] == piece[piece.len() - token.len() + i]);
        }
    }
}

proof fn lemma_piece_of_token(name: Seq<char>, token: Seq<char>) -> (piece: Seq<char>)
    requires
        name_tokens(name).contains(token),
    ensures
        nonempty(split(name, Boundary::NotAlphanumeric)).contains(piece),
        piece.len() > 0,
        unbroken(piece, Boundary::NotAlphanumeric),
        gives(piece, token),
{
    let boundary = Boundary::NotAlphanumeric;
    let pieces = nonempty(split(name, boundary));
    lemma_tokens_are_given(pieces, token);
    let k = choose|k: int| 0 <= k < pieces.len() && gives(#[trigger] pieces[k], token);
    lemma_nonempty_members(split(name, boundary));
    lemma_pieces_unbroken(name, boundary);
    let piece = pieces[k];
    assert(piece.len() > 0 && split(name, boundary).contains(piece));
    let at = choose|at: int|
        0 <= at < split(name, boundary).len() && split(name, boundary)[at] == piece;
    assert(unbroken(split(name, boundary)[at], boundary));
    piece
}

/// Taking the tokens of a text again, with dots between them, gives the same tokens.
pub proof fn lemma_tokens_again(name: Seq<char>)
    ensures
        name_tokens(join(name_tokens(name), seq!['.'])) == name_tokens(name),
{
    let boundary = Boundary::NotAlphanumeric;
    let tokens = name_tokens(name);
    let pieces = nonempty(split(name, boundary));
    let text = join(tokens, seq!['.']);
    assert forall|i: int| 0 <= i < tokens.len() implies unbroken(#[trigger] tokens[i], boundary)
        && tokens[i].len() > 0 by {
        assert(tokens.contains(tokens[i]));
        let piece = lemma_piece_of_token(name, tokens[i]);
        lemma_token_unbroken(piece, tokens[i]);
    }
    if tokens.len() == 0 {
        assert(nonempty(split(text, boundary)) =~= tokens) by {
            reveal_with_fuel(nonempty, 2);
        }
    } else {
        lemma_split_join(tokens, '.', boundary);
        lemma_nonempty_members(tokens);
    }
    assert(nonempty(split(text, boundary)) == tokens);
    lemma_tokens_of(tokens);
    lemma_tokens_of(pieces);
    assert forall|token: Seq<char>| #[trigger] tokens_of(tokens).contains(token)
        <==> tokens.contains(token) by {
        lemma_tokens_are_given(tokens, token);
        lemma_tokens_are_given(pieces, token);
        if tokens.contains(token) {
            let k = choose|k: int| 0 <= k < tokens.len() && tokens[k] == token;
            assert(gives(tokens[k], token));
        }
        if some_gives(tokens, token) {
            let k = choose|k: int| 0 <= k < tokens.len() && gives(#[trigger] tokens[k], token);
            assert(tokens.contains(tokens[k]));
            let piece = lemma_piece_of_token(name, tokens[k]);
            lemma_gives_again(piece, tokens[k], token);
            let at = choose|at: int| 0 <= at < pieces.len() && pieces[at] == piece;
            assert(gives(pieces[at], token));
        }
    }
    lemma_ascending_unique(tokens_of(tokens), tokens);
}

} // verus!
