//! What reading text takes off and what it leaves.

use crate::text::{
    all_digits, decimal, digit, lemma_decimal_round_trip, lemma_split_at, lemma_split_has_pieces,
    lemma_split_unbroken, lines, number, split, trim, trim_end, trim_end_matches, trim_start,
    unbroken, unsigned, until, white, without_plus, without_return, Boundary,
};
use vstd::prelude::*;

verus! {

proof fn lemma_trim_start_takes_white(s: Seq<char>) -> (a: int)
    ensures
        0 <= a <= s.len(),
        trim_start(s) == s.skip(a),
        forall|i: int| 0 <= i < a ==> white(#[trigger] s[i]),
        a < s.len() ==> !white(s[a]),
    decreases s.len(),
{
    if s.len() > 0 && white(s[0]) {
        let rest = s.skip(1);
        let b = lemma_trim_start_takes_white(rest);
        assert(rest.skip(b) =~= s.skip(b + 1));
        assert forall|i: int| 0 <= i < b + 1 implies white(#[trigger] s[i]) by {
            if i > 0 {
                assert(rest[i - 1] == s[i]);
            }
        }
        if b < rest.len() {
            assert(rest[b] == s[b + 1]);
        }
        b + 1
    } else {
        assert(s.skip(0) =~= s);
        0
    }
}

proof fn lemma_trim_end_takes_white(s: Seq<char>) -> (b: int)
    ensures
        0 <= b <= s.len(),
        trim_end(s) == s.take(b),
        forall|i: int| b <= i < s.len() ==> white(#[trigger] s[i]),
        0 < b ==> !white(s[b - 1]),
    decreases s.len(),
{
    if s.len() > 0 && white(s.last()) {
        let rest = s.drop_last();
        let b = lemma_trim_end_takes_white(rest);
        assert(rest.take(b) =~= s.take(b));
        assert forall|i: int| b <= i < s.len() implies white(#[trigger] s[i]) by {
            if i < rest.len() {
                assert(rest[i] == s[i]);
            }
        }
        b
    } else {
        assert(s.take(s.len() as int) =~= s);
        s.len() as int
    }
}

/// Trimming takes white space off both ends, all of it and nothing else.
pub proof fn lemma_trim_takes_white_only(s: Seq<char>) -> (ends: (int, int))
    ensures
        0 <= ends.0 <= ends.1 <= s.len(),
        trim(s) == s.subrange(ends.0, ends.1),
        forall|i: int| 0 <= i < ends.0 ==> white(#[trigger] s[i]),
        forall|i: int| ends.1 <= i < s.len() ==> white(#[trigger] s[i]),
        ends.0 < ends.1 ==> !white(s[ends.0]) && !white(s[ends.1 - 1]),
{
    let a = lemma_trim_start_takes_white(s);
    let rest = s.skip(a);
    let b = lemma_trim_end_takes_white(rest);
    assert(rest.take(b) =~= s.subrange(a, a + b));
    assert forall|i: int| a + b <= i < s.len() implies white(#[trigger] s[i]) by {
        assert(rest[i - a] == s[i]);
    }
    if b > 0 {
        assert(rest[b - 1] == s[a + b - 1]);
    }
    (a, a + b)
}

/// Copies of a text are taken off the end until there is none left. What is left is what
/// stood before them.
pub proof fn lemma_copies_are_taken_off(s: Seq<char>, tail: Seq<char>)
    requires
        tail.len() > 0,
    ensures
        !tail.is_suffix_of(trim_end_matches(s, tail)),
        trim_end_matches(s, tail).is_prefix_of(s),
        trim_end_matches(s + tail, tail) == trim_end_matches(s, tail),
        !tail.is_suffix_of(s) ==> trim_end_matches(s, tail) == s,
    decreases s.len(),
{
    if tail.is_suffix_of(s) {
        let rest = s.take(s.len() - tail.len());
        lemma_copies_are_taken_off(rest, tail);
        let left = trim_end_matches(rest, tail);
        assert(left =~= s.subrange(0, left.len() as int)) by {
            assert(left == rest.subrange(0, left.len() as int));
        }
    } else {
        assert(s =~= s.subrange(0, s.len() as int));
    }
    let more = s + tail;
    assert(tail =~= more.subrange(more.len() - tail.len(), more.len() as int));
    assert(more.take(more.len() - tail.len()) =~= s);
}

/// A line ends in a line feed, or in a carriage return and a line feed, which are not part
/// of it. What follows are the lines of what follows.
pub proof fn lemma_line_ends(row: Seq<char>, rest: Seq<char>)
    requires
        unbroken(row, Boundary::Exactly('\n')),
    ensures
        lines(row + seq!['\r', '\n'] + rest) == seq![row] + lines(rest),
        row.len() == 0 || row.last() != '\r' ==> lines(row + seq!['\n'] + rest) == seq![row]
            + lines(rest),
{
    let boundary = Boundary::Exactly('\n');
    let ended = row.push('\r');
    assert(unbroken(ended, boundary));
    lemma_line_and_rest(ended, rest);
    assert(row + seq!['\r', '\n'] + rest =~= ended + seq!['\n'] + rest);
    assert(without_return(ended) =~= row);
    lemma_line_and_rest(row, rest);
}

proof fn lemma_line_and_rest(row: Seq<char>, rest: Seq<char>)
    requires
        unbroken(row, Boundary::Exactly('\n')),
    ensures
        lines(row + seq!['\n'] + rest) == seq![without_return(row)] + lines(rest),
{
    let boundary = Boundary::Exactly('\n');
    let text = row + seq!['\n'] + rest;
    assert(text =~= row.push('\n') + rest);
    lemma_split_at(row, '\n', rest, boundary);
    lemma_split_unbroken(row, boundary);
    lemma_split_has_pieces(rest, boundary);
    let pieces = split(text, boundary);
    let others = split(rest, boundary);
    assert(pieces =~= seq![row] + others);
    assert(pieces.last() == others.last());
    assert(lines(text) =~= seq![without_return(row)] + lines(rest));
}

/// A number is read from its digits, with a plus sign or without, if and only if it is not
/// above the greatest that is allowed.
pub proof fn lemma_number_is_read(n: nat, max: nat)
    ensures
        n <= max ==> unsigned(decimal(n), max) == Some(n) && unsigned(
            seq!['+'] + decimal(n),
            max,
        ) == Some(n),
        n > max ==> unsigned(decimal(n), max) is None && unsigned(
            seq!['+'] + decimal(n),
            max,
        ) is None,
{
    lemma_decimal_round_trip(n);
    let s = decimal(n);
    assert(digit(s[0]));
    assert(without_plus(s) == s);
    let plus = seq!['+'] + s;
    assert(plus[0] == '+');
    assert(plus.skip(1) =~= s);
}

/// Nothing but digits is read as a number, and nothing is not.
pub proof fn lemma_only_digits_are_read(s: Seq<char>, max: nat, i: int)
    ensures
        unsigned(Seq::<char>::empty(), max) is None,
        1 <= i < s.len() && !digit(s[i]) ==> unsigned(s, max) is None,
        s.len() > 0 && !digit(s[0]) && s[0] != '+' ==> unsigned(s, max) is None,
        unsigned(s, max) matches Some(n) ==> n <= max && n == number(without_plus(s)),
{
    if 1 <= i < s.len() && !digit(s[i]) {
        let rest = without_plus(s);
        if s[0] == '+' {
            assert(rest[i - 1] == s[i]);
        }
        assert(!all_digits(rest));
    }
}

/// What stands before a mark is what stands before the first of its kind.
pub proof fn lemma_until_is_first(s: Seq<char>, mark: char)
    ensures
        0 <= until(s, mark) <= s.len(),
        until(s, mark) < s.len() ==> s[until(s, mark)] == mark,
        forall|i: int| 0 <= i < until(s, mark) ==> #[trigger] s[i] != mark,
    decreases s.len(),
{
    if s.len() > 0 && s[0] != mark {
        let rest = s.skip(1);
        lemma_until_is_first(rest, mark);
        let at = until(s, mark);
        if at < s.len() {
            assert(rest[at - 1] == s[at]);
        }
        assert forall|i: int| 0 <= i < at implies #[trigger] s[i] != mark by {
            if i > 0 {
                assert(rest[i - 1] == s[i]);
            }
        }
    }
}

} // verus!
