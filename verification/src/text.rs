//! Text as sequences of characters: splitting, trimming, searching and numbers.

use vstd::prelude::*;
use vstd::string::*;

verus! {

/// The characters with the Unicode property `White_Space`.
pub open spec fn white(c: char) -> bool {
    ||| '\u{9}' <= c <= '\u{d}'
    ||| c == ' '
    ||| c == '\u{85}'
    ||| c == '\u{a0}'
    ||| c == '\u{1680}'
    ||| '\u{2000}' <= c <= '\u{200a}'
    ||| c == '\u{2028}'
    ||| c == '\u{2029}'
    ||| c == '\u{202f}'
    ||| c == '\u{205f}'
    ||| c == '\u{3000}'
}

/// Tells whether `c` is white space.
pub fn is_white(c: char) -> (yes: bool)
    ensures
        yes == white(c),
{
    ('\u{9}' <= c && c <= '\u{d}') || c == ' ' || c == '\u{85}' || c == '\u{a0}' || c == '\u{1680}'
        || ('\u{2000}' <= c && c <= '\u{200a}') || c == '\u{2028}' || c == '\u{2029}' || c
        == '\u{202f}' || c == '\u{205f}' || c == '\u{3000}'
}

/// The ASCII digits.
pub open spec fn digit(c: char) -> bool {
    '0' <= c <= '9'
}

/// The ASCII letters.
pub open spec fn letter(c: char) -> bool {
    ('a' <= c <= 'z') || ('A' <= c <= 'Z')
}

/// The ASCII letters and digits.
pub open spec fn alphanumeric(c: char) -> bool {
    letter(c) || digit(c)
}

/// Tells whether `c` is an ASCII letter.
pub fn is_letter(c: char) -> (yes: bool)
    ensures
        yes == letter(c),
{
    ('a' <= c && c <= 'z') || ('A' <= c && c <= 'Z')
}

/// Tells whether `c` is an ASCII letter or digit.
pub fn is_alphanumeric(c: char) -> (yes: bool)
    ensures
        yes == alphanumeric(c),
{
    is_letter(c) || ('0' <= c && c <= '9')
}

/// What separates the pieces of a text from each other.
#[derive(Debug, Clone, Copy)]
pub enum Boundary {
    /// Any white-space character.
    White,
    /// This one character.
    Exactly(char),
    /// Any character that is no ASCII letter or digit.
    NotAlphanumeric,
}

/// Tells whether `c` separates two pieces.
pub open spec fn separates(boundary: Boundary, c: char) -> bool {
    match boundary {
        Boundary::White => white(c),
        Boundary::Exactly(mark) => c == mark,
        Boundary::NotAlphanumeric => !alphanumeric(c),
    }
}

impl Boundary {
    fn applies(&self, c: char) -> (yes: bool)
        ensures
            yes == separates(*self, c),
    {
        match *self {
            Boundary::White => is_white(c),
            Boundary::Exactly(mark) => c == mark,
            Boundary::NotAlphanumeric => !is_alphanumeric(c),
        }
    }
}

/// The texts that a list of string slices stands for.
pub open spec fn texts(list: Seq<&str>) -> Seq<Seq<char>> {
    Seq::new(list.len(), |i: int| list[i]@)
}

/// The texts that a list of owned strings stands for.
pub open spec fn strings(list: Seq<String>) -> Seq<Seq<char>> {
    Seq::new(list.len(), |i: int| list[i]@)
}

/// The text that an optional string stands for.
pub open spec fn maybe_text(value: Option<String>) -> Option<Seq<char>> {
    match value {
        Some(s) => Some(s@),
        None => None,
    }
}

/// The pieces of `s` between separators. There is always one more piece than
/// there are separators, and a piece may be empty.
pub open spec fn split(s: Seq<char>, boundary: Boundary) -> Seq<Seq<char>>
    decreases s.len(),
{
    if s.len() == 0 {
        seq![Seq::<char>::empty()]
    } else {
        let before = split(s.drop_last(), boundary);
        if separates(boundary, s.last()) {
            before.push(Seq::<char>::empty())
        } else {
            before.drop_last().push(before.last().push(s.last()))
        }
    }
}

/// The pieces that are not empty, in order.
pub open spec fn nonempty(pieces: Seq<Seq<char>>) -> Seq<Seq<char>>
    decreases pieces.len(),
{
    if pieces.len() == 0 {
        Seq::<Seq<char>>::empty()
    } else if pieces.last().len() > 0 {
        nonempty(pieces.drop_last()).push(pieces.last())
    } else {
        nonempty(pieces.drop_last())
    }
}

/// The words of `s`: its runs of characters that are not white space.
pub open spec fn words(s: Seq<char>) -> Seq<Seq<char>> {
    nonempty(split(s, Boundary::White))
}

/// `s` without one carriage return at its end.
pub open spec fn without_return(s: Seq<char>) -> Seq<char> {
    if s.len() > 0 && s.last() == '\r' {
        s.drop_last()
    } else {
        s
    }
}

/// The lines of `s`. A line ends in a line feed, or in a carriage return and a
/// line feed; the end of the last line may be missing.
pub open spec fn lines(s: Seq<char>) -> Seq<Seq<char>> {
    let pieces = split(s, Boundary::Exactly('\n'));
    let ended = Seq::new(
        (pieces.len() - 1) as nat,
        |i: int| without_return(pieces[i]),
    );
    if pieces.last().len() > 0 {
        ended.push(pieces.last())
    } else {
        ended
    }
}

/// `s` without the white space at its start.
pub open spec fn trim_start(s: Seq<char>) -> Seq<char>
    decreases s.len(),
{
    if s.len() > 0 && white(s[0]) {
        trim_start(s.skip(1))
    } else {
        s
    }
}

/// `s` without the white space at its end.
pub open spec fn trim_end(s: Seq<char>) -> Seq<char>
    decreases s.len(),
{
    if s.len() > 0 && white(s.last()) {
        trim_end(s.drop_last())
    } else {
        s
    }
}

/// `s` without the white space at both ends.
pub open spec fn trim(s: Seq<char>) -> Seq<char> {
    trim_end(trim_start(s))
}

/// `s` without the copies of `tail` at its end.
pub open spec fn trim_end_matches(s: Seq<char>, tail: Seq<char>) -> Seq<char>
    decreases s.len(),
{
    if 0 < tail.len() && tail.is_suffix_of(s) {
        trim_end_matches(s.take(s.len() - tail.len()), tail)
    } else {
        s
    }
}

/// What follows `head` in a text that starts with it.
pub open spec fn after(s: Seq<char>, head: Seq<char>) -> Seq<char> {
    s.skip(head.len() as int)
}

/// Tells whether `part` occurs in `s`.
pub open spec fn occurs(part: Seq<char>, s: Seq<char>) -> bool {
    exists|i: int| occurs_at(part, s, i)
}

/// Tells whether `part` occurs in `s` at position `i`.
pub open spec fn occurs_at(part: Seq<char>, s: Seq<char>, i: int) -> bool {
    0 <= i && i + part.len() <= s.len() && s.subrange(i, i + part.len()) == part
}

/// The number of characters of `s` before the first `mark`, or all of them.
pub open spec fn until(s: Seq<char>, mark: char) -> int
    decreases s.len(),
{
    if s.len() == 0 || s[0] == mark {
        0
    } else {
        1 + until(s.skip(1), mark)
    }
}

/// The texts of `parts` with `separator` between each two.
pub open spec fn join(parts: Seq<Seq<char>>, separator: Seq<char>) -> Seq<char>
    decreases parts.len(),
{
    if parts.len() == 0 {
        Seq::<char>::empty()
    } else if parts.len() == 1 {
        parts[0]
    } else {
        join(parts.drop_last(), separator) + separator + parts.last()
    }
}

/// The value of a decimal digit.
pub open spec fn digit_value(c: char) -> nat {
    (c as int - '0' as int) as nat
}

/// Tells whether every character of `s` is a decimal digit.
pub open spec fn all_digits(s: Seq<char>) -> bool {
    forall|i: int| 0 <= i < s.len() ==> digit(#[trigger] s[i])
}

/// The number that the digits of `s` write.
pub open spec fn number(s: Seq<char>) -> nat
    decreases s.len(),
{
    if s.len() == 0 {
        0
    } else {
        number(s.drop_last()) * 10 + digit_value(s.last())
    }
}

/// `s` without one plus sign at its start.
pub open spec fn without_plus(s: Seq<char>) -> Seq<char> {
    if s.len() > 0 && s[0] == '+' {
        s.skip(1)
    } else {
        s
    }
}

/// The number up to `max` that `s` writes: digits, with a plus sign or without.
pub open spec fn unsigned(s: Seq<char>, max: nat) -> Option<nat> {
    let digits = without_plus(s);
    if digits.len() > 0 && all_digits(digits) && number(digits) <= max {
        Some(number(digits))
    } else {
        None
    }
}

/// The character of a digit.
pub open spec fn digit_char(d: nat) -> char {
    ('0' as int + d) as char
}

/// The decimal digits of `n`, without leading zeros.
pub open spec fn decimal(n: nat) -> Seq<char>
    decreases n,
{
    if n < 10 {
        seq![digit_char(n)]
    } else {
        decimal(n / 10).push(digit_char(n % 10))
    }
}

/// The characters of `s`.
pub fn chars_of(s: &str) -> (chars: Vec<char>)
    ensures
        chars@ == s@,
{
    let mut chars: Vec<char> = Vec::new();
    for c in it: s.chars()
        invariant
            chars@ == it.seq().take(it.index() as int),
            it.seq() == s@,
    {
        chars.push(c);
    }
    chars
}

/// Tells whether two texts are the same.
pub fn same(a: &str, b: &str) -> (yes: bool)
    ensures
        yes == (a@ == b@),
{
    let left = chars_of(a);
    let right = chars_of(b);
    if left.len() != right.len() {
        return false;
    }
    let mut i: usize = 0;
    while i < left.len()
        invariant
            left@ == a@,
            right@ == b@,
            left@.len() == right@.len(),
            i <= left@.len(),
            forall|j: int| 0 <= j < i ==> left@[j] == right@[j],
        decreases left@.len() - i,
    {
        if left[i] != right[i] {
            return false;
        }
        i = i + 1;
    }
    assert(a@ =~= b@);
    true
}

/// The pieces of `s` between separators.
pub fn split_text<'a>(s: &'a str, boundary: Boundary) -> (pieces: Vec<&'a str>)
    ensures
        texts(pieces@) == split(s@, boundary),
        pieces@.len() >= 1,
{
    let chars = chars_of(s);
    let n: usize = chars.len();
    let mut pieces: Vec<&'a str> = Vec::new();
    let mut start: usize = 0;
    let mut i: usize = 0;
    assert(s@.take(0) =~= Seq::<char>::empty());
    assert(texts(pieces@).push(s@.subrange(0, 0)) =~= seq![Seq::<char>::empty()]);
    while i < n
        invariant
            n == chars@.len(),
            chars@ == s@,
            start <= i <= n,
            split(s@.take(i as int), boundary) == texts(pieces@).push(
                s@.subrange(start as int, i as int),
            ),
        decreases n - i,
    {
        let ghost before = texts(pieces@);
        let ghost piece = s@.subrange(start as int, i as int);
        assert(s@.take(i + 1).drop_last() =~= s@.take(i as int));
        assert(before.push(piece).drop_last() =~= before);
        if boundary.applies(chars[i]) {
            pieces.push(s.substring_char(start, i));
            start = i + 1;
            assert(texts(pieces@) =~= before.push(piece));
            assert(s@.subrange(start as int, i + 1) =~= Seq::<char>::empty());
        } else {
            assert(s@.subrange(start as int, i + 1) =~= piece.push(s@[i as int]));
        }
        i = i + 1;
    }
    let ghost before = texts(pieces@);
    assert(s@.take(n as int) =~= s@);
    pieces.push(s.substring_char(start, n));
    assert(texts(pieces@) =~= before.push(s@.subrange(start as int, n as int)));
    pieces
}

/// The words of `s`.
pub fn words_of<'a>(s: &'a str) -> (found: Vec<&'a str>)
    ensures
        texts(found@) == words(s@),
{
    let pieces = split_text(s, Boundary::White);
    pieces_with_text(&pieces)
}

/// The pieces that are not empty, in order.
pub fn pieces_with_text<'a>(pieces: &Vec<&'a str>) -> (found: Vec<&'a str>)
    ensures
        texts(found@) == nonempty(texts(pieces@)),
{
    let mut found: Vec<&'a str> = Vec::new();
    let mut i: usize = 0;
    assert(texts(found@) =~= nonempty(texts(pieces@).take(0)));
    while i < pieces.len()
        invariant
            i <= pieces@.len(),
            texts(found@) == nonempty(texts(pieces@).take(i as int)),
        decreases pieces@.len() - i,
    {
        let ghost before = texts(found@);
        let piece = pieces[i];
        assert(texts(pieces@).take(i + 1).drop_last() =~= texts(pieces@).take(i as int));
        if !piece.is_empty() {
            found.push(piece);
            assert(texts(found@) =~= before.push(piece@));
        }
        i = i + 1;
    }
    assert(texts(pieces@).take(pieces@.len() as int) =~= texts(pieces@));
    found
}

/// The lines of `s`.
pub fn lines_of<'a>(s: &'a str) -> (found: Vec<&'a str>)
    ensures
        texts(found@) == lines(s@),
{
    let pieces = split_text(s, Boundary::Exactly('\n'));
    let ghost all = texts(pieces@);
    let ghost ended = Seq::new((all.len() - 1) as nat, |j: int| without_return(all[j]));
    let last: usize = pieces.len() - 1;
    let mut found: Vec<&'a str> = Vec::new();
    let mut i: usize = 0;
    while i < last
        invariant
            all == texts(pieces@),
            last == pieces@.len() - 1,
            i <= last,
            ended.len() == last,
            forall|j: int| 0 <= j < last ==> #[trigger] ended[j] == without_return(all[j]),
            texts(found@) == ended.take(i as int),
        decreases last - i,
    {
        let ghost before = texts(found@);
        let line = drop_return(pieces[i]);
        found.push(line);
        assert(texts(found@) =~= before.push(line@));
        i = i + 1;
        assert(ended.take(i as int) =~= before.push(ended[i - 1]));
    }
    assert(ended.take(last as int) =~= ended);
    let tail = pieces[last];
    if !tail.is_empty() {
        found.push(tail);
        assert(texts(found@) =~= ended.push(tail@));
    }
    found
}

/// `s` without one carriage return at its end.
fn drop_return<'a>(s: &'a str) -> (line: &'a str)
    ensures
        line@ == without_return(s@),
{
    let n: usize = s.unicode_len();
    if n > 0 && s.get_char(n - 1) == '\r' {
        let line = s.substring_char(0, n - 1);
        assert(line@ =~= s@.drop_last());
        line
    } else {
        s
    }
}

/// `s` without the white space at its start.
pub fn trim_start_of<'a>(s: &'a str) -> (rest: &'a str)
    ensures
        rest@ == trim_start(s@),
{
    let chars = chars_of(s);
    let n: usize = chars.len();
    let mut i: usize = 0;
    assert(s@.skip(0) =~= s@);
    while i < n && is_white(chars[i])
        invariant
            n == chars@.len(),
            chars@ == s@,
            i <= n,
            trim_start(s@.skip(i as int)) == trim_start(s@),
        decreases n - i,
    {
        assert(s@.skip(i as int).skip(1) =~= s@.skip(i + 1));
        i = i + 1;
    }
    let rest = s.substring_char(i, n);
    assert(rest@ =~= s@.skip(i as int));
    rest
}

/// `s` without the white space at its end.
pub fn trim_end_of<'a>(s: &'a str) -> (rest: &'a str)
    ensures
        rest@ == trim_end(s@),
{
    let chars = chars_of(s);
    let mut n: usize = chars.len();
    assert(s@.take(n as int) =~= s@);
    while n > 0 && is_white(chars[n - 1])
        invariant
            chars@ == s@,
            n <= chars@.len(),
            trim_end(s@.take(n as int)) == trim_end(s@),
        decreases n,
    {
        assert(s@.take(n as int).drop_last() =~= s@.take(n - 1));
        n = n - 1;
    }
    let rest = s.substring_char(0, n);
    assert(rest@ =~= s@.take(n as int));
    rest
}

/// `s` without the white space at both ends.
pub fn trim_of<'a>(s: &'a str) -> (rest: &'a str)
    ensures
        rest@ == trim(s@),
{
    trim_end_of(trim_start_of(s))
}

/// Tells whether `s` starts with `head`.
pub fn starts_with(s: &str, head: &str) -> (yes: bool)
    ensures
        yes == head@.is_prefix_of(s@),
{
    let n: usize = head.unicode_len();
    if n > s.unicode_len() {
        return false;
    }
    let start = s.substring_char(0, n);
    assert(start@ =~= s@.take(n as int));
    same(start, head)
}

/// Tells whether `s` ends with `tail`.
pub fn ends_with(s: &str, tail: &str) -> (yes: bool)
    ensures
        yes == tail@.is_suffix_of(s@),
{
    let n: usize = tail.unicode_len();
    let all: usize = s.unicode_len();
    if n > all {
        return false;
    }
    let end = s.substring_char(all - n, all);
    assert(end@ =~= s@.skip(all - n));
    same(end, tail)
}

/// What follows `head` at the start of `s`, if `s` starts with it.
pub fn strip_start<'a>(s: &'a str, head: &str) -> (rest: Option<&'a str>)
    ensures
        rest is Some <==> head@.is_prefix_of(s@),
        rest matches Some(r) ==> r@ == after(s@, head@),
{
    if starts_with(s, head) {
        let rest = s.substring_char(head.unicode_len(), s.unicode_len());
        assert(rest@ =~= s@.skip(head@.len() as int));
        Some(rest)
    } else {
        None
    }
}

/// `s` without the copies of `tail` at its end.
pub fn strip_end_copies<'a>(s: &'a str, tail: &str) -> (rest: &'a str)
    ensures
        rest@ == trim_end_matches(s@, tail@),
{
    let n: usize = tail.unicode_len();
    let mut rest = s;
    while 0 < n && ends_with(rest, tail)
        invariant
            n == tail@.len(),
            trim_end_matches(rest@, tail@) == trim_end_matches(s@, tail@),
        decreases rest@.len(),
    {
        let ghost before = rest@;
        rest = rest.substring_char(0, rest.unicode_len() - n);
        assert(rest@ =~= before.take(before.len() - n));
    }
    rest
}

/// Tells whether `part` occurs in `s`.
pub fn contains_text(s: &str, part: &str) -> (yes: bool)
    ensures
        yes == occurs(part@, s@),
{
    let n: usize = part.unicode_len();
    let all: usize = s.unicode_len();
    if n > all {
        return false;
    }
    let mut i: usize = 0;
    while i <= all - n
        invariant
            n == part@.len(),
            all == s@.len(),
            n <= all,
            i <= all - n + 1,
            forall|j: int| 0 <= j < i ==> !occurs_at(part@, s@, j),
        decreases all - i,
    {
        if same(s.substring_char(i, i + n), part) {
            assert(occurs_at(part@, s@, i as int));
            return true;
        }
        if i == all - n {
            return false;
        }
        i = i + 1;
    }
    false
}

/// Tells whether the character `mark` occurs in `s`.
pub fn contains_char(s: &str, mark: char) -> (yes: bool)
    ensures
        yes == s@.contains(mark),
{
    let chars = chars_of(s);
    let mut i: usize = 0;
    while i < chars.len()
        invariant
            chars@ == s@,
            i <= chars@.len(),
            forall|j: int| 0 <= j < i ==> s@[j] != mark,
        decreases chars@.len() - i,
    {
        if chars[i] == mark {
            assert(s@[i as int] == mark);
            return true;
        }
        i = i + 1;
    }
    false
}

/// Splits `s` at its first `mark`, which neither part keeps.
pub fn split_first<'a>(s: &'a str, mark: char) -> (parts: Option<(&'a str, &'a str)>)
    ensures
        parts is Some <==> until(s@, mark) < s@.len(),
        parts matches Some((before, after)) ==> {
            &&& before@ == s@.take(until(s@, mark))
            &&& after@ == s@.skip(until(s@, mark) + 1)
        },
{
    let chars = chars_of(s);
    let n: usize = chars.len();
    let mut i: usize = 0;
    assert(s@.skip(0) =~= s@);
    while i < n && chars[i] != mark
        invariant
            n == chars@.len(),
            chars@ == s@,
            i <= n,
            until(s@, mark) == i + until(s@.skip(i as int), mark),
        decreases n - i,
    {
        assert(s@.skip(i as int).skip(1) =~= s@.skip(i + 1));
        i = i + 1;
    }
    if i == n {
        return None;
    }
    let before = s.substring_char(0, i);
    let after = s.substring_char(i + 1, n);
    assert(before@ =~= s@.take(i as int));
    assert(after@ =~= s@.skip(i + 1));
    Some((before, after))
}

/// Puts a text behind all texts of a list.
pub fn push_string(list: &mut Vec<String>, item: String)
    ensures
        strings(final(list)@) == strings(old(list)@).push(item@),
{
    let ghost before = strings(list@);
    let ghost text = item@;
    list.push(item);
    assert(strings(list@) =~= before.push(text));
}

/// Puts texts behind all texts of a list.
pub fn push_strings(list: &mut Vec<String>, more: &Vec<String>)
    ensures
        strings(final(list)@) == strings(old(list)@) + strings(more@),
{
    let ghost before = strings(list@);
    let ghost all = strings(more@);
    let mut i: usize = 0;
    assert(before + all.take(0) =~= before);
    while i < more.len()
        invariant
            all == strings(more@),
            i <= more@.len(),
            strings(list@) == before + all.take(i as int),
        decreases more@.len() - i,
    {
        push_string(list, more[i].clone());
        i = i + 1;
        assert(strings(list@) =~= before + all.take(i as int));
    }
    assert(all.take(more@.len() as int) =~= all);
}

/// The texts of `parts` with `separator` between each two.
pub fn join_texts(parts: &Vec<&str>, separator: &str) -> (joined: String)
    ensures
        joined@ == join(texts(parts@), separator@),
{
    let mut joined = String::new();
    let mut i: usize = 0;
    assert(joined@ =~= join(texts(parts@).take(0), separator@));
    while i < parts.len()
        invariant
            i <= parts@.len(),
            joined@ == join(texts(parts@).take(i as int), separator@),
        decreases parts@.len() - i,
    {
        let ghost before = texts(parts@).take(i as int);
        assert(texts(parts@).take(i + 1).drop_last() =~= before);
        let ghost text = joined@;
        if i > 0 {
            joined.append(separator);
        }
        joined.append(parts[i]);
        if i == 0 {
            assert(joined@ =~= parts@[0]@);
        }
        i = i + 1;
    }
    assert(texts(parts@).take(parts@.len() as int) =~= texts(parts@));
    joined
}

/// The texts of `parts` with `separator` between each two.
pub fn join_strings(parts: &Vec<String>, separator: &str) -> (joined: String)
    ensures
        joined@ == join(strings(parts@), separator@),
{
    let mut slices: Vec<&str> = Vec::new();
    let mut i: usize = 0;
    while i < parts.len()
        invariant
            i <= parts@.len(),
            slices@.len() == i,
            forall|j: int| 0 <= j < i ==> (#[trigger] slices@[j])@ == parts@[j]@,
        decreases parts@.len() - i,
    {
        slices.push(parts[i].as_str());
        i = i + 1;
    }
    assert(texts(slices@) =~= strings(parts@));
    join_texts(&slices, separator)
}

/// More digits never write a smaller number.
proof fn lemma_number_grows(s: Seq<char>, n: int)
    requires
        0 <= n <= s.len(),
    ensures
        number(s.take(n)) <= number(s),
    decreases s.len() - n,
{
    if n < s.len() {
        let shorter = s.drop_last();
        assert(shorter.take(n) =~= s.take(n));
        lemma_number_grows(shorter, n);
    } else {
        assert(s.take(n) =~= s);
    }
}

/// The number up to `max` that `s` writes.
pub fn read_unsigned(s: &str, max: u32) -> (value: Option<u32>)
    ensures
        value is Some <==> unsigned(s@, max as nat) is Some,
        value matches Some(v) ==> unsigned(s@, max as nat) == Some(v as nat) && v <= max,
{
    let chars = chars_of(s);
    let n: usize = chars.len();
    let start: usize = if n > 0 && chars[0] == '+' {
        1
    } else {
        0
    };
    let ghost digits = without_plus(s@);
    assert(digits =~= s@.skip(start as int));
    if start == n {
        return None;
    }
    let mut total: u64 = 0;
    let mut i: usize = start;
    assert(digits.take(0) =~= Seq::<char>::empty());
    while i < n
        invariant
            n == chars@.len(),
            chars@ == s@,
            start <= i <= n,
            digits == without_plus(s@),
            digits =~= s@.skip(start as int),
            all_digits(digits.take(i - start)),
            total == number(digits.take(i - start)),
            total <= max,
        decreases n - i,
    {
        let c = chars[i];
        assert(digits[i - start] == c);
        if !('0' <= c && c <= '9') {
            return None;
        }
        let ghost longer = digits.take(i + 1 - start);
        assert(longer.drop_last() =~= digits.take(i - start));
        assert(all_digits(longer)) by {
            assert forall|j: int| 0 <= j < longer.len() implies digit(#[trigger] longer[j]) by {
                if j < i - start {
                    assert(longer[j] == digits.take(i - start)[j]);
                }
            }
        }
        let value: u64 = (c as u32 - '0' as u32) as u64;
        total = total * 10 + value;
        if total > max as u64 {
            proof {
                lemma_number_grows(digits, i + 1 - start);
            }
            return None;
        }
        i = i + 1;
    }
    assert(digits.take(n - start) =~= digits);
    Some(total as u32)
}

/// The text of one digit.
fn digit_text(d: u64) -> (text: &'static str)
    requires
        d < 10,
    ensures
        text@ == seq![digit_char(d as nat)],
{
    proof {
        reveal_strlit("0");
        reveal_strlit("1");
        reveal_strlit("2");
        reveal_strlit("3");
        reveal_strlit("4");
        reveal_strlit("5");
        reveal_strlit("6");
        reveal_strlit("7");
        reveal_strlit("8");
        reveal_strlit("9");
    }
    let text = match d {
        0 => "0",
        1 => "1",
        2 => "2",
        3 => "3",
        4 => "4",
        5 => "5",
        6 => "6",
        7 => "7",
        8 => "8",
        _ => "9",
    };
    assert(text@ =~= seq![digit_char(d as nat)]);
    text
}

/// The decimal digits of `n`.
pub fn decimal_text(n: u64) -> (text: String)
    ensures
        text@ == decimal(n as nat),
    decreases n,
{
    if n < 10 {
        digit_text(n).to_owned()
    } else {
        let mut text = decimal_text(n / 10);
        let ghost before = text@;
        text.append(digit_text(n % 10));
        assert(text@ =~= before.push(digit_char((n % 10) as nat)));
        text
    }
}

/// What `decimal` writes are digits, and they write the number it was given.
pub proof fn lemma_decimal_round_trip(n: nat)
    ensures
        decimal(n).len() > 0,
        all_digits(decimal(n)),
        number(decimal(n)) == n,
    decreases n,
{
    if n < 10 {
        let s = decimal(n);
        assert(s.drop_last() =~= Seq::<char>::empty());
        assert(number(s.drop_last()) == 0);
        assert(digit_value(s.last()) == n);
    } else {
        lemma_decimal_round_trip(n / 10);
        let s = decimal(n);
        let shorter = decimal(n / 10);
        assert(s.drop_last() =~= shorter);
        assert(digit_value(s.last()) == n % 10);
        assert forall|i: int| 0 <= i < s.len() implies digit(#[trigger] s[i]) by {
            if i < shorter.len() {
                assert(s[i] == shorter[i]);
            }
        }
    }
}

/// The order of texts: by the first character in which they differ, and a text
/// comes before those that go on where it ends.
pub open spec fn precedes(a: Seq<char>, b: Seq<char>) -> bool
    decreases a.len(),
{
    if a.len() == 0 {
        b.len() > 0
    } else if b.len() == 0 {
        false
    } else if a[0] == b[0] {
        precedes(a.skip(1), b.skip(1))
    } else {
        a[0] < b[0]
    }
}

/// No text comes before itself.
pub proof fn lemma_precedes_irreflexive(a: Seq<char>)
    ensures
        !precedes(a, a),
    decreases a.len(),
{
    if a.len() > 0 {
        lemma_precedes_irreflexive(a.skip(1));
    }
}

/// The order of texts carries over from one pair to the next.
pub proof fn lemma_precedes_transitive(a: Seq<char>, b: Seq<char>, c: Seq<char>)
    requires
        precedes(a, b),
        precedes(b, c),
    ensures
        precedes(a, c),
    decreases a.len(),
{
    if a.len() > 0 && b.len() > 0 && c.len() > 0 && a[0] == b[0] && b[0] == c[0] {
        lemma_precedes_transitive(a.skip(1), b.skip(1), c.skip(1));
    }
}

/// Of two different texts one comes before the other.
pub proof fn lemma_precedes_total(a: Seq<char>, b: Seq<char>)
    requires
        a != b,
    ensures
        precedes(a, b) || precedes(b, a),
    decreases a.len(),
{
    if a.len() > 0 && b.len() > 0 {
        if a[0] == b[0] {
            if a.skip(1) == b.skip(1) {
                assert(a =~= seq![a[0]] + a.skip(1));
                assert(b =~= seq![b[0]] + b.skip(1));
            }
            lemma_precedes_total(a.skip(1), b.skip(1));
        }
    } else if a.len() == 0 && b.len() == 0 {
        assert(a =~= b);
    }
}

/// Tells whether the text `a` comes before the text `b`.
pub fn comes_before(a: &str, b: &str) -> (yes: bool)
    ensures
        yes == precedes(a@, b@),
{
    let left = chars_of(a);
    let right = chars_of(b);
    let mut i: usize = 0;
    assert(a@.skip(0) =~= a@);
    assert(b@.skip(0) =~= b@);
    while i < left.len() && i < right.len()
        invariant
            left@ == a@,
            right@ == b@,
            i <= left@.len(),
            i <= right@.len(),
            precedes(a@, b@) == precedes(a@.skip(i as int), b@.skip(i as int)),
        decreases left@.len() - i,
    {
        if left[i] != right[i] {
            return left[i] < right[i];
        }
        assert(a@.skip(i as int).skip(1) =~= a@.skip(i + 1));
        assert(b@.skip(i as int).skip(1) =~= b@.skip(i + 1));
        i = i + 1;
    }
    i < right.len()
}

/// The ascending list `list` with `item` in its place, once.
pub open spec fn with_text(list: Seq<Seq<char>>, item: Seq<char>) -> Seq<Seq<char>>
    decreases list.len(),
{
    if list.len() == 0 || precedes(item, list[0]) {
        seq![item] + list
    } else if list[0] == item {
        list
    } else {
        seq![list[0]] + with_text(list.skip(1), item)
    }
}

/// Tells whether the texts stand in ascending order, each once.
pub open spec fn ascending_texts(list: Seq<Seq<char>>) -> bool {
    forall|i: int, j: int|
        0 <= i < j < list.len() ==> precedes(#[trigger] list[i], #[trigger] list[j])
}

/// Putting a text in its place keeps the order, and adds that text and no other.
pub proof fn lemma_with_text(list: Seq<Seq<char>>, item: Seq<char>)
    requires
        ascending_texts(list),
    ensures
        ascending_texts(with_text(list, item)),
        forall|x: Seq<char>| #[trigger]
            with_text(list, item).contains(x) <==> list.contains(x) || x == item,
    decreases list.len(),
{
    let all = with_text(list, item);
    if list.len() == 0 || precedes(item, list[0]) {
        assert(all[0] == item);
        assert forall|i: int, j: int| 0 <= i < j < all.len() implies precedes(
            #[trigger] all[i],
            #[trigger] all[j],
        ) by {
            assert(all[j] == list[j - 1]);
            if i > 0 {
                assert(all[i] == list[i - 1]);
            } else if j > 1 {
                lemma_precedes_transitive(item, list[0], list[j - 1]);
            }
        }
        assert forall|x: Seq<char>| #[trigger] all.contains(x) <==> list.contains(x) || x
            == item by {
            if list.contains(x) {
                let k = choose|k: int| 0 <= k < list.len() && list[k] == x;
                assert(all[k + 1] == x);
            }
            if all.contains(x) && x != item {
                let k = choose|k: int| 0 <= k < all.len() && all[k] == x;
                assert(list[k - 1] == x);
            }
        }
    } else if list[0] == item {
    } else {
        let rest = list.skip(1);
        assert forall|i: int, j: int| 0 <= i < j < rest.len() implies precedes(
            #[trigger] rest[i],
            #[trigger] rest[j],
        ) by {
            assert(rest[i] == list[i + 1]);
            assert(rest[j] == list[j + 1]);
        }
        lemma_with_text(rest, item);
        lemma_precedes_total(list[0], item);
        let inner = with_text(rest, item);
        assert(all[0] == list[0]);
        assert forall|i: int, j: int| 0 <= i < j < all.len() implies precedes(
            #[trigger] all[i],
            #[trigger] all[j],
        ) by {
            assert(all[j] == inner[j - 1]);
            if i > 0 {
                assert(all[i] == inner[i - 1]);
            } else {
                assert(inner.contains(inner[j - 1]));
                if inner[j - 1] != item {
                    let k = choose|k: int| 0 <= k < rest.len() && rest[k] == inner[j - 1];
                    assert(rest[k] == list[k + 1]);
                }
            }
        }
        assert forall|x: Seq<char>| #[trigger] all.contains(x) <==> list.contains(x) || x
            == item by {
            if list.contains(x) {
                let k = choose|k: int| 0 <= k < list.len() && list[k] == x;
                if k > 0 {
                    assert(rest[k - 1] == x);
                    assert(inner.contains(x));
                }
            }
            if inner.contains(x) {
                let k = choose|k: int| 0 <= k < inner.len() && inner[k] == x;
                assert(all[k + 1] == x);
            }
            if x == item {
                assert(inner.contains(x));
            }
            if all.contains(x) {
                let k = choose|k: int| 0 <= k < all.len() && all[k] == x;
                if k > 0 {
                    assert(inner[k - 1] == x);
                    assert(inner.contains(x));
                    if x != item {
                        let m = choose|m: int| 0 <= m < rest.len() && rest[m] == x;
                        assert(list[m + 1] == x);
                    }
                }
            }
        }
    }
}

/// The position at which `item` goes into `list`.
fn place_of(list: &Vec<&str>, item: &str) -> (at: usize)
    ensures
        at <= list@.len(),
        at < list@.len() && list@[at as int]@ == item@ ==> with_text(texts(list@), item@) == texts(
            list@,
        ),
        !(at < list@.len() && list@[at as int]@ == item@) ==> with_text(texts(list@), item@)
            == texts(list@).insert(at as int, item@),
{
    let ghost all = texts(list@);
    let mut i: usize = 0;
    assert(all.skip(0) =~= all);
    assert(all.take(0) + with_text(all, item@) =~= with_text(all, item@));
    while i < list.len() && comes_before(list[i], item)
        invariant
            all == texts(list@),
            i <= list@.len(),
            with_text(all, item@) == all.take(i as int) + with_text(all.skip(i as int), item@),
        decreases list@.len() - i,
    {
        proof {
            let rest = all.skip(i as int);
            assert(rest[0] == list@[i as int]@);
            if precedes(item@, rest[0]) {
                lemma_precedes_transitive(item@, rest[0], item@);
            }
            lemma_precedes_irreflexive(item@);
            assert(rest.skip(1) =~= all.skip(i + 1));
            assert(all.take(i as int) + (seq![rest[0]] + with_text(rest.skip(1), item@))
                =~= all.take(i + 1) + with_text(all.skip(i + 1), item@));
        }
        i = i + 1;
    }
    proof {
        let rest = all.skip(i as int);
        if i < list@.len() {
            assert(rest[0] == list@[i as int]@);
            if rest[0] == item@ {
                lemma_precedes_irreflexive(item@);
                assert(all.take(i as int) + rest =~= all);
            } else {
                lemma_precedes_total(rest[0], item@);
                assert(all.take(i as int) + (seq![item@] + rest) =~= all.insert(i as int, item@));
            }
        } else {
            assert(all.take(i as int) + (seq![item@] + rest) =~= all.insert(i as int, item@));
        }
    }
    i
}

/// Puts `item` into its place in the ascending list, once.
pub fn put_text<'a>(list: &mut Vec<&'a str>, item: &'a str)
    ensures
        texts(final(list)@) == with_text(texts(old(list)@), item@),
{
    let at = place_of(list, item);
    if at < list.len() && same(list[at], item) {
        return;
    }
    let ghost before = texts(list@);
    list.insert(at, item);
    assert(texts(list@) =~= before.insert(at as int, item@));
}

/// Tells whether `item` is in the list.
pub fn list_contains(list: &Vec<&str>, item: &str) -> (yes: bool)
    ensures
        yes == texts(list@).contains(item@),
{
    let mut i: usize = 0;
    while i < list.len()
        invariant
            i <= list@.len(),
            forall|j: int| 0 <= j < i ==> #[trigger] texts(list@)[j] != item@,
        decreases list@.len() - i,
    {
        if same(list[i], item) {
            assert(texts(list@)[i as int] == item@);
            return true;
        }
        i = i + 1;
    }
    false
}

/// A separator parts the pieces before it from those behind it.
pub proof fn lemma_split_at(a: Seq<char>, c: char, b: Seq<char>, boundary: Boundary)
    requires
        separates(boundary, c),
    ensures
        split(a.push(c) + b, boundary) == split(a, boundary) + split(b, boundary),
    decreases b.len(),
{
    let all = a.push(c) + b;
    lemma_split_has_pieces(a, boundary);
    if b.len() == 0 {
        assert(all =~= a.push(c));
        assert(a.push(c).drop_last() =~= a);
        assert(split(a, boundary).push(Seq::<char>::empty()) =~= split(a, boundary) + seq![
            Seq::<char>::empty(),
        ]);
    } else {
        let shorter = b.drop_last();
        lemma_split_at(a, c, shorter, boundary);
        lemma_split_has_pieces(shorter, boundary);
        assert(all.drop_last() =~= a.push(c) + shorter);
        assert(all.last() == b.last());
        let left = split(a, boundary);
        let right = split(shorter, boundary);
        if separates(boundary, b.last()) {
            assert((left + right).push(Seq::<char>::empty()) =~= left + right.push(
                Seq::<char>::empty(),
            ));
        } else {
            assert((left + right).last() == right.last());
            assert((left + right).drop_last().push(right.last().push(b.last())) =~= left
                + right.drop_last().push(right.last().push(b.last())));
        }
    }
}

/// There is always a piece.
pub proof fn lemma_split_has_pieces(s: Seq<char>, boundary: Boundary)
    ensures
        split(s, boundary).len() > 0,
    decreases s.len(),
{
    if s.len() > 0 {
        lemma_split_has_pieces(s.drop_last(), boundary);
    }
}

/// Tells whether no character of `s` separates.
pub open spec fn unbroken(s: Seq<char>, boundary: Boundary) -> bool {
    forall|i: int| 0 <= i < s.len() ==> !separates(boundary, #[trigger] s[i])
}

/// A text without separators is one piece.
pub proof fn lemma_split_unbroken(s: Seq<char>, boundary: Boundary)
    requires
        unbroken(s, boundary),
    ensures
        split(s, boundary) == seq![s],
    decreases s.len(),
{
    if s.len() == 0 {
        assert(s =~= Seq::<char>::empty());
    } else {
        let shorter = s.drop_last();
        assert(unbroken(shorter, boundary)) by {
            assert forall|i: int| 0 <= i < shorter.len() implies !separates(
                boundary,
                #[trigger] shorter[i],
            ) by {
                assert(shorter[i] == s[i]);
            }
        }
        lemma_split_unbroken(shorter, boundary);
        assert(shorter.push(s.last()) =~= s);
        assert(split(shorter, boundary).drop_last() =~= Seq::<Seq<char>>::empty());
        assert(split(s, boundary) =~= seq![s]);
    }
}

proof fn lemma_nonempty_after(first: Seq<char>, rest: Seq<Seq<char>>)
    requires
        first.len() > 0,
    ensures
        nonempty(seq![first] + rest) == seq![first] + nonempty(rest),
    decreases rest.len(),
{
    let all = seq![first] + rest;
    if rest.len() == 0 {
        assert(all.drop_last() =~= Seq::<Seq<char>>::empty());
        assert(all.last() == first);
        assert(nonempty(all.drop_last()) =~= Seq::<Seq<char>>::empty());
        assert(nonempty(all) =~= seq![first] + nonempty(rest));
    } else {
        lemma_nonempty_after(first, rest.drop_last());
        assert(all.drop_last() =~= seq![first] + rest.drop_last());
        assert(all.last() == rest.last());
        assert(nonempty(all) =~= seq![first] + nonempty(rest));
    }
}

/// Tells whether `s` is a word: not empty, and without white space.
pub open spec fn is_word(s: Seq<char>) -> bool {
    s.len() > 0 && unbroken(s, Boundary::White)
}

/// The first word of a text, and a blank, part from the words behind.
pub proof fn lemma_words_first(word: Seq<char>, rest: Seq<char>)
    requires
        is_word(word),
    ensures
        words(word + seq![' '] + rest) == seq![word] + words(rest),
{
    assert(word + seq![' '] + rest =~= word.push(' ') + rest);
    lemma_split_at(word, ' ', rest, Boundary::White);
    lemma_split_unbroken(word, Boundary::White);
    lemma_nonempty_after(word, split(rest, Boundary::White));
}

/// A word is its only word.
pub proof fn lemma_words_one(word: Seq<char>)
    requires
        is_word(word),
    ensures
        words(word) == seq![word],
{
    lemma_split_unbroken(word, Boundary::White);
    lemma_nonempty_after(word, Seq::<Seq<char>>::empty());
    assert(seq![word] + Seq::<Seq<char>>::empty() =~= seq![word]);
}

/// Tells whether `s` can stand as a line: no line feed, and no carriage return at its end.
pub open spec fn is_line(s: Seq<char>) -> bool {
    unbroken(s, Boundary::Exactly('\n')) && without_return(s) == s
}

/// Parts without separators that were joined with one are the pieces again.
pub proof fn lemma_split_join(parts: Seq<Seq<char>>, c: char, boundary: Boundary)
    requires
        parts.len() > 0,
        separates(boundary, c),
        forall|i: int| 0 <= i < parts.len() ==> unbroken(#[trigger] parts[i], boundary),
    ensures
        split(join(parts, seq![c]), boundary) == parts,
    decreases parts.len(),
{
    assert(unbroken(parts[parts.len() - 1], boundary));
    lemma_split_unbroken(parts.last(), boundary);
    if parts.len() == 1 {
        assert(parts =~= seq![parts[0]]);
    } else {
        let shorter = parts.drop_last();
        assert forall|i: int| 0 <= i < shorter.len() implies unbroken(
            #[trigger] shorter[i],
            boundary,
        ) by {
            assert(shorter[i] == parts[i]);
        }
        lemma_split_join(shorter, c, boundary);
        let text = join(shorter, seq![c]);
        assert(join(parts, seq![c]) =~= text.push(c) + parts.last());
        lemma_split_at(text, c, parts.last(), boundary);
        assert(shorter + seq![parts.last()] =~= parts);
    }
}

/// No piece holds a separator.
pub proof fn lemma_pieces_unbroken(s: Seq<char>, boundary: Boundary)
    ensures
        forall|i: int|
            0 <= i < split(s, boundary).len() ==> unbroken(
                #[trigger] split(s, boundary)[i],
                boundary,
            ),
    decreases s.len(),
{
    if s.len() > 0 {
        lemma_pieces_unbroken(s.drop_last(), boundary);
        lemma_split_has_pieces(s.drop_last(), boundary);
        let before = split(s.drop_last(), boundary);
        let pieces = split(s, boundary);
        assert forall|i: int| 0 <= i < pieces.len() implies unbroken(
            #[trigger] pieces[i],
            boundary,
        ) by {
            if i < before.len() - 1 {
                assert(pieces[i] == before[i]);
            } else if !separates(boundary, s.last()) {
                let last = before[before.len() - 1];
                assert(unbroken(last, boundary));
                assert(pieces[i] == last.push(s.last()));
                assert forall|k: int| 0 <= k < pieces[i].len() implies !separates(
                    boundary,
                    #[trigger] pieces[i][k],
                ) by {
                    if k < last.len() {
                        assert(pieces[i][k] == last[k]);
                    }
                }
            } else if i == before.len() - 1 {
                assert(pieces[i] == before[i]);
            }
        }
    }
}

/// The pieces that are not empty are those of the two parts of a list.
pub proof fn lemma_nonempty_of_parts(a: Seq<Seq<char>>, b: Seq<Seq<char>>)
    ensures
        nonempty(a + b) == nonempty(a) + nonempty(b),
    decreases b.len(),
{
    if b.len() == 0 {
        assert(a + b =~= a);
        assert(nonempty(a) + nonempty(b) =~= nonempty(a));
    } else {
        lemma_nonempty_of_parts(a, b.drop_last());
        assert((a + b).drop_last() =~= a + b.drop_last());
        assert((a + b).last() == b.last());
        assert(nonempty(a + b) =~= nonempty(a) + nonempty(b));
    }
}

/// What is not empty is kept.
pub proof fn lemma_nonempty_members(pieces: Seq<Seq<char>>)
    ensures
        forall|i: int|
            0 <= i < nonempty(pieces).len() ==> (#[trigger] nonempty(pieces)[i]).len() > 0
                && pieces.contains(nonempty(pieces)[i]),
        (forall|i: int| 0 <= i < pieces.len() ==> (#[trigger] pieces[i]).len() > 0) ==> nonempty(
            pieces,
        ) == pieces,
    decreases pieces.len(),
{
    if pieces.len() > 0 {
        let shorter = pieces.drop_last();
        lemma_nonempty_members(shorter);
        let kept = nonempty(pieces);
        assert forall|i: int| 0 <= i < kept.len() implies (#[trigger] kept[i]).len() > 0
            && pieces.contains(kept[i]) by {
            if i < nonempty(shorter).len() {
                assert(kept[i] == nonempty(shorter)[i]);
                let k = choose|k: int| 0 <= k < shorter.len() && shorter[k] == kept[i];
                assert(pieces[k] == kept[i]);
            } else {
                assert(kept[i] == pieces[pieces.len() - 1]);
            }
        }
        if forall|i: int| 0 <= i < pieces.len() ==> (#[trigger] pieces[i]).len() > 0 {
            assert forall|i: int| 0 <= i < shorter.len() implies (#[trigger] shorter[i]).len()
                > 0 by {
                assert(shorter[i] == pieces[i]);
            }
            assert(pieces[pieces.len() - 1].len() > 0);
            assert(nonempty(pieces) =~= pieces);
        }
    }
}

/// Rows that were joined with line feeds, and end in one, are the lines again.
pub proof fn lemma_lines_of_rows(rows: Seq<Seq<char>>)
    requires
        rows.len() > 0,
        forall|i: int| 0 <= i < rows.len() ==> is_line(#[trigger] rows[i]),
    ensures
        lines(join(rows, seq!['\n']) + seq!['\n']) == rows,
{
    let boundary = Boundary::Exactly('\n');
    let text = join(rows, seq!['\n']);
    let none = Seq::<char>::empty();
    assert forall|i: int| 0 <= i < rows.len() implies unbroken(#[trigger] rows[i], boundary) by {
        assert(is_line(rows[i]));
    }
    lemma_split_join(rows, '\n', boundary);
    lemma_split_at(text, '\n', none, boundary);
    assert(text + seq!['\n'] =~= text.push('\n') + none);
    let pieces = split(text + seq!['\n'], boundary);
    assert(pieces =~= rows.push(none));
    assert forall|i: int| 0 <= i < rows.len() implies without_return(#[trigger] pieces[i])
        == rows[i] by {
        assert(is_line(rows[i]));
    }
    assert(lines(text + seq!['\n']) =~= rows);
}

/// A text that neither starts nor ends in white space is its own trimmed form.
pub proof fn lemma_trim_nothing(s: Seq<char>)
    requires
        s.len() > 0 ==> !white(s[0]) && !white(s.last()),
    ensures
        trim(s) == s,
{
}

/// White space at the end of a text is no part of its trimmed form.
pub proof fn lemma_trim_drop_last(s: Seq<char>)
    requires
        s.len() > 0,
        white(s.last()),
    ensures
        trim(s) == trim(s.drop_last()),
    decreases s.len(),
{
    let shorter = s.drop_last();
    if white(s[0]) {
        if s.len() == 1 {
            assert(s.skip(1) =~= shorter);
        } else {
            lemma_trim_drop_last(s.skip(1));
            assert(s.skip(1).drop_last() =~= shorter.skip(1));
            assert(shorter[0] == s[0]);
        }
    } else {
        assert(shorter.len() > 0 ==> shorter[0] == s[0]);
    }
}

/// The lines of two texts with a line feed between them are those of the first, with
/// all lines ended, and those of the second.
pub proof fn lemma_lines_of_two(a: Seq<char>, b: Seq<char>)
    ensures
        lines(a + seq!['\n'] + b) == split(a, Boundary::Exactly('\n')).map_values(
            |piece: Seq<char>| without_return(piece),
        ) + lines(b),
{
    let boundary = Boundary::Exactly('\n');
    assert(a + seq!['\n'] + b =~= a.push('\n') + b);
    lemma_split_at(a, '\n', b, boundary);
    lemma_split_has_pieces(a, boundary);
    lemma_split_has_pieces(b, boundary);
    let left = split(a, boundary);
    let right = split(b, boundary);
    assert((left + right).last() == right.last());
    assert(lines(a + seq!['\n'] + b) =~= left.map_values(
        |piece: Seq<char>| without_return(piece),
    ) + lines(b));
}

proof fn lemma_ascending_drop_last(list: Seq<Seq<char>>)
    requires
        ascending_texts(list),
        list.len() > 0,
    ensures
        ascending_texts(list.drop_last()),
        forall|x: Seq<char>| #[trigger]
            list.drop_last().contains(x) <==> list.contains(x) && x != list.last(),
{
    let shorter = list.drop_last();
    let n = list.len() - 1;
    assert forall|i: int, j: int| 0 <= i < j < shorter.len() implies precedes(
        #[trigger] shorter[i],
        #[trigger] shorter[j],
    ) by {
        assert(shorter[i] == list[i] && shorter[j] == list[j]);
    }
    assert forall|x: Seq<char>| #[trigger] shorter.contains(x) <==> list.contains(x) && x
        != list.last() by {
        lemma_precedes_irreflexive(x);
        if shorter.contains(x) {
            let i = choose|i: int| 0 <= i < shorter.len() && shorter[i] == x;
            assert(list[i] == x);
            assert(precedes(list[i], list[n]));
        }
        if list.contains(x) && x != list.last() {
            let i = choose|i: int| 0 <= i < list.len() && list[i] == x;
            assert(shorter[i] == x);
        }
    }
}

/// Two lists in ascending order that hold the same texts are the same list.
pub proof fn lemma_ascending_unique(a: Seq<Seq<char>>, b: Seq<Seq<char>>)
    requires
        ascending_texts(a),
        ascending_texts(b),
        forall|x: Seq<char>| #[trigger] a.contains(x) <==> b.contains(x),
    ensures
        a == b,
    decreases a.len(),
{
    if a.len() == 0 {
        if b.len() > 0 {
            assert(b.contains(b[0]));
            assert(a.contains(b[0]));
        }
        assert(a =~= b);
    } else {
        let last = a[a.len() - 1];
        assert(a.contains(last));
        let j = choose|j: int| 0 <= j < b.len() && b[j] == last;
        let end = b[b.len() - 1];
        assert(b.contains(end));
        assert(a.contains(end));
        let i = choose|i: int| 0 <= i < a.len() && a[i] == end;
        if last != end {
            assert(precedes(a[i], a[a.len() - 1]));
            assert(precedes(b[j], b[b.len() - 1]));
            lemma_precedes_transitive(last, end, last);
            lemma_precedes_irreflexive(last);
        }
        lemma_ascending_drop_last(a);
        lemma_ascending_drop_last(b);
        lemma_ascending_unique(a.drop_last(), b.drop_last());
        assert(a =~= a.drop_last().push(last));
        assert(b =~= b.drop_last().push(last));
    }
}

} // verus!
