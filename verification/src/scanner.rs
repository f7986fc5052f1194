//! The first and the last number of a line.
//!
//! A token is a digit character or one of the words `one` to `nine`. Each
//! position of a line is asked whether a token begins there, so tokens that
//! overlap, as in `twone`, are all seen. `first` and `last` say which token
//! begins earliest and which latest; the laws below them say that this is
//! what they are.

use vstd::prelude::*;
use crate::text::{
    chars_of, digit_value, is_digit, lines, matches_at, split, split_chars, stands_at, strip_return,
    texts,
};

verus! {

/// Why a line gave no value.
#[derive(Debug, Clone, Copy, PartialEq, Eq, Structural)]
pub enum ScanError {
    /// The line holds no digit character.
    NoDigitFound,
    /// The line holds neither a digit character nor a number word.
    NoTokenFound,
    /// A digit and a number word were found at one and the same position.
    ConflictingTie,
}

/// What a scan looks for.
#[derive(Debug, Clone, Copy, PartialEq, Eq, Structural)]
pub enum Pattern {
    /// A digit character, `'0'` to `'9'`.
    Digit,
    /// One of the nine number words, `"one"` to `"nine"`.
    Word,
    /// A digit character or a number word.
    Either,
}

/// The number word for `v`; there is one for each of 1 to 9, and none for zero.
pub open spec fn word(v: nat) -> Seq<char> {
    if v == 1 {
        "one"@
    } else if v == 2 {
        "two"@
    } else if v == 3 {
        "three"@
    } else if v == 4 {
        "four"@
    } else if v == 5 {
        "five"@
    } else if v == 6 {
        "six"@
    } else if v == 7 {
        "seven"@
    } else if v == 8 {
        "eight"@
    } else if v == 9 {
        "nine"@
    } else {
        Seq::empty()
    }
}

/// The number that `term` spells, if it is a number word.
pub open spec fn word_value(term: Seq<char>) -> Option<nat> {
    if term == word(1) {
        Some(1)
    } else if term == word(2) {
        Some(2)
    } else if term == word(3) {
        Some(3)
    } else if term == word(4) {
        Some(4)
    } else if term == word(5) {
        Some(5)
    } else if term == word(6) {
        Some(6)
    } else if term == word(7) {
        Some(7)
    } else if term == word(8) {
        Some(8)
    } else if term == word(9) {
        Some(9)
    } else {
        None
    }
}

/// The value of the digit at position `i` of `line`.
pub open spec fn digit_at(line: Seq<char>, i: int) -> Option<nat> {
    if 0 <= i < line.len() && is_digit(line[i]) {
        Some(digit_value(line[i]))
    } else {
        None
    }
}

/// The value of the number word that begins at position `i` of `line`. Each
/// position is asked for itself, so words that overlap are all seen.
pub open spec fn word_at(line: Seq<char>, i: int) -> Option<nat> {
    if matches_at(line, i, word(1)) {
        Some(1)
    } else if matches_at(line, i, word(2)) {
        Some(2)
    } else if matches_at(line, i, word(3)) {
        Some(3)
    } else if matches_at(line, i, word(4)) {
        Some(4)
    } else if matches_at(line, i, word(5)) {
        Some(5)
    } else if matches_at(line, i, word(6)) {
        Some(6)
    } else if matches_at(line, i, word(7)) {
        Some(7)
    } else if matches_at(line, i, word(8)) {
        Some(8)
    } else if matches_at(line, i, word(9)) {
        Some(9)
    } else {
        None
    }
}

/// The value of what begins at position `i` of `line` and fits `which`. Where
/// both a digit and a word are asked for, the digit is looked at first.
pub open spec fn value_at(line: Seq<char>, which: Pattern, i: int) -> Option<nat> {
    match which {
        Pattern::Digit => digit_at(line, i),
        Pattern::Word => word_at(line, i),
        Pattern::Either => match digit_at(line, i) {
            Some(v) => Some(v),
            None => word_at(line, i),
        },
    }
}

/// Position and value of the first match at or after position `from`.
pub open spec fn first_from(line: Seq<char>, which: Pattern, from: int) -> Option<(int, nat)>
    decreases line.len() - from,
{
    if from >= line.len() {
        None
    } else {
        match value_at(line, which, from) {
            Some(v) => Some((from, v)),
            None => first_from(line, which, from + 1),
        }
    }
}

/// Position and value of the last match that begins before position `end`.
pub open spec fn last_before(line: Seq<char>, which: Pattern, end: int) -> Option<(int, nat)>
    decreases end,
{
    if end <= 0 {
        None
    } else {
        match value_at(line, which, end - 1) {
            Some(v) => Some((end - 1, v)),
            None => last_before(line, which, end - 1),
        }
    }
}

/// Position and value of the match that begins earliest in `line`.
pub open spec fn first(line: Seq<char>, which: Pattern) -> Option<(int, nat)> {
    first_from(line, which, 0)
}

/// Position and value of the match that begins latest in `line`. A word counts
/// by the position at which it begins, not by the one at which it ends.
pub open spec fn last(line: Seq<char>, which: Pattern) -> Option<(int, nat)> {
    last_before(line, which, line.len() as int)
}

/// Ten times the first value plus the last one. A line with a single match
/// uses it on both sides.
pub open spec fn combined(line: Seq<char>, which: Pattern) -> Option<nat> {
    match (first(line, which), last(line, which)) {
        (Some(f), Some(l)) => Some(10 * f.1 + l.1),
        _ => None,
    }
}

/// A position and a value as the scans hand them out, read as mathematical
/// integers.
pub open spec fn located(r: Option<(usize, usize)>) -> Option<(int, nat)> {
    match r {
        Some((p, v)) => Some((p as int, v as nat)),
        None => None,
    }
}

/// Nothing that fits `which` begins at a position from `lo` up to, not
/// including, `hi`.
pub open spec fn none_between(line: Seq<char>, which: Pattern, lo: int, hi: int) -> bool {
    forall|j: int| lo <= j < hi ==> (#[trigger] value_at(line, which, j)) is None
}

/// The first of two candidates, each a position and a value. One alone is
/// taken as it is; two at one position contradict each other.
pub open spec fn earlier_of(digit: Option<(usize, usize)>, word: Option<(usize, usize)>) -> Result<
    (usize, usize),
    ScanError,
> {
    match (digit, word) {
        (None, None) => Err(ScanError::NoTokenFound),
        (Some(d), None) => Ok(d),
        (None, Some(w)) => Ok(w),
        (Some(d), Some(w)) => if d.0 < w.0 {
            Ok(d)
        } else if w.0 < d.0 {
            Ok(w)
        } else {
            Err(ScanError::ConflictingTie)
        },
    }
}

/// The last of two candidates, each a position and a value.
pub open spec fn later_of(digit: Option<(usize, usize)>, word: Option<(usize, usize)>) -> Result<
    (usize, usize),
    ScanError,
> {
    match (digit, word) {
        (None, None) => Err(ScanError::NoTokenFound),
        (Some(d), None) => Ok(d),
        (None, Some(w)) => Ok(w),
        (Some(d), Some(w)) => if d.0 > w.0 {
            Ok(d)
        } else if w.0 > d.0 {
            Ok(w)
        } else {
            Err(ScanError::ConflictingTie)
        },
    }
}

/// What the number words are made of: each has three to five characters and
/// begins with a letter that is no digit.
pub proof fn lemma_words()
    ensures
        word(1) =~= seq!['o', 'n', 'e'],
        word(2) =~= seq!['t', 'w', 'o'],
        word(3) =~= seq!['t', 'h', 'r', 'e', 'e'],
        word(4) =~= seq!['f', 'o', 'u', 'r'],
        word(5) =~= seq!['f', 'i', 'v', 'e'],
        word(6) =~= seq!['s', 'i', 'x'],
        word(7) =~= seq!['s', 'e', 'v', 'e', 'n'],
        word(8) =~= seq!['e', 'i', 'g', 'h', 't'],
        word(9) =~= seq!['n', 'i', 'n', 'e'],
        forall|v: nat| 1 <= v <= 9 ==> 3 <= (#[trigger] word(v)).len() <= 5 && !is_digit(word(v)[0]),
{
    reveal_strlit("one");
    reveal_strlit("two");
    reveal_strlit("three");
    reveal_strlit("four");
    reveal_strlit("five");
    reveal_strlit("six");
    reveal_strlit("seven");
    reveal_strlit("eight");
    reveal_strlit("nine");
}

/// A match begins inside the line, and its value is a single decimal digit.
pub proof fn lemma_value_at_bounds(line: Seq<char>, which: Pattern, i: int)
    ensures
        value_at(line, which, i) matches Some(v) ==> 0 <= i < line.len() && v <= 9,
{
    lemma_words();
}

/// A digit and a number word never begin at the same position: a word begins
/// with a letter. So no line makes the two scans contradict each other.
pub proof fn lemma_digit_excludes_word(line: Seq<char>, i: int)
    ensures
        digit_at(line, i) is Some ==> word_at(line, i) is None,
{
    lemma_words();
    if digit_at(line, i) is Some {
        assert forall|v: nat| 1 <= v <= 9 implies !matches_at(line, i, #[trigger] word(v)) by {
            if matches_at(line, i, word(v)) {
                assert(line.subrange(i, i + word(v).len())[0] == line[i]);
            }
        }
    }
}

/// `first_from` gives the earliest match at or after `from`, and none only
/// where there is no match from there on.
pub proof fn lemma_first_from(line: Seq<char>, which: Pattern, from: int)
    requires
        0 <= from,
    ensures
        match first_from(line, which, from) {
            Some((p, v)) => from <= p < line.len() && value_at(line, which, p) == Some(v)
                && none_between(line, which, from, p),
            None => none_between(line, which, from, line.len() as int),
        },
    decreases line.len() - from,
{
    if from < line.len() && value_at(line, which, from) is None {
        lemma_first_from(line, which, from + 1);
    }
}

/// `last_before` gives the latest match that begins before `end`, and none
/// only where there is no match before it.
pub proof fn lemma_last_before(line: Seq<char>, which: Pattern, end: int)
    requires
        end <= line.len(),
    ensures
        match last_before(line, which, end) {
            Some((p, v)) => 0 <= p < end && value_at(line, which, p) == Some(v) && none_between(
                line,
                which,
                p + 1,
                end,
            ),
            None => none_between(line, which, 0, end),
        },
    decreases end,
{
    if end > 0 && value_at(line, which, end - 1) is None {
        lemma_last_before(line, which, end - 1);
    }
}

/// A match at `p` with none before it is the first one.
pub proof fn lemma_first_unique(line: Seq<char>, which: Pattern, p: int, v: nat)
    requires
        value_at(line, which, p) == Some(v),
        none_between(line, which, 0, p),
    ensures
        first(line, which) == Some((p, v)),
{
    lemma_value_at_bounds(line, which, p);
    lemma_first_from(line, which, 0);
}

/// A match at `p` with none after it is the last one.
pub proof fn lemma_last_unique(line: Seq<char>, which: Pattern, p: int, v: nat)
    requires
        value_at(line, which, p) == Some(v),
        none_between(line, which, p + 1, line.len() as int),
    ensures
        last(line, which) == Some((p, v)),
{
    lemma_value_at_bounds(line, which, p);
    lemma_last_before(line, which, line.len() as int);
}

/// A line without any match has neither a first nor a last one.
pub proof fn lemma_none_found(line: Seq<char>, which: Pattern)
    requires
        none_between(line, which, 0, line.len() as int),
    ensures
        first(line, which) is None,
        last(line, which) is None,
        combined(line, which) is None,
{
    lemma_first_from(line, which, 0);
    lemma_last_before(line, which, line.len() as int);
}

/// A line either has both a first and a last match or neither.
pub proof fn lemma_first_iff_last(line: Seq<char>, which: Pattern)
    ensures
        first(line, which) is Some <==> last(line, which) is Some,
        combined(line, which) is Some <==> first(line, which) is Some,
        combined(line, which) matches Some(n) ==> n <= 99,
{
    lemma_first_from(line, which, 0);
    lemma_last_before(line, which, line.len() as int);
    if first(line, which) is Some {
        lemma_value_at_bounds(line, which, first(line, which).unwrap().0);
    }
    if last(line, which) is Some {
        lemma_value_at_bounds(line, which, last(line, which).unwrap().0);
    }
}

/// The first token of a line is the earlier of its first digit and its first
/// word, and the two never share a position.
pub proof fn lemma_first_either(line: Seq<char>)
    ensures
        first(line, Pattern::Either) == match (
            first(line, Pattern::Digit),
            first(line, Pattern::Word),
        ) {
            (None, None) => None,
            (Some(d), None) => Some(d),
            (None, Some(w)) => Some(w),
            (Some(d), Some(w)) => if d.0 < w.0 {
                Some(d)
            } else {
                Some(w)
            },
        },
        first(line, Pattern::Digit) is Some && first(line, Pattern::Word) is Some ==> first(
            line,
            Pattern::Digit,
        ).unwrap().0 != first(line, Pattern::Word).unwrap().0,
{
    let n = line.len() as int;
    lemma_first_from(line, Pattern::Digit, 0);
    lemma_first_from(line, Pattern::Word, 0);
    let d = first(line, Pattern::Digit);
    let w = first(line, Pattern::Word);
    let dp = if d is Some { d.unwrap().0 } else { n };
    let wp = if w is Some { w.unwrap().0 } else { n };
    if d is Some && w is Some {
        lemma_digit_excludes_word(line, dp);
    }
    let p = if dp < wp { dp } else { wp };
    assert forall|j: int| 0 <= j < p implies (#[trigger] value_at(line, Pattern::Either, j))
        is None by {
        assert(value_at(line, Pattern::Digit, j) is None);
        assert(value_at(line, Pattern::Word, j) is None);
    }
    if p < n {
        if wp < dp {
            assert(value_at(line, Pattern::Digit, wp) is None);
        }
        lemma_first_unique(line, Pattern::Either, p, value_at(line, Pattern::Either, p)->0);
    } else {
        lemma_none_found(line, Pattern::Either);
    }
}

/// The last token of a line is the later of its last digit and its last
/// word, and the two never share a position.
pub proof fn lemma_last_either(line: Seq<char>)
    ensures
        last(line, Pattern::Either) == match (
            last(line, Pattern::Digit),
            last(line, Pattern::Word),
        ) {
            (None, None) => None,
            (Some(d), None) => Some(d),
            (None, Some(w)) => Some(w),
            (Some(d), Some(w)) => if d.0 > w.0 {
                Some(d)
            } else {
                Some(w)
            },
        },
        last(line, Pattern::Digit) is Some && last(line, Pattern::Word) is Some ==> last(
            line,
            Pattern::Digit,
        ).unwrap().0 != last(line, Pattern::Word).unwrap().0,
{
    let n = line.len() as int;
    lemma_last_before(line, Pattern::Digit, n);
    lemma_last_before(line, Pattern::Word, n);
    let d = last(line, Pattern::Digit);
    let w = last(line, Pattern::Word);
    let dp = if d is Some { d.unwrap().0 } else { -1 };
    let wp = if w is Some { w.unwrap().0 } else { -1 };
    if d is Some && w is Some {
        lemma_digit_excludes_word(line, dp);
    }
    let p = if dp > wp { dp } else { wp };
    assert forall|j: int| p + 1 <= j < n implies (#[trigger] value_at(line, Pattern::Either, j))
        is None by {
        assert(value_at(line, Pattern::Digit, j) is None);
        assert(value_at(line, Pattern::Word, j) is None);
    }
    if p >= 0 {
        if wp > dp {
            assert(value_at(line, Pattern::Digit, wp) is None);
        }
        lemma_last_unique(line, Pattern::Either, p, value_at(line, Pattern::Either, p)->0);
    } else {
        lemma_none_found(line, Pattern::Either);
    }
}

/// Two patterns that agree at every position of a line have the same first
/// match from any position on.
proof fn lemma_same_first(line: Seq<char>, a: Pattern, b: Pattern, from: int)
    requires
        0 <= from,
        forall|j: int| 0 <= j < line.len() ==> value_at(line, a, j) == value_at(line, b, j),
    ensures
        first_from(line, a, from) == first_from(line, b, from),
    decreases line.len() - from,
{
    if from < line.len() {
        lemma_same_first(line, a, b, from + 1);
    }
}

/// Two patterns that agree at every position of a line have the same last
/// match before any position.
proof fn lemma_same_last(line: Seq<char>, a: Pattern, b: Pattern, end: int)
    requires
        end <= line.len(),
        forall|j: int| 0 <= j < line.len() ==> value_at(line, a, j) == value_at(line, b, j),
    ensures
        last_before(line, a, end) == last_before(line, b, end),
    decreases end,
{
    if end > 0 {
        lemma_same_last(line, a, b, end - 1);
    }
}

/// On a line in which no number word stands, reading the digits alone and
/// reading digits and words give the same result.
pub proof fn lemma_agree_without_words(line: Seq<char>)
    requires
        forall|i: int| 0 <= i < line.len() ==> (#[trigger] word_at(line, i)) is None,
    ensures
        first(line, Pattern::Digit) == first(line, Pattern::Either),
        last(line, Pattern::Digit) == last(line, Pattern::Either),
        combined(line, Pattern::Digit) == combined(line, Pattern::Either),
{
    assert forall|j: int| 0 <= j < line.len() implies value_at(line, Pattern::Digit, j)
        == value_at(line, Pattern::Either, j) by {
        assert(word_at(line, j) is None);
    }
    lemma_same_first(line, Pattern::Digit, Pattern::Either, 0);
    lemma_same_last(line, Pattern::Digit, Pattern::Either, line.len() as int);
}

/// On a line made of digit characters only, reading the digits alone and
/// reading digits and words give the same number: ten times the first
/// character's value plus the last one's. On the empty line both give none.
pub proof fn lemma_digit_lines_agree(line: Seq<char>)
    requires
        forall|i: int| 0 <= i < line.len() ==> is_digit(#[trigger] line[i]),
    ensures
        combined(line, Pattern::Digit) == combined(line, Pattern::Either),
        line.len() > 0 ==> combined(line, Pattern::Digit) == Some(
            10 * digit_value(line.first()) + digit_value(line.last()),
        ),
        line.len() == 0 ==> combined(line, Pattern::Digit) is None,
{
    assert forall|i: int| 0 <= i < line.len() implies (#[trigger] word_at(line, i)) is None by {
        assert(is_digit(line[i]));
        lemma_digit_excludes_word(line, i);
    }
    lemma_agree_without_words(line);
    if line.len() > 0 {
        assert(value_at(line, Pattern::Digit, 0) is Some);
        assert(value_at(line, Pattern::Digit, line.len() - 1) is Some);
    }
}

/// A line without a digit character and without a number word has no token,
/// neither a first nor a last one: `find_first` and `find_last` both answer
/// `NoTokenFound`, and so does `parse_with_digits`.
pub proof fn lemma_no_token(line: Seq<char>)
    requires
        forall|i: int| 0 <= i < line.len() ==> !is_digit(#[trigger] line[i]),
        forall|i: int| 0 <= i < line.len() ==> (#[trigger] word_at(line, i)) is None,
    ensures
        first(line, Pattern::Either) is None,
        last(line, Pattern::Either) is None,
        combined(line, Pattern::Either) is None,
{
    lemma_agree_without_words(line);
    assert forall|j: int| 0 <= j < line.len() implies (#[trigger] value_at(line, Pattern::Digit, j))
        is None by {
        assert(!is_digit(line[j]));
    }
    lemma_none_found(line, Pattern::Digit);
}

/// The first match is the one that begins earliest: there is a match at its
/// position and none before it. Where a line has no first match, it has no
/// match at all.
pub proof fn lemma_first_is_earliest(line: Seq<char>, which: Pattern)
    ensures
        match first(line, which) {
            Some((p, v)) => 0 <= p < line.len() && value_at(line, which, p) == Some(v)
                && none_between(line, which, 0, p),
            None => none_between(line, which, 0, line.len() as int),
        },
{
    lemma_first_from(line, which, 0);
}

/// The last match is the one that begins latest: there is a match at its
/// position and none after it. Where a line has no last match, it has no
/// match at all.
pub proof fn lemma_last_is_latest(line: Seq<char>, which: Pattern)
    ensures
        match last(line, which) {
            Some((p, v)) => 0 <= p < line.len() && value_at(line, which, p) == Some(v)
                && none_between(line, which, p + 1, line.len() as int),
            None => none_between(line, which, 0, line.len() as int),
        },
{
    lemma_last_before(line, which, line.len() as int);
}

/// No two number words begin with the same two characters, so at most one of
/// them stands at a position.
pub proof fn lemma_one_word_at(line: Seq<char>, i: int, u: nat, v: nat)
    requires
        1 <= u <= 9,
        1 <= v <= 9,
        matches_at(line, i, word(u)),
        matches_at(line, i, word(v)),
    ensures
        u == v,
{
    lemma_words();
    let a = line.subrange(i, i + word(u).len());
    let b = line.subrange(i, i + word(v).len());
    assert(a[0] == line[i] && a[1] == line[i + 1]);
    assert(b[0] == line[i] && b[1] == line[i + 1]);
}

/// A value as a scan hands it out, read as a natural number.
pub open spec fn valued(r: Option<usize>) -> Option<nat> {
    match r {
        Some(v) => Some(v as nat),
        None => None,
    }
}

/// `t` holds the nine number words, the word for `v` at index `v - 1`.
pub open spec fn is_word_table(t: Seq<Vec<char>>) -> bool {
    &&& t.len() == 9
    &&& forall|k: int| 0 <= k < 9 ==> (#[trigger] t[k])@ == word((k + 1) as nat)
}

/// The text of the number word for `v`.
fn spelled(v: usize) -> (w: &'static str)
    requires
        1 <= v <= 9,
    ensures
        w@ == word(v as nat),
{
    if v == 1 {
        "one"
    } else if v == 2 {
        "two"
    } else if v == 3 {
        "three"
    } else if v == 4 {
        "four"
    } else if v == 5 {
        "five"
    } else if v == 6 {
        "six"
    } else if v == 7 {
        "seven"
    } else if v == 8 {
        "eight"
    } else {
        "nine"
    }
}

/// The nine number words as characters, built once for a scan.
fn word_table() -> (t: Vec<Vec<char>>)
    ensures
        is_word_table(t@),
{
    let mut t: Vec<Vec<char>> = Vec::new();
    let mut v: usize = 1;
    while v <= 9
        invariant
            1 <= v <= 10,
            t@.len() == v - 1,
            forall|k: int| 0 <= k < t@.len() ==> (#[trigger] t@[k])@ == word((k + 1) as nat),
        decreases 10 - v,
    {
        t.push(chars_of(spelled(v)));
        v += 1;
    }
    t
}

/// The value of the digit at position `i`, if one stands there.
fn digit_here(line: &[char], i: usize) -> (r: Option<usize>)
    ensures
        valued(r) == digit_at(line@, i as int),
{
    if i < line.len() {
        let c = line[i];
        if '0' <= c && c <= '9' {
            return Some((c as u32 - '0' as u32) as usize);
        }
    }
    None
}

/// The value of the number word that begins at position `i`, if one does.
fn word_here(line: &[char], words: &Vec<Vec<char>>, i: usize) -> (r: Option<usize>)
    requires
        is_word_table(words@),
    ensures
        valued(r) == word_at(line@, i as int),
{
    let mut v: usize = 1;
    while v <= 9
        invariant
            1 <= v <= 10,
            is_word_table(words@),
            forall|u: nat| 1 <= u < v ==> !matches_at(line@, i as int, #[trigger] word(u)),
        decreases 10 - v,
    {
        if stands_at(line, i, words[v - 1].as_slice()) {
            return Some(v);
        }
        v += 1;
    }
    None
}

/// The value of what begins at position `i` and fits `which`.
fn value_here(line: &[char], words: &Vec<Vec<char>>, which: Pattern, i: usize) -> (r: Option<
    usize,
>)
    requires
        which != Pattern::Digit ==> is_word_table(words@),
    ensures
        valued(r) == value_at(line@, which, i as int),
{
    match which {
        Pattern::Digit => digit_here(line, i),
        Pattern::Word => word_here(line, words, i),
        Pattern::Either => match digit_here(line, i) {
            Some(v) => Some(v),
            None => word_here(line, words, i),
        },
    }
}

/// Scans from the left for the first match.
fn scan_first(line: &[char], words: &Vec<Vec<char>>, which: Pattern) -> (r: Option<(usize, usize)>)
    requires
        which != Pattern::Digit ==> is_word_table(words@),
    ensures
        located(r) == first(line@, which),
{
    let mut i: usize = 0;
    while i < line.len()
        invariant
            i <= line.len(),
            which != Pattern::Digit ==> is_word_table(words@),
            first(line@, which) == first_from(line@, which, i as int),
        decreases line.len() - i,
    {
        match value_here(line, words, which, i) {
            Some(v) => {
                return Some((i, v));
            },
            None => {},
        }
        i += 1;
    }
    None
}

/// Scans from the right for the last match, asking each position where a
/// match may begin.
fn scan_last(line: &[char], words: &Vec<Vec<char>>, which: Pattern) -> (r: Option<(usize, usize)>)
    requires
        which != Pattern::Digit ==> is_word_table(words@),
    ensures
        located(r) == last(line@, which),
{
    let mut end: usize = line.len();
    while end > 0
        invariant
            end <= line.len(),
            which != Pattern::Digit ==> is_word_table(words@),
            last(line@, which) == last_before(line@, which, end as int),
        decreases end,
    {
        match value_here(line, words, which, end - 1) {
            Some(v) => {
                return Some((end - 1, v));
            },
            None => {},
        }
        end -= 1;
    }
    None
}

/// The earlier of a digit and a word, each given by position and value. This
/// is where two candidates at one position are refused.
pub fn earlier(digit: Option<(usize, usize)>, word: Option<(usize, usize)>) -> (r: Result<
    (usize, usize),
    ScanError,
>)
    ensures
        r == earlier_of(digit, word),
{
    match (digit, word) {
        (None, None) => Err(ScanError::NoTokenFound),
        (Some(d), None) => Ok(d),
        (None, Some(w)) => Ok(w),
        (Some(d), Some(w)) => if d.0 < w.0 {
            Ok(d)
        } else if w.0 < d.0 {
            Ok(w)
        } else {
            Err(ScanError::ConflictingTie)
        },
    }
}

/// The later of a digit and a word, each given by position and value.
pub fn later(digit: Option<(usize, usize)>, word: Option<(usize, usize)>) -> (r: Result<
    (usize, usize),
    ScanError,
>)
    ensures
        r == later_of(digit, word),
{
    match (digit, word) {
        (None, None) => Err(ScanError::NoTokenFound),
        (Some(d), None) => Ok(d),
        (None, Some(w)) => Ok(w),
        (Some(d), Some(w)) => if d.0 > w.0 {
            Ok(d)
        } else if w.0 > d.0 {
            Ok(w)
        } else {
            Err(ScanError::ConflictingTie)
        },
    }
}

/// What a scan for a token owes its caller: the match that `found` names, or
/// `NoTokenFound` where the line has none.
pub open spec fn token_result(r: Result<(usize, usize), ScanError>, found: Option<(int, nat)>) -> bool {
    match r {
        Ok(t) => found == Some((t.0 as int, t.1 as nat)),
        Err(e) => e == ScanError::NoTokenFound && found is None,
    }
}

/// What a reading of a line owes its caller: the number `value`, or `error`
/// where there is none.
pub open spec fn value_result(r: Result<usize, ScanError>, value: Option<nat>, error: ScanError) -> bool {
    match r {
        Ok(n) => value == Some(n as nat),
        Err(e) => e == error && value is None,
    }
}

/// The first token among the characters of a line.
fn first_token(line: &[char], words: &Vec<Vec<char>>) -> (r: Result<(usize, usize), ScanError>)
    requires
        is_word_table(words@),
    ensures
        token_result(r, first(line@, Pattern::Either)),
{
    let digit = scan_first(line, words, Pattern::Digit);
    let word = scan_first(line, words, Pattern::Word);
    proof {
        lemma_first_either(line@);
    }
    earlier(digit, word)
}

/// The last token among the characters of a line.
fn last_token(line: &[char], words: &Vec<Vec<char>>) -> (r: Result<(usize, usize), ScanError>)
    requires
        is_word_table(words@),
    ensures
        token_result(r, last(line@, Pattern::Either)),
{
    let digit = scan_last(line, words, Pattern::Digit);
    let word = scan_last(line, words, Pattern::Word);
    proof {
        lemma_last_either(line@);
    }
    later(digit, word)
}

/// Whether `term` stands in `line` at the character position `start`. A term
/// that would run past the end of the line does not match.
pub fn search_forwarad(line: &str, start: usize, term: &str) -> (b: bool)
    ensures
        b == matches_at(line@, start as int, term@),
{
    let l = chars_of(line);
    let t = chars_of(term);
    stands_at(l.as_slice(), start, t.as_slice())
}

/// The number that `digit` spells: 1 for `"one"` up to 9 for `"nine"`, and
/// nothing for any other text.
pub fn convert_digit(digit: &str) -> (r: Option<usize>)
    ensures
        valued(r) == word_value(digit@),
{
    let term = chars_of(digit);
    let words = word_table();
    let mut v: usize = 1;
    while v <= 9
        invariant
            1 <= v <= 10,
            is_word_table(words@),
            term@ == digit@,
            forall|u: nat| 1 <= u < v ==> term@ != #[trigger] word(u),
        decreases 10 - v,
    {
        if words[v - 1].len() == term.len() && stands_at(term.as_slice(), 0, words[v - 1].as_slice()) {
            assert(term@.subrange(0, term@.len() as int) =~= term@);
            return Some(v);
        }
        proof {
            if term@ == word(v as nat) {
                assert(term@.subrange(0, term@.len() as int) =~= term@);
            }
        }
        v += 1;
    }
    None
}

/// Position and value of the first digit character of `line`.
pub fn index_first_digit(line: &str) -> (r: Option<(usize, usize)>)
    ensures
        located(r) == first(line@, Pattern::Digit),
{
    let chars = chars_of(line);
    let words: Vec<Vec<char>> = Vec::new();
    scan_first(chars.as_slice(), &words, Pattern::Digit)
}

/// Position and value of the last digit character of `line`.
pub fn index_last_digit(line: &str) -> (r: Option<(usize, usize)>)
    ensures
        located(r) == last(line@, Pattern::Digit),
{
    let chars = chars_of(line);
    let words: Vec<Vec<char>> = Vec::new();
    scan_last(chars.as_slice(), &words, Pattern::Digit)
}

/// Position and value of the number word that begins first in `line`.
pub fn index_first_letter(line: &str) -> (r: Option<(usize, usize)>)
    ensures
        located(r) == first(line@, Pattern::Word),
{
    let chars = chars_of(line);
    let words = word_table();
    scan_first(chars.as_slice(), &words, Pattern::Word)
}

/// Position and value of the number word that begins last in `line`. The
/// position is that of the word's first character.
pub fn index_last_letter(line: &str) -> (r: Option<(usize, usize)>)
    ensures
        located(r) == last(line@, Pattern::Word),
{
    let chars = chars_of(line);
    let words = word_table();
    scan_last(chars.as_slice(), &words, Pattern::Word)
}

/// Position and value of the first token of `line`, digit or word.
pub fn find_first(line: &str) -> (r: Result<(usize, usize), ScanError>)
    ensures
        match r {
            Ok(t) => first(line@, Pattern::Either) == Some((t.0 as int, t.1 as nat)),
            Err(e) => e == ScanError::NoTokenFound && first(line@, Pattern::Either) is None,
        },
{
    let chars = chars_of(line);
    let words = word_table();
    first_token(chars.as_slice(), &words)
}

/// Position and value of the last token of `line`, digit or word.
pub fn find_last(line: &str) -> (r: Result<(usize, usize), ScanError>)
    ensures
        match r {
            Ok(t) => last(line@, Pattern::Either) == Some((t.0 as int, t.1 as nat)),
            Err(e) => e == ScanError::NoTokenFound && last(line@, Pattern::Either) is None,
        },
{
    let chars = chars_of(line);
    let words = word_table();
    last_token(chars.as_slice(), &words)
}

/// The value of the first token of `line`.
pub fn parse_first(line: &str) -> (r: Result<usize, ScanError>)
    ensures
        match r {
            Ok(v) => first(line@, Pattern::Either) matches Some(t) && t.1 == v,
            Err(e) => e == ScanError::NoTokenFound && first(line@, Pattern::Either) is None,
        },
{
    match find_first(line) {
        Ok(t) => Ok(t.1),
        Err(e) => Err(e),
    }
}

/// The value of the last token of `line`.
pub fn parse_last(line: &str) -> (r: Result<usize, ScanError>)
    ensures
        match r {
            Ok(v) => last(line@, Pattern::Either) matches Some(t) && t.1 == v,
            Err(e) => e == ScanError::NoTokenFound && last(line@, Pattern::Either) is None,
        },
{
    match find_last(line) {
        Ok(t) => Ok(t.1),
        Err(e) => Err(e),
    }
}

/// Reads digits and number words among the characters of a line.
fn value_with_words(line: &[char], words: &Vec<Vec<char>>) -> (r: Result<usize, ScanError>)
    requires
        is_word_table(words@),
    ensures
        value_result(r, combined(line@, Pattern::Either), ScanError::NoTokenFound),
{
    proof {
        lemma_first_iff_last(line@, Pattern::Either);
    }
    let f = match first_token(line, words) {
        Ok(t) => t,
        Err(e) => {
            return Err(e);
        },
    };
    let l = match last_token(line, words) {
        Ok(t) => t,
        Err(e) => {
            return Err(e);
        },
    };
    Ok(f.1 * 10 + l.1)
}

/// Reads the digit characters of a line only.
fn value_of_digits(line: &[char]) -> (r: Result<usize, ScanError>)
    ensures
        value_result(r, combined(line@, Pattern::Digit), ScanError::NoDigitFound),
{
    proof {
        lemma_first_iff_last(line@, Pattern::Digit);
    }
    let words: Vec<Vec<char>> = Vec::new();
    match (scan_first(line, &words, Pattern::Digit), scan_last(line, &words, Pattern::Digit)) {
        (Some(f), Some(l)) => Ok(f.1 * 10 + l.1),
        _ => Err(ScanError::NoDigitFound),
    }
}

/// The number that the digit characters of `line` give: ten times the first
/// digit plus the last one. Number words are not read. A line without a digit
/// character is refused.
pub fn parse_line(line: &str) -> (r: Result<usize, ScanError>)
    ensures
        match r {
            Ok(n) => combined(line@, Pattern::Digit) == Some(n as nat),
            Err(e) => e == ScanError::NoDigitFound && combined(line@, Pattern::Digit) is None,
        },
{
    let chars = chars_of(line);
    value_of_digits(chars.as_slice())
}

/// The number that the tokens of `line` give, digits and number words alike:
/// ten times the value of the first token plus the value of the last one. A
/// line without a token is refused.
pub fn parse_with_digits(line: &str) -> (r: Result<usize, ScanError>)
    ensures
        match r {
            Ok(n) => combined(line@, Pattern::Either) == Some(n as nat),
            Err(e) => e == ScanError::NoTokenFound && combined(line@, Pattern::Either) is None,
        },
{
    let chars = chars_of(line);
    let words = word_table();
    value_with_words(chars.as_slice(), &words)
}

/// The error of a line in which nothing fits `which`.
pub open spec fn missing(which: Pattern) -> ScanError {
    match which {
        Pattern::Digit => ScanError::NoDigitFound,
        _ => ScanError::NoTokenFound,
    }
}

/// The sum of the numbers that the lines give, each read for `which`; none
/// where a line gives no number.
pub open spec fn total(all: Seq<Seq<char>>, which: Pattern) -> Option<nat>
    decreases all.len(),
{
    if all.len() == 0 {
        Some(0)
    } else {
        match (total(all.drop_last(), which), combined(all.last(), which)) {
            (Some(sum), Some(n)) => Some(sum + n),
            _ => None,
        }
    }
}

/// Once a line has given no number, the lines have no sum.
proof fn lemma_total_spoilt(all: Seq<Seq<char>>, which: Pattern, k: int)
    requires
        0 <= k <= all.len(),
        total(all.take(k), which) is None,
    ensures
        total(all, which) is None,
    decreases all.len() - k,
{
    if k < all.len() {
        assert(all.take(k + 1).drop_last() =~= all.take(k));
        lemma_total_spoilt(all, which, k + 1);
    } else {
        assert(all.take(k) =~= all);
    }
}

/// The sum is none exactly where some line has no match, and no line adds
/// more than 99 to it.
pub proof fn lemma_total(all: Seq<Seq<char>>, which: Pattern)
    ensures
        total(all, which) is None <==> exists|i: int|
            0 <= i < all.len() && first(#[trigger] all[i], which) is None,
        total(all, which) matches Some(sum) ==> sum <= 99 * all.len(),
    decreases all.len(),
{
    if all.len() > 0 {
        let before = all.drop_last();
        lemma_total(before, which);
        lemma_first_iff_last(all.last(), which);
        if total(before, which) is None {
            let i = choose|i: int| 0 <= i < before.len() && first(#[trigger] before[i], which) is None;
            assert(first(all[i], which) is None);
        } else if combined(all.last(), which) is None {
            assert(first(all[all.len() - 1], which) is None);
        } else {
            assert forall|i: int| 0 <= i < all.len() implies first(#[trigger] all[i], which)
                is Some by {
                if i < before.len() {
                    assert(first(before[i], which) is Some);
                }
            }
        }
    }
}

/// The number that the characters of a line give, read for `which`.
fn value_in(line: &[char], words: &Vec<Vec<char>>, which: Pattern) -> (r: Result<usize, ScanError>)
    requires
        which != Pattern::Word,
        is_word_table(words@),
    ensures
        value_result(r, combined(line@, which), missing(which)),
        r matches Ok(n) ==> n <= 99,
{
    proof {
        lemma_first_iff_last(line@, which);
    }
    match which {
        Pattern::Digit => value_of_digits(line),
        _ => value_with_words(line, words),
    }
}

/// The sum over the lines of a text, each read for `which`.
fn total_in(content: &[char], which: Pattern) -> (r: Result<u128, ScanError>)
    requires
        which != Pattern::Word,
    ensures
        match r {
            Ok(sum) => total(lines(content@), which) == Some(sum as nat),
            Err(e) => e == missing(which) && total(lines(content@), which) is None,
        },
{
    let words = word_table();
    let pieces = split_chars(content, '\n');
    let n = pieces.len();
    let ghost all = lines(content@);
    let mut sum: u128 = 0;
    let mut k: usize = 0;
    while k + 1 < n
        invariant
            1 <= n == pieces.len(),
            k + 1 <= n,
            texts(pieces@) == split(content@, '\n'),
            all == lines(content@),
            is_word_table(words@),
            which != Pattern::Word,
            total(all.take(k as int), which) == Some(sum as nat),
            sum <= 99 * k,
        decreases n - k,
    {
        proof {
            assert(texts(pieces@)[k as int] == pieces@[k as int]@);
            assert(all.take(k + 1).drop_last() =~= all.take(k as int));
        }
        match value_in(strip_return(pieces[k].as_slice()), &words, which) {
            Ok(v) => {
                sum = sum + v as u128;
            },
            Err(e) => {
                proof {
                    lemma_total_spoilt(all, which, k + 1);
                }
                return Err(e);
            },
        }
        k += 1;
    }
    proof {
        assert(texts(pieces@).last() == pieces@[n - 1]@);
    }
    if pieces[n - 1].len() == 0 {
        assert(all.take(k as int) =~= all);
        Ok(sum)
    } else {
        proof {
            assert(all.drop_last() =~= all.take(k as int));
        }
        match value_in(pieces[n - 1].as_slice(), &words, which) {
            Ok(v) => Ok(sum + v as u128),
            Err(e) => Err(e),
        }
    }
}

/// The sum over the lines of `content` of what `parse_line` gives for each.
/// The first line without a digit character ends the reading, and there is
/// no sum. The sum is wider than a machine word, which 99 times the number
/// of lines need not fit.
pub fn total_of_digits(content: &str) -> (r: Result<u128, ScanError>)
    ensures
        match r {
            Ok(sum) => total(lines(content@), Pattern::Digit) == Some(sum as nat),
            Err(e) => e == ScanError::NoDigitFound && total(lines(content@), Pattern::Digit)
                is None,
        },
{
    let chars = chars_of(content);
    total_in(chars.as_slice(), Pattern::Digit)
}

/// The sum over the lines of `content` of what `parse_with_digits` gives for
/// each. The first line without a token ends the reading, and there is no
/// sum.
pub fn total_with_words(content: &str) -> (r: Result<u128, ScanError>)
    ensures
        match r {
            Ok(sum) => total(lines(content@), Pattern::Either) == Some(sum as nat),
            Err(e) => e == ScanError::NoTokenFound && total(lines(content@), Pattern::Either)
                is None,
        },
{
    let chars = chars_of(content);
    total_in(chars.as_slice(), Pattern::Either)
}

} // verus!
