//! Texts as sequences of characters: what it means to match, split, trim
//! and read a number, and executable functions proved to do so.

use vstd::prelude::*;
use vstd::slice::slice_subrange;

verus! {

/// `term` stands in `line` at position `start`: the characters of `line` from
/// `start` on spell `term`, and `term` does not run past the end of `line`.
pub open spec fn matches_at(line: Seq<char>, start: int, term: Seq<char>) -> bool {
    &&& 0 <= start
    &&& start + term.len() <= line.len()
    &&& line.subrange(start, start + term.len()) == term
}

/// The characters of `s`, in order, as a vector that is indexed in constant time.
pub fn chars_of(s: &str) -> (v: Vec<char>)
    ensures
        v@ == s@,
{
    let mut v: Vec<char> = Vec::new();
    for c in it: s.chars()
        invariant
            v@ == it.seq().take(it.index() as int),
    {
        v.push(c);
    }
    v
}

/// Whether `term` stands in `line` at `start`. No sum of positions is formed
/// that could leave `usize`, so every `start` is answered.
pub fn stands_at(line: &[char], start: usize, term: &[char]) -> (b: bool)
    ensures
        b == matches_at(line@, start as int, term@),
{
    if term.len() > line.len() || start > line.len() - term.len() {
        return false;
    }
    let mut k: usize = 0;
    while k < term.len()
        invariant
            k <= term.len(),
            start + term.len() <= line.len(),
            forall|j: int| 0 <= j < k ==> line@[start + j] == term@[j],
        decreases term.len() - k,
    {
        if line[start + k] != term[k] {
            assert(line@.subrange(start as int, start + term.len())[k as int] != term@[k as int]);
            return false;
        }
        k += 1;
    }
    assert(line@.subrange(start as int, start + term.len()) =~= term@);
    true
}

/// A decimal digit character, `'0'` to `'9'`.
pub open spec fn is_digit(c: char) -> bool {
    '0' <= c <= '9'
}

/// The number that a digit character stands for.
pub open spec fn digit_value(c: char) -> nat
    recommends
        is_digit(c),
{
    (c as int - '0' as int) as nat
}

/// A character with the Unicode property White_Space.
pub open spec fn is_white_space(c: char) -> bool {
    ||| '\u{9}' <= c <= '\u{d}'
    ||| c == ' '
    ||| c == '\u{85}'
    ||| c == '\u{a0}'
    ||| c == '\u{1680}'
    ||| '\u{2000}' <= c <= '\u{200a}'
    ||| c == '\u{2028}'
    ||| c == '\u{2029}'
    ||| c == '\u{202f}'
    ||| c == '\u{205f}'
    ||| c == '\u{3000}'
}

/// `s` without the white space at its beginning.
pub open spec fn trim_start(s: Seq<char>) -> Seq<char>
    decreases s.len(),
{
    if s.len() > 0 && is_white_space(s.first()) {
        trim_start(s.drop_first())
    } else {
        s
    }
}

/// `s` without the white space at its end.
pub open spec fn trim_end(s: Seq<char>) -> Seq<char>
    decreases s.len(),
{
    if s.len() > 0 && is_white_space(s.last()) {
        trim_end(s.drop_last())
    } else {
        s
    }
}

/// `s` without the white space at either end.
pub open spec fn trim(s: Seq<char>) -> Seq<char> {
    trim_end(trim_start(s))
}

/// The pieces of `s` between the occurrences of `sep`, in order. There is one
/// piece more than there are separators, so at least one; a piece is empty
/// where two separators meet or one stands at an end.
pub open spec fn split(s: Seq<char>, sep: char) -> Seq<Seq<char>>
    decreases s.len(),
{
    if s.len() == 0 {
        seq![Seq::empty()]
    } else {
        let before = split(s.drop_last(), sep);
        if s.last() == sep {
            before.push(Seq::empty())
        } else {
            before.drop_last().push(before.last().push(s.last()))
        }
    }
}

/// `piece` without a carriage return at its end.
pub open spec fn without_return(piece: Seq<char>) -> Seq<char> {
    if piece.len() > 0 && piece.last() == '\r' {
        piece.drop_last()
    } else {
        piece
    }
}

/// The lines of `s`. A line ends with a line feed, or with a carriage return
/// and a line feed, neither of which belongs to it; the last line need not
/// end so, and then keeps a carriage return at its end. After the last line
/// feed no empty line follows.
pub open spec fn lines(s: Seq<char>) -> Seq<Seq<char>> {
    let pieces = split(s, '\n');
    let ended = Seq::new((pieces.len() - 1) as nat, |k: int| without_return(pieces[k]));
    if pieces.last().len() == 0 {
        ended
    } else {
        ended.push(pieces.last())
    }
}

/// `term` stands somewhere in `s`.
pub open spec fn occurs(s: Seq<char>, term: Seq<char>) -> bool {
    exists|i: int| matches_at(s, i, term)
}

/// Every character of `s` is a decimal digit.
pub open spec fn all_digits(s: Seq<char>) -> bool {
    forall|i: int| 0 <= i < s.len() ==> is_digit(#[trigger] s[i])
}

/// The number that a text of decimal digits writes, the first digit counting
/// most.
pub open spec fn decimal(s: Seq<char>) -> nat
    decreases s.len(),
{
    if s.len() == 0 {
        0
    } else {
        10 * decimal(s.drop_last()) + digit_value(s.last())
    }
}

/// `s` without a plus sign in front.
pub open spec fn unsigned(s: Seq<char>) -> Seq<char> {
    if s.len() > 0 && s.first() == '+' {
        s.drop_first()
    } else {
        s
    }
}

/// The number that `s` writes: decimal digits, at least one, with at most a
/// plus sign before them and nothing else around them. A number that does
/// not fit the machine word is none.
pub open spec fn number_of(s: Seq<char>) -> Option<usize> {
    let d = unsigned(s);
    if d.len() > 0 && all_digits(d) && decimal(d) <= usize::MAX {
        Some(decimal(d) as usize)
    } else {
        None
    }
}

/// The texts that a vector of character vectors holds.
pub open spec fn texts(pieces: Seq<Vec<char>>) -> Seq<Seq<char>> {
    Seq::new(pieces.len(), |k: int| pieces[k]@)
}

/// The pieces put together again, with `sep` between each two.
pub open spec fn join(pieces: Seq<Seq<char>>, sep: char) -> Seq<char>
    decreases pieces.len(),
{
    if pieces.len() == 0 {
        Seq::empty()
    } else if pieces.len() == 1 {
        pieces[0]
    } else {
        join(pieces.drop_last(), sep).push(sep) + pieces.last()
    }
}

/// What splitting is: there is at least one piece, no piece holds the
/// separator, and the pieces joined by the separator are the text again.
pub proof fn lemma_split(s: Seq<char>, sep: char)
    ensures
        split(s, sep).len() >= 1,
        forall|k: int, i: int|
            0 <= k < split(s, sep).len() && 0 <= i < split(s, sep)[k].len() ==> (#[trigger] split(
                s,
                sep,
            )[k][i]) != sep,
        join(split(s, sep), sep) == s,
    decreases s.len(),
{
    if s.len() > 0 {
        let before = split(s.drop_last(), sep);
        let pieces = split(s, sep);
        lemma_split(s.drop_last(), sep);
        if s.last() == sep {
            assert(pieces.drop_last() =~= before);
            assert(join(pieces, sep) =~= s.drop_last().push(sep));
            assert(s.drop_last().push(sep) =~= s);
        } else {
            let grown = before.last().push(s.last());
            assert(pieces.last() == grown);
            if before.len() == 1 {
                assert(join(before, sep) == before[0]);
                assert(join(pieces, sep) == grown);
            } else {
                assert(pieces.drop_last() =~= before.drop_last());
                assert(join(pieces, sep) =~= join(before, sep).push(s.last()));
            }
            assert(s.drop_last().push(s.last()) =~= s);
            assert forall|k: int, i: int|
                0 <= k < pieces.len() && 0 <= i < pieces[k].len() implies (#[trigger] pieces[k][i])
                != sep by {
                if k < pieces.len() - 1 {
                    assert(pieces[k] == before[k]);
                    assert(before[k][i] != sep);
                } else if i < before.last().len() {
                    assert(before[k][i] != sep);
                }
            }
        }
    } else {
        assert(join(split(s, sep), sep) =~= s);
    }
}

/// What trimming is: the trimmed text is a stretch of the text, all that
/// stands before and after it is white space, and it neither begins nor ends
/// with white space.
pub proof fn lemma_trim(s: Seq<char>)
    ensures
        ({
            let from = s.len() - trim_start(s).len();
            let to = from + trim(s).len();
            &&& 0 <= from <= to <= s.len()
            &&& trim(s) == s.subrange(from, to)
            &&& forall|i: int| 0 <= i < from ==> is_white_space(#[trigger] s[i])
            &&& forall|i: int| to <= i < s.len() ==> is_white_space(#[trigger] s[i])
            &&& trim(s).len() > 0 ==> !is_white_space(trim(s).first()) && !is_white_space(
                trim(s).last(),
            )
        }),
{
    lemma_trim_start(s);
    let t = trim_start(s);
    lemma_trim_end(t);
    let from = s.len() - t.len();
    let to = from + trim(s).len();
    assert(trim(s) =~= s.subrange(from, to));
    assert forall|i: int| to <= i < s.len() implies is_white_space(#[trigger] s[i]) by {
        assert(s[i] == t[i - from]);
    }
    if trim(s).len() > 0 {
        assert(trim(s).first() == t[0]);
    }
}

/// What is taken from the beginning is white space, and what is left does
/// not begin with it.
proof fn lemma_trim_start(s: Seq<char>)
    ensures
        trim_start(s).len() <= s.len(),
        trim_start(s) == s.skip(s.len() - trim_start(s).len()),
        forall|i: int| 0 <= i < s.len() - trim_start(s).len() ==> is_white_space(#[trigger] s[i]),
        trim_start(s).len() > 0 ==> !is_white_space(trim_start(s).first()),
    decreases s.len(),
{
    if s.len() > 0 && is_white_space(s.first()) {
        let rest = s.drop_first();
        lemma_trim_start(rest);
        let n = s.len() - trim_start(s).len();
        assert(rest.skip(n - 1) =~= s.skip(n));
        assert forall|i: int| 0 <= i < n implies is_white_space(#[trigger] s[i]) by {
            if i > 0 {
                assert(s[i] == rest[i - 1]);
            }
        }
    } else {
        assert(s.skip(0) =~= s);
    }
}

/// What is taken from the end is white space, and what is left does not end
/// with it.
proof fn lemma_trim_end(s: Seq<char>)
    ensures
        trim_end(s).len() <= s.len(),
        trim_end(s) == s.take(trim_end(s).len() as int),
        forall|i: int| trim_end(s).len() <= i < s.len() ==> is_white_space(#[trigger] s[i]),
        trim_end(s).len() > 0 ==> !is_white_space(trim_end(s).last()),
    decreases s.len(),
{
    if s.len() > 0 && is_white_space(s.last()) {
        let rest = s.drop_last();
        lemma_trim_end(rest);
        let n = trim_end(s).len() as int;
        assert(rest.take(n) =~= s.take(n));
        assert forall|i: int| n <= i < s.len() implies is_white_space(#[trigger] s[i]) by {
            if i < s.len() - 1 {
                assert(s[i] == rest[i]);
            }
        }
    } else {
        assert(s.take(s.len() as int) =~= s);
    }
}

/// The digits read so far never write more than the whole text does.
pub proof fn lemma_decimal_prefix(s: Seq<char>, k: int)
    requires
        0 <= k <= s.len(),
    ensures
        decimal(s.take(k)) <= decimal(s),
    decreases s.len() - k,
{
    if k < s.len() {
        lemma_decimal_prefix(s, k + 1);
        assert(s.take(k + 1).drop_last() =~= s.take(k));
    } else {
        assert(s.take(k) =~= s);
    }
}

/// Whether `c` is white space.
pub fn is_space(c: char) -> (b: bool)
    ensures
        b == is_white_space(c),
{
    ('\u{9}' <= c && c <= '\u{d}') || c == ' ' || c == '\u{85}' || c == '\u{a0}' || c == '\u{1680}'
        || ('\u{2000}' <= c && c <= '\u{200a}') || c == '\u{2028}' || c == '\u{2029}' || c
        == '\u{202f}' || c == '\u{205f}' || c == '\u{3000}'
}

/// `piece` without a carriage return at its end.
pub fn strip_return(piece: &[char]) -> (r: &[char])
    ensures
        r@ == without_return(piece@),
{
    let n = piece.len();
    if n > 0 && piece[n - 1] == '\r' {
        let r = slice_subrange(piece, 0, n - 1);
        assert(r@ =~= piece@.drop_last());
        r
    } else {
        piece
    }
}

/// The characters of `s` without the white space at either end.
pub fn trim_chars(s: &[char]) -> (v: &[char])
    ensures
        v@ == trim(s@),
{
    let mut from: usize = 0;
    assert(s@.skip(0) =~= s@);
    while from < s.len() && is_space(s[from])
        invariant
            from <= s.len(),
            trim_start(s@) == trim_start(s@.skip(from as int)),
        decreases s.len() - from,
    {
        assert(s@.skip(from as int).drop_first() =~= s@.skip(from + 1));
        from += 1;
    }
    assert(trim_start(s@) == s@.skip(from as int));
    let ghost t = s@.skip(from as int);
    let mut to: usize = s.len();
    assert(t.take(to - from) =~= t);
    while to > from && is_space(s[to - 1])
        invariant
            from <= to <= s.len(),
            t == s@.skip(from as int),
            trim_end(t) == trim_end(t.take(to - from)),
        decreases to,
    {
        assert(t.take(to - from).drop_last() =~= t.take(to - from - 1));
        to -= 1;
    }
    assert(t.take(to - from) =~= s@.subrange(from as int, to as int));
    slice_subrange(s, from, to)
}

/// The pieces of `s` between the occurrences of `sep`.
pub fn split_chars(s: &[char], sep: char) -> (pieces: Vec<Vec<char>>)
    ensures
        texts(pieces@) == split(s@, sep),
        pieces@.len() >= 1,
{
    let mut pieces: Vec<Vec<char>> = Vec::new();
    let mut piece: Vec<char> = Vec::new();
    let mut i: usize = 0;
    while i < s.len()
        invariant
            i <= s.len(),
            split(s@.take(i as int), sep) == texts(pieces@).push(piece@),
        decreases s.len() - i,
    {
        let c = s[i];
        proof {
            assert(s@.take(i + 1).drop_last() =~= s@.take(i as int));
            let before = split(s@.take(i as int), sep);
            assert(before.drop_last() =~= texts(pieces@));
            assert(before.last() == piece@);
        }
        if c == sep {
            let ghost old_pieces = pieces@;
            pieces.push(piece);
            piece = Vec::new();
            assert(texts(pieces@) =~= texts(old_pieces).push(pieces@.last()@));
        } else {
            piece.push(c);
        }
        i += 1;
    }
    let ghost old_pieces = pieces@;
    pieces.push(piece);
    proof {
        assert(s@.take(s@.len() as int) =~= s@);
        assert(texts(pieces@) =~= texts(old_pieces).push(pieces@.last()@));
    }
    pieces
}

/// Whether `term` stands somewhere in `s`.
pub fn contains_chars(s: &[char], term: &[char]) -> (b: bool)
    ensures
        b == occurs(s@, term@),
{
    let mut i: usize = 0;
    while i < s.len()
        invariant
            i <= s.len(),
            forall|j: int| 0 <= j < i ==> !matches_at(s@, j, term@),
        decreases s.len() - i,
    {
        if stands_at(s, i, term) {
            return true;
        }
        i += 1;
    }
    stands_at(s, i, term)
}

/// The number that `s` writes, if it writes one that fits the machine word.
pub fn parse_number(s: &[char]) -> (r: Option<usize>)
    ensures
        r == number_of(s@),
{
    let start: usize = if s.len() > 0 && s[0] == '+' {
        1
    } else {
        0
    };
    let ghost d = unsigned(s@);
    assert(d =~= s@.skip(start as int));
    if start == s.len() {
        return None;
    }
    let mut n: usize = 0;
    let mut i: usize = start;
    assert(d.take(0) =~= Seq::<char>::empty());
    while i < s.len()
        invariant
            start <= i <= s.len(),
            d == unsigned(s@),
            d == s@.skip(start as int),
            all_digits(d.take(i - start)),
            n == decimal(d.take(i - start)),
        decreases s.len() - i,
    {
        let c = s[i];
        if !('0' <= c && c <= '9') {
            assert(!is_digit(d[i - start]));
            return None;
        }
        let v: usize = (c as u32 - '0' as u32) as usize;
        proof {
            assert(d.take(i - start + 1).drop_last() =~= d.take(i - start));
            assert(d.take(i - start + 1).last() == c);
            lemma_decimal_prefix(d, i - start + 1);
        }
        let tenfold = match n.checked_mul(10) {
            Some(m) => m,
            None => {
                return None;
            },
        };
        n = match tenfold.checked_add(v) {
            Some(m) => m,
            None => {
                return None;
            },
        };
        i += 1;
    }
    assert(d.take(i - start) =~= d);
    Some(n)
}

} // verus!
