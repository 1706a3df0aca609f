//! Taking text apart: white space, separators and numbers.

use vstd::prelude::*;
use vstd::slice::slice_subrange;

use crate::text;

verus! {

/// The characters with the Unicode property `White_Space`.
pub open spec fn white_space(c: char) -> bool {
    ||| '\u{9}' <= c <= '\u{d}'
    ||| c == '\u{20}'
    ||| c == '\u{85}'
    ||| c == '\u{a0}'
    ||| c == '\u{1680}'
    ||| '\u{2000}' <= c <= '\u{200a}'
    ||| c == '\u{2028}'
    ||| c == '\u{2029}'
    ||| c == '\u{202f}'
    ||| c == '\u{205f}'
    ||| c == '\u{3000}'
}

/// `s` without its leading white space.
pub open spec fn trimmed_start(s: Seq<char>) -> Seq<char>
    decreases s.len(),
{
    if s.len() > 0 && white_space(s.first()) {
        trimmed_start(s.drop_first())
    } else {
        s
    }
}

/// `s` without its trailing white space.
pub open spec fn trimmed_end(s: Seq<char>) -> Seq<char>
    decreases s.len(),
{
    if s.len() > 0 && white_space(s.last()) {
        trimmed_end(s.drop_last())
    } else {
        s
    }
}

/// `s` without white space at either end.
pub open spec fn trimmed(s: Seq<char>) -> Seq<char> {
    trimmed_end(trimmed_start(s))
}

/// The pieces of `s` between occurrences of `sep`: one more than there are
/// occurrences, empty ones included.
pub open spec fn pieces(s: Seq<char>, sep: char) -> Seq<Seq<char>>
    decreases s.len(),
{
    if s.len() == 0 {
        seq![Seq::<char>::empty()]
    } else {
        let before = pieces(s.drop_last(), sep);
        if s.last() == sep {
            before.push(Seq::<char>::empty())
        } else {
            before.update(before.len() - 1, before.last().push(s.last()))
        }
    }
}

/// The position of the first `c` in `s`, or the length of `s` where it holds
/// none.
pub open spec fn first_position(s: Seq<char>, c: char) -> nat
    decreases s.len(),
{
    if s.len() == 0 || s.first() == c {
        0
    } else {
        1 + first_position(s.drop_first(), c)
    }
}

/// Whether `c` is one of `0` to `9`.
pub open spec fn is_digit(c: char) -> bool {
    '0' <= c <= '9'
}

/// The number that a row of digits denotes.
pub open spec fn digits_value(s: Seq<char>) -> nat
    decreases s.len(),
{
    if s.len() == 0 {
        0
    } else {
        digits_value(s.drop_last()) * 10 + (s.last() as nat - '0' as nat) as nat
    }
}

/// What stands behind an optional plus sign.
pub open spec fn unsigned_part(s: Seq<char>) -> Seq<char> {
    if s.len() > 0 && s.first() == '+' {
        s.drop_first()
    } else {
        s
    }
}

/// The number that `s` denotes: an optional plus sign and at least one digit,
/// with nothing else, of a value that a `usize` can hold.
pub open spec fn number(s: Seq<char>) -> Option<usize> {
    let body = unsigned_part(s);
    if body.len() > 0 && (forall|i: int| 0 <= i < body.len() ==> is_digit(#[trigger] body[i]))
        && digits_value(body) <= usize::MAX {
        Some(digits_value(body) as usize)
    } else {
        None
    }
}

/// Whether `c` is white space.
pub fn is_white_space(c: char) -> (b: bool)
    ensures
        b == white_space(c),
{
    ('\u{9}' <= c && c <= '\u{d}') || c == '\u{20}' || c == '\u{85}' || c == '\u{a0}' || c
        == '\u{1680}' || ('\u{2000}' <= c && c <= '\u{200a}') || c == '\u{2028}' || c == '\u{2029}'
        || c == '\u{202f}' || c == '\u{205f}' || c == '\u{3000}'
}

/// `s` without white space at either end.
pub fn trim(s: &[char]) -> (r: &[char])
    ensures
        r@ == trimmed(s@),
{
    let mut low: usize = 0;
    assert(s@.skip(0) =~= s@);
    while low < s.len() && is_white_space(s[low])
        invariant
            low <= s@.len(),
            trimmed_start(s@) == trimmed_start(s@.skip(low as int)),
        decreases s@.len() - low,
    {
        assert(s@.skip(low as int).drop_first() =~= s@.skip(low + 1));
        low += 1;
    }
    let ghost rest = s@.skip(low as int);
    assert(trimmed_start(s@) == rest);
    let mut high: usize = s.len();
    assert(s@.subrange(low as int, high as int) =~= rest);
    while low < high && is_white_space(s[high - 1])
        invariant
            low <= high <= s@.len(),
            trimmed(s@) == trimmed_end(s@.subrange(low as int, high as int)),
        decreases high,
    {
        assert(s@.subrange(low as int, high as int).drop_last() =~= s@.subrange(
            low as int,
            high - 1,
        ));
        high -= 1;
    }
    slice_subrange(s, low, high)
}

/// The views of the pieces.
pub open spec fn piece_views(v: Seq<Vec<char>>) -> Seq<Seq<char>> {
    v.map_values(|p: Vec<char>| p@)
}

/// Splits `s` at every occurrence of `sep`.
pub fn split(s: &[char], sep: char) -> (r: Vec<Vec<char>>)
    ensures
        piece_views(r@) == pieces(s@, sep),
{
    let mut done: Vec<Vec<char>> = Vec::new();
    let mut piece: Vec<char> = Vec::new();
    assert(s@.take(0) =~= Seq::<char>::empty());
    assert(piece_views(done@).push(piece@) =~= seq![Seq::<char>::empty()]);
    for i in 0..s.len()
        invariant
            piece_views(done@).push(piece@) == pieces(s@.take(i as int), sep),
    {
        let ghost before = piece_views(done@).push(piece@);
        let ghost done_before = piece_views(done@);
        let ghost upto = s@.take(i + 1);
        assert(upto.drop_last() =~= s@.take(i as int));
        assert(upto.last() == s@[i as int]);
        if s[i] == sep {
            done.push(piece);
            piece = Vec::new();
            assert(piece_views(done@) =~= before);
        } else {
            piece.push(s[i]);
            assert(piece_views(done@).push(piece@) =~= before.update(
                before.len() - 1,
                before.last().push(s@[i as int]),
            ));
        }
    }
    assert(s@.take(s@.len() as int) =~= s@);
    let ghost last = piece@;
    let ghost init = piece_views(done@);
    done.push(piece);
    assert(piece_views(done@) =~= init.push(last));
    done
}

/// The position of the first `c` in `s`, or the length of `s`.
pub fn find(s: &[char], c: char) -> (i: usize)
    ensures
        i == first_position(s@, c),
        i <= s@.len(),
{
    let mut i: usize = 0;
    assert(s@.skip(0) =~= s@);
    while i < s.len() && s[i] != c
        invariant
            i <= s@.len(),
            first_position(s@, c) == i + first_position(s@.skip(i as int), c),
        decreases s@.len() - i,
    {
        assert(s@.skip(i as int).drop_first() =~= s@.skip(i + 1));
        i += 1;
    }
    i
}

proof fn lemma_digits_value_grows(s: Seq<char>, k: int)
    requires
        0 <= k <= s.len(),
        forall|i: int| 0 <= i < s.len() ==> is_digit(#[trigger] s[i]),
    ensures
        digits_value(s.take(k)) <= digits_value(s),
    decreases s.len(),
{
    if k == s.len() {
        assert(s.take(k) =~= s);
    } else {
        assert(s.drop_last().take(k) =~= s.take(k));
        lemma_digits_value_grows(s.drop_last(), k);
    }
}

/// Reads the number that `s` denotes.
pub fn parse_number(s: &[char]) -> (r: Option<usize>)
    ensures
        r == number(s@),
{
    let body = if s.len() > 0 && s[0] == '+' {
        slice_subrange(s, 1, s.len())
    } else {
        s
    };
    assert(body@ =~= unsigned_part(s@));
    if body.len() == 0 {
        return None;
    }
    let mut value: usize = 0;
    for i in 0..body.len()
        invariant
            body@ == unsigned_part(s@),
            value == digits_value(body@.take(i as int)),
            forall|k: int| 0 <= k < i ==> is_digit(#[trigger] body@[k]),
    {
        let c = body[i];
        if !('0' <= c && c <= '9') {
            assert(!is_digit(body@[i as int]));
            return None;
        }
        let d: usize = c as usize - '0' as usize;
        assert(body@.take(i + 1).drop_last() =~= body@.take(i as int));
        assert(digits_value(body@.take(i + 1)) == value * 10 + d);
        proof {
            if forall|k: int| 0 <= k < body@.len() ==> is_digit(#[trigger] body@[k]) {
                lemma_digits_value_grows(body@, i + 1);
            }
        }
        value = match value.checked_mul(10) {
            None => { return None; },
            Some(shifted) => match shifted.checked_add(d) {
                None => { return None; },
                Some(next) => next,
            },
        };
    }
    assert(body@.take(body@.len() as int) =~= body@);
    Some(value)
}

/// One more piece stands behind each separator.
pub(crate) proof fn lemma_pieces_after(a: Seq<char>, b: Seq<char>, sep: char)
    requires
        !b.contains(sep),
    ensures
        pieces(a.push(sep) + b, sep) == pieces(a, sep).push(b),
    decreases b.len(),
{
    let whole = a.push(sep) + b;
    if b.len() == 0 {
        assert(whole =~= a.push(sep));
        assert(whole.drop_last() =~= a);
        assert(b =~= Seq::<char>::empty());
    } else {
        let rest = b.drop_last();
        assert forall|c: char| rest.contains(c) implies #[trigger] b.contains(c) by {
            let i = choose|i: int| 0 <= i < rest.len() && rest[i] == c;
            assert(b[i] == c);
        }
        lemma_pieces_after(a, rest, sep);
        assert(whole.drop_last() =~= a.push(sep) + rest);
        assert(b.contains(b.last()));
        let before = pieces(a, sep).push(rest);
        assert(before.update(before.len() - 1, before.last().push(b.last())) =~= pieces(
            a,
            sep,
        ).push(rest.push(b.last())));
        assert(rest.push(b.last()) =~= b);
    }
}

/// Text without a separator is one piece.
pub(crate) proof fn lemma_one_piece(s: Seq<char>, sep: char)
    requires
        !s.contains(sep),
    ensures
        pieces(s, sep) == seq![s],
    decreases s.len(),
{
    if s.len() > 0 {
        let rest = s.drop_last();
        assert forall|c: char| rest.contains(c) implies #[trigger] s.contains(c) by {
            let i = choose|i: int| 0 <= i < rest.len() && rest[i] == c;
            assert(s[i] == c);
        }
        lemma_one_piece(rest, sep);
        assert(s.contains(s.last()));
        assert(rest.push(s.last()) =~= s);
        assert(pieces(s, sep) =~= seq![s]);
    } else {
        assert(s =~= Seq::<char>::empty());
    }
}

/// Joining the pieces with the separator gives back the text, and no piece
/// holds a separator.
pub proof fn joining_undoes_splitting(s: Seq<char>, sep: char)
    ensures
        pieces(s, sep).len() >= 1,
        text::joined(pieces(s, sep), seq![sep]) == s,
        forall|i: int|
            0 <= i < pieces(s, sep).len() ==> !(#[trigger] pieces(s, sep)[i]).contains(sep),
    decreases s.len(),
{
    let ps = pieces(s, sep);
    if s.len() > 0 {
        let rest = s.drop_last();
        let before = pieces(rest, sep);
        joining_undoes_splitting(rest, sep);
        assert(rest.push(s.last()) =~= s);
        if s.last() == sep {
            assert(ps.drop_last() =~= before);
            assert(text::joined(ps, seq![sep]) =~= s);
        } else {
            assert(ps.drop_last() =~= before.drop_last());
            assert(ps.last() == before.last().push(s.last()));
            assert(text::joined(ps, seq![sep]) =~= s);
            assert forall|i: int| 0 <= i < ps.len() implies !(#[trigger] ps[i]).contains(sep) by {
                assert(!before[i].contains(sep));
                if i == ps.len() - 1 && ps[i].contains(sep) {
                    let k = choose|k: int| 0 <= k < ps[i].len() && ps[i][k] == sep;
                    assert(before[i][k] == sep);
                }
            }
        }
    }
}

/// Splitting gives back the parts that were joined with the separator, if none
/// of them holds it.
pub proof fn splitting_undoes_joining(parts: Seq<Seq<char>>, sep: char)
    requires
        parts.len() > 0,
        forall|i: int| 0 <= i < parts.len() ==> !(#[trigger] parts[i]).contains(sep),
    ensures
        pieces(text::joined(parts, seq![sep]), sep) == parts,
    decreases parts.len(),
{
    if parts.len() == 1 {
        assert(!parts[0].contains(sep));
        lemma_one_piece(parts[0], sep);
        assert(seq![parts[0]] =~= parts);
    } else {
        let before = parts.drop_last();
        assert forall|i: int| 0 <= i < before.len() implies !(#[trigger] before[i]).contains(
            sep,
        ) by {
            assert(!parts[i].contains(sep));
        }
        splitting_undoes_joining(before, sep);
        let head = text::joined(before, seq![sep]);
        assert(!parts[parts.len() - 1].contains(sep));
        lemma_pieces_after(head, parts.last(), sep);
        assert(head + seq![sep] + parts.last() =~= head.push(sep) + parts.last());
        assert(before.push(parts.last()) =~= parts);
    }
}

/// The pieces of two texts with a separator between them are those of the one
/// and then those of the other.
pub proof fn splitting_goes_on_behind_a_separator(a: Seq<char>, b: Seq<char>, sep: char)
    ensures
        pieces(a + seq![sep] + b, sep) == pieces(a, sep) + pieces(b, sep),
    decreases b.len(),
{
    let whole = a + seq![sep] + b;
    let first = pieces(a, sep);
    joining_undoes_splitting(b, sep);
    if b.len() == 0 {
        assert(whole.drop_last() =~= a);
        assert(whole.last() == sep);
        assert(pieces(whole, sep) =~= first + pieces(b, sep));
    } else {
        let rest = b.drop_last();
        splitting_goes_on_behind_a_separator(a, rest, sep);
        joining_undoes_splitting(rest, sep);
        assert(whole.drop_last() =~= a + seq![sep] + rest);
        assert(whole.last() == b.last());
        assert(pieces(whole, sep) =~= first + pieces(b, sep));
    }
}

proof fn lemma_trimmed_start_clean(s: Seq<char>)
    ensures
        trimmed_start(s).len() == 0 || !white_space(trimmed_start(s).first()),
        trimmed_start(s).len() <= s.len(),
    decreases s.len(),
{
    if s.len() > 0 && white_space(s.first()) {
        lemma_trimmed_start_clean(s.drop_first());
    }
}

proof fn lemma_trimmed_end_clean(s: Seq<char>)
    ensures
        trimmed_end(s).len() == 0 || !white_space(trimmed_end(s).last()),
        trimmed_end(s).len() <= s.len(),
        trimmed_end(s).len() > 0 ==> trimmed_end(s).first() == s.first(),
    decreases s.len(),
{
    if s.len() > 0 && white_space(s.last()) {
        lemma_trimmed_end_clean(s.drop_last());
    }
}

/// Trimmed text has no white space at either end, and trimming it again
/// changes nothing.
pub proof fn trimming_is_final(s: Seq<char>)
    ensures
        trimmed(s).len() > 0 ==> !white_space(trimmed(s).first()) && !white_space(
            trimmed(s).last(),
        ),
        trimmed(trimmed(s)) == trimmed(s),
{
    lemma_trimmed_start_clean(s);
    lemma_trimmed_end_clean(trimmed_start(s));
}

/// A number in decimal is a row of digits of that value.
pub(crate) proof fn lemma_decimal_digits(n: nat)
    ensures
        text::decimal(n).len() > 0,
        forall|i: int|
            0 <= i < text::decimal(n).len() ==> is_digit(
                #[trigger] text::decimal(n)[i],
            ),
        digits_value(text::decimal(n)) == n,
    decreases n,
{
    let d = text::decimal(n);
    if n < 10 {
        assert(d.drop_last() =~= Seq::<char>::empty());
        assert(digits_value(d.drop_last()) == 0);
    } else {
        lemma_decimal_digits(n / 10);
        assert(d.drop_last() =~= text::decimal(n / 10));
    }
}

/// A number in decimal is all digits: it holds no white space and none of the
/// signs of a list.
pub(crate) proof fn lemma_decimal_plain(n: nat)
    ensures
        trimmed(text::decimal(n)) == text::decimal(n),
        trimmed(seq![' '] + text::decimal(n)) == text::decimal(n),
        !text::decimal(n).contains(','),
        first_position(text::decimal(n), '-') == text::decimal(n).len(),
{
    let d = text::decimal(n);
    lemma_decimal_digits(n);
    assert(is_digit(d[0]));
    assert(is_digit(d[d.len() - 1]));
    let led = seq![' '] + d;
    assert(led.drop_first() =~= d);
    if d.contains(',') {
        let i = choose|i: int| 0 <= i < d.len() && d[i] == ',';
        assert(is_digit(d[i]));
    }
    lemma_absent(d, '-');
}

proof fn lemma_absent(s: Seq<char>, c: char)
    requires
        forall|i: int| 0 <= i < s.len() ==> is_digit(#[trigger] s[i]),
        !is_digit(c),
    ensures
        first_position(s, c) == s.len(),
    decreases s.len(),
{
    if s.len() > 0 {
        let rest = s.drop_first();
        assert forall|i: int| 0 <= i < rest.len() implies is_digit(#[trigger] rest[i]) by {
            assert(is_digit(s[i + 1]));
        }
        assert(is_digit(s[0]));
        lemma_absent(rest, c);
    }
}

/// What does not occur in `s` occurs first behind it.
pub(crate) proof fn lemma_first_behind(s: Seq<char>, rest: Seq<char>, c: char)
    requires
        first_position(s, c) == s.len(),
    ensures
        first_position(s + rest, c) == s.len() + first_position(rest, c),
    decreases s.len(),
{
    if s.len() == 0 {
        assert(s + rest =~= rest);
    } else {
        lemma_first_behind(s.drop_first(), rest, c);
        assert((s + rest).drop_first() =~= s.drop_first() + rest);
    }
}

/// A number written in decimal is read back, with a plus sign before it or
/// without.
pub proof fn decimal_is_read_back(n: usize)
    ensures
        number(text::decimal(n as nat)) == Some(n),
        number(seq!['+'] + text::decimal(n as nat)) == Some(n),
{
    let d = text::decimal(n as nat);
    lemma_decimal_digits(n as nat);
    assert(is_digit(d[0]));
    assert(unsigned_part(d) == d);
    let signed = seq!['+'] + d;
    assert(signed.drop_first() =~= d);
    assert(unsigned_part(signed) == d);
}

} // verus!
