//! Building text: characters, decimal numbers, alignment and joining.

use vstd::prelude::*;

verus! {

/// `String::push` appends the given character to the end of the string.
pub assume_specification[ String::push ](s: &mut String, c: char)
    ensures
        final(s)@ == old(s)@.push(c),
;

/// The decimal digit of value `d`, for `d` in `0..=9`.
pub open spec fn digit_char(d: nat) -> char {
    ('0' as nat + d) as char
}

/// `n` written in decimal, without leading zeros.
pub open spec fn decimal(n: nat) -> Seq<char>
    decreases n,
{
    if n < 10 {
        seq![digit_char(n)]
    } else {
        decimal(n / 10).push(digit_char(n % 10))
    }
}

/// `n` blanks.
pub open spec fn blanks(n: nat) -> Seq<char> {
    Seq::new(n, |i: int| ' ')
}

/// How many characters `s` is short of `width`.
pub open spec fn shortfall(s: Seq<char>, width: nat) -> nat {
    if s.len() < width {
        (width - s.len()) as nat
    } else {
        0
    }
}

/// `s` against the right edge of a field of `width` characters.
pub open spec fn right_aligned(s: Seq<char>, width: nat) -> Seq<char> {
    blanks(shortfall(s, width)) + s
}

/// `s` in the middle of a field of `width` characters; an odd blank goes to
/// the right.
pub open spec fn centred(s: Seq<char>, width: nat) -> Seq<char> {
    let gap = shortfall(s, width);
    blanks(gap / 2) + s + blanks((gap - gap / 2) as nat)
}

/// The parts in order, with `sep` between neighbours.
pub open spec fn joined(parts: Seq<Seq<char>>, sep: Seq<char>) -> Seq<char>
    decreases parts.len(),
{
    if parts.len() == 0 {
        seq![]
    } else if parts.len() == 1 {
        parts[0]
    } else {
        joined(parts.drop_last(), sep) + sep + parts.last()
    }
}

/// The characters of each string.
pub open spec fn views(strings: Seq<String>) -> Seq<Seq<char>> {
    strings.map_values(|s: String| s@)
}

/// `""` for one, `"s"` for any other number.
pub open spec fn plural_suffix(n: nat) -> Seq<char> {
    if n == 1 {
        ""@
    } else {
        "s"@
    }
}

/// The characters of `s`, in order.
pub fn to_chars(s: &str) -> (chars: Vec<char>)
    ensures
        chars@ == s@,
{
    let mut chars: Vec<char> = Vec::new();
    for c in it: s.chars()
        invariant
            it.seq() == s@,
            chars@ == s@.take(it.index()),
    {
        chars.push(c);
        assert(chars@ =~= s@.take(it.index() + 1));
    }
    assert(s@.take(s@.len() as int) =~= s@);
    chars
}

/// The string made of the given characters.
pub fn from_chars(chars: &[char]) -> (s: String)
    ensures
        s@ == chars@,
{
    let mut s = String::new();
    for i in 0..chars.len()
        invariant
            s@ == chars@.take(i as int),
    {
        s.push(chars[i]);
        assert(s@ =~= chars@.take(i + 1));
    }
    assert(chars@.take(chars@.len() as int) =~= chars@);
    s
}

/// The decimal digit of value `d`.
pub fn digit(d: u128) -> (c: char)
    requires
        d < 10,
    ensures
        c == digit_char(d as nat),
{
    (48u8 + d as u8) as char
}

/// Writes `n` in decimal.
pub fn to_decimal(n: u128) -> (s: String)
    ensures
        s@ == decimal(n as nat),
    decreases n,
{
    if n < 10 {
        let mut s = String::new();
        s.push(digit(n));
        assert(s@ =~= decimal(n as nat));
        s
    } else {
        let mut s = to_decimal(n / 10);
        s.push(digit(n % 10));
        s
    }
}

/// Appends `n` blanks to `s`.
fn push_blanks(s: &mut String, n: usize)
    ensures
        final(s)@ == old(s)@ + blanks(n as nat),
{
    let ghost start = s@;
    for i in 0..n
        invariant
            s@ == start + blanks(i as nat),
    {
        s.push(' ');
        assert(s@ =~= start + blanks((i + 1) as nat));
    }
}

/// Places `s` against the right edge of a field of `width` characters. Longer
/// text is kept whole.
pub fn align_right(s: &str, width: usize) -> (r: String)
    ensures
        r@ == right_aligned(s@, width as nat),
{
    let len: usize = s.unicode_len();
    let gap: usize = if len < width { width - len } else { 0 };
    let mut r = String::new();
    push_blanks(&mut r, gap);
    r.append(s);
    assert(r@ =~= right_aligned(s@, width as nat));
    r
}

/// Places `s` in the middle of a field of `width` characters; an odd blank
/// goes to the right. Longer text is kept whole.
pub fn centre(s: &str, width: usize) -> (r: String)
    ensures
        r@ == centred(s@, width as nat),
{
    let len: usize = s.unicode_len();
    let gap: usize = if len < width { width - len } else { 0 };
    let mut r = String::new();
    push_blanks(&mut r, gap / 2);
    r.append(s);
    push_blanks(&mut r, gap - gap / 2);
    assert(r@ =~= centred(s@, width as nat));
    r
}

/// Joins the parts, with `sep` between neighbours.
pub fn join(parts: &[String], sep: &str) -> (r: String)
    ensures
        r@ == joined(views(parts@), sep@),
{
    let mut r = String::new();
    assert(views(parts@).take(0) =~= Seq::<Seq<char>>::empty());
    for i in 0..parts.len()
        invariant
            r@ == joined(views(parts@).take(i as int), sep@),
    {
        let ghost upto = views(parts@).take(i + 1);
        assert(upto.drop_last() =~= views(parts@).take(i as int));
        assert(upto.last() == parts@[i as int]@);
        if i > 0 {
            r.append(sep);
        }
        r.append(parts[i].as_str());
        assert(r@ =~= joined(upto, sep@));
    }
    assert(views(parts@).take(parts@.len() as int) =~= views(parts@));
    r
}

/// The ending of a noun that is counted `n` times.
pub fn plural(n: usize) -> (s: &'static str)
    ensures
        s@ == plural_suffix(n as nat),
{
    if n == 1 {
        ""
    } else {
        "s"
    }
}

/// Aligned text fills its field exactly, if it fits in it.
pub proof fn alignment_fills_the_field(s: Seq<char>, width: nat)
    ensures
        s.len() <= width ==> right_aligned(s, width).len() == width && centred(s, width).len()
            == width,
        s.len() > width ==> right_aligned(s, width) == s && centred(s, width) == s,
{
    if s.len() > width {
        assert(right_aligned(s, width) =~= s);
        assert(centred(s, width) =~= s);
    }
}

} // verus!
