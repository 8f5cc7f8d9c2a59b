//! Small verified helpers for building text: decimal rendering of integers
//! and appending characters to a `String`.
use vstd::prelude::*;

verus! {

/// The ASCII digit for a value below ten.
pub open spec fn digit_char(d: nat) -> char
    recommends
        d < 10,
{
    ((d + 48) as u8) as char
}

/// The decimal representation of a natural number, most significant digit
/// first, without leading zeros (zero itself is "0").
pub open spec fn nat_to_decimal(n: nat) -> Seq<char>
    decreases n,
{
    if n < 10 {
        seq![digit_char(n)]
    } else {
        nat_to_decimal(n / 10).push(digit_char(n % 10))
    }
}

/// The decimal representation of an integer, with a leading '-' when negative.
pub open spec fn int_to_decimal(i: int) -> Seq<char> {
    if i < 0 {
        seq!['-'] + nat_to_decimal((-i) as nat)
    } else {
        nat_to_decimal(i as nat)
    }
}

/// Appends one character to a string (std's `String::push`).
#[verifier::external_body]
pub(crate) fn push_char(s: &mut String, c: char)
    ensures
        final(s)@ == old(s)@.push(c),
{
    s.push(c);
}

fn digit_of(d: u8) -> (c: char)
    requires
        d < 10,
    ensures
        c == digit_char(d as nat),
{
    let c: char = match d {
        0 => '0',
        1 => '1',
        2 => '2',
        3 => '3',
        4 => '4',
        5 => '5',
        6 => '6',
        7 => '7',
        8 => '8',
        _ => '9',
    };
    c
}

/// Appends the decimal representation of `n` to `s`.
pub fn append_usize(s: &mut String, n: usize)
    ensures
        final(s)@ == old(s)@ + nat_to_decimal(n as nat),
    decreases n,
{
    if n >= 10 {
        append_usize(s, n / 10);
    }
    let d: u8 = (n % 10) as u8;
    push_char(s, digit_of(d));
    assert(s@ =~= old(s)@ + nat_to_decimal(n as nat));
}

/// Appends the decimal representation of `i` to `s` (with '-' when negative).
pub fn append_isize(s: &mut String, i: isize)
    ensures
        final(s)@ == old(s)@ + int_to_decimal(i as int),
{
    if i < 0 {
        push_char(s, '-');
        let magnitude: usize = if i == isize::MIN {
            (isize::MAX as usize) + 1
        } else {
            (-i) as usize
        };
        append_usize(s, magnitude);
        assert(s@ =~= old(s)@ + int_to_decimal(i as int));
    } else {
        append_usize(s, i as usize);
    }
}

/// The characters of a string, in order.
pub(crate) fn collect_chars(s: &str) -> (v: Vec<char>)
    ensures
        v@ == s@,
{
    let mut v: Vec<char> = Vec::new();
    for c in it: s.chars()
        invariant
            v@ == it.seq().take(it.index() as int),
    {
        v.push(c);
    }
    assert(v@ =~= s@);
    v
}

/// Appends the characters of `t` to `s`.
pub fn append_str(s: &mut String, t: &str)
    ensures
        final(s)@ == old(s)@ + t@,
{
    let chars = collect_chars(t);
    let mut i: usize = 0;
    while i < chars.len()
        invariant
            i <= chars@.len(),
            chars@ == t@,
            s@ == old(s)@ + chars@.take(i as int),
        decreases chars@.len() - i,
    {
        push_char(s, chars[i]);
        proof {
            assert(chars@.take(i + 1) =~= chars@.take(i as int).push(chars@[i as int]));
        }
        i = i + 1;
    }
    assert(chars@.take(chars@.len() as int) =~= chars@);
}

/// The decimal representation of `n` as a new string.
pub fn usize_to_string(n: usize) -> (r: String)
    ensures
        r@ == nat_to_decimal(n as nat),
{
    let mut s = String::new();
    append_usize(&mut s, n);
    assert(s@ =~= nat_to_decimal(n as nat));
    s
}

} // verus!
