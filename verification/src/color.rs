//! Theme colours written as PDF fill colours.

use vstd::prelude::*;
use vstd::utf8::{encode_utf8, is_char_boundary};

use crate::text::{chars_of, string_from_chars, decimal, decimal_chars, padded_decimal, zero_padded};

verus! {

/// `s` without the `#` characters that start it.
pub open spec fn trim_hashes(s: Seq<char>) -> Seq<char>
    decreases s.len(),
{
    if s.len() > 0 && s[0] == '#' {
        trim_hashes(s.drop_first())
    } else {
        s
    }
}

/// The value of an ASCII hexadecimal digit.
pub open spec fn hex_value(b: u8) -> Option<u8> {
    if 48 <= b <= 57 {
        Some((b - 48) as u8)
    } else if 97 <= b <= 102 {
        Some((b - 87) as u8)
    } else if 65 <= b <= 70 {
        Some((b - 55) as u8)
    } else {
        None
    }
}

/// A colour channel read from two bytes as `u8::from_str_radix(.., 16)`
/// reads them (a leading `+` is allowed), or 0 where they do not parse.
pub open spec fn channel_of(b0: u8, b1: u8) -> u8 {
    if b0 == 43 {
        match hex_value(b1) {
            Some(v) => v,
            None => 0,
        }
    } else {
        match (hex_value(b0), hex_value(b1)) {
            (Some(h), Some(l)) => (16 * h + l) as u8,
            _ => 0,
        }
    }
}

/// The UTF-8 bytes of a colour once its leading `#` are gone.
pub open spec fn color_bytes(hex: Seq<char>) -> Seq<u8> {
    encode_utf8(trim_hashes(hex))
}

/// Whether the two-byte slices of a six-byte colour fall on character
/// boundaries (where they do not, slicing the text would panic).
pub open spec fn color_slices_whole(hex: Seq<char>) -> bool {
    let b = color_bytes(hex);
    b.len() == 6 ==> is_char_boundary(b, 2) && is_char_boundary(b, 4)
}

/// The channels of a `#rrggbb` colour; a colour that is not six bytes
/// long after its leading `#` is black, and a pair that does not parse
/// gives 0.
pub open spec fn color_of(hex: Seq<char>) -> (u8, u8, u8) {
    let b = color_bytes(hex);
    if b.len() != 6 {
        (0, 0, 0)
    } else {
        (channel_of(b[0], b[1]), channel_of(b[2], b[3]), channel_of(b[4], b[5]))
    }
}

fn hex_digit(b: u8) -> (r: Option<u8>)
    ensures
        r == hex_value(b),
{
    if 48 <= b && b <= 57 {
        Some(b - 48)
    } else if 97 <= b && b <= 102 {
        Some(b - 87)
    } else if 65 <= b && b <= 70 {
        Some(b - 55)
    } else {
        None
    }
}

fn channel(b0: u8, b1: u8) -> (c: u8)
    ensures
        c == channel_of(b0, b1),
{
    if b0 == 43 {
        match hex_digit(b1) {
            Some(v) => v,
            None => 0,
        }
    } else {
        match (hex_digit(b0), hex_digit(b1)) {
            (Some(h), Some(l)) => 16 * h + l,
            _ => 0,
        }
    }
}

proof fn lemma_trim_hashes(s: Seq<char>, k: int)
    requires
        0 <= k <= s.len(),
        forall|j: int| 0 <= j < k ==> s[j] == '#',
        k == s.len() || s[k] != '#',
    ensures
        trim_hashes(s) == s.skip(k),
    decreases k,
{
    if k == 0 {
        assert(s.skip(0) =~= s);
    } else {
        lemma_trim_hashes(s.drop_first(), k - 1);
        assert(s.drop_first().skip(k - 1) =~= s.skip(k));
    }
}

/// Whether a colour's two-byte slices fall on character boundaries, so
/// that `rgb` can read it.
pub fn color_readable(hex: &str) -> (r: bool)
    ensures
        r == color_slices_whole(hex@),
{
    let cs = chars_of(hex);
    let mut k: usize = 0;
    while k < cs.len() && cs[k] == '#'
        invariant
            cs@ == hex@,
            k <= cs.len(),
            forall|j: int| 0 <= j < k ==> hex@[j] == '#',
        decreases cs.len() - k,
    {
        k = k + 1;
    }
    proof {
        lemma_trim_hashes(hex@, k as int);
    }
    let value = hex.substring_char(k, cs.len());
    assert(value@ =~= trim_hashes(hex@));
    let b = value.as_bytes();
    if b.len() != 6 {
        return true;
    }
    value.is_char_boundary(2) && value.is_char_boundary(4)
}

/// The channels of a theme colour written `#rrggbb`.
pub fn rgb(hex: &str) -> (c: (u8, u8, u8))
    requires
        color_slices_whole(hex@),
    ensures
        c == color_of(hex@),
{
    let cs = chars_of(hex);
    let mut k: usize = 0;
    while k < cs.len() && cs[k] == '#'
        invariant
            cs@ == hex@,
            k <= cs.len(),
            forall|j: int| 0 <= j < k ==> hex@[j] == '#',
        decreases cs.len() - k,
    {
        k = k + 1;
    }
    proof {
        lemma_trim_hashes(hex@, k as int);
    }
    let value = hex.substring_char(k, cs.len());
    assert(value@ =~= trim_hashes(hex@));
    if value.len() != 6 {
        return (0, 0, 0);
    }
    let b = value.as_bytes();
    (channel(b[0], b[1]), channel(b[2], b[3]), channel(b[4], b[5]))
}

/// A channel's share of full intensity in thousandths, rounded to the
/// nearest (`c / 255` is never half-way between two thousandths).
pub open spec fn thousandths(c: u8) -> nat {
    ((2000 * c + 255) / 510) as nat
}

/// A channel written as its share of full intensity with three decimals,
/// as `format!("{:.3}", c as f32 / 255.0)` writes it.
pub open spec fn channel_text(c: u8) -> Seq<char> {
    let t = thousandths(c);
    decimal_chars(t / 1000) + "."@ + zero_padded(decimal_chars(t % 1000), 3)
}

/// A colour written as the three numbers of a PDF `rg` operator.
pub open spec fn color_text(c: (u8, u8, u8)) -> Seq<char> {
    channel_text(c.0) + " "@ + channel_text(c.1) + " "@ + channel_text(c.2)
}

fn write_channel(out: &mut String, c: u8)
    ensures
        final(out)@ == old(out)@ + channel_text(c),
{
    let t: u64 = (2000 * (c as u64) + 255) / 510;
    assert(t <= 1000);
    let whole = decimal(t / 1000);
    out.append(whole.as_str());
    out.append(".");
    let frac = padded_decimal(t % 1000, 3);
    out.append(frac.as_str());
}

/// The three channels of a colour, as a PDF `rg` operator takes them.
pub fn color_operands(c: (u8, u8, u8)) -> (s: String)
    ensures
        s@ == color_text(c),
{
    let mut s = String::new();
    write_channel(&mut s, c.0);
    s.append(" ");
    write_channel(&mut s, c.1);
    s.append(" ");
    write_channel(&mut s, c.2);
    assert(s@ =~= color_text(c));
    s
}


/// `s` without the `#` characters that start it (`trim_start_matches('#')`).
pub fn trim_leading_hashes(s: &str) -> (r: String)
    ensures
        r@ == trim_hashes(s@),
{
    let cs = chars_of(s);
    let mut k: usize = 0;
    while k < cs.len() && cs[k] == '#'
        invariant
            cs@ == s@,
            k <= cs.len(),
            forall|j: int| 0 <= j < k ==> s@[j] == '#',
        decreases cs.len() - k,
    {
        k = k + 1;
    }
    proof {
        lemma_trim_hashes(s@, k as int);
    }
    let r = string_from_chars(&cs, k, cs.len());
    assert(r@ =~= trim_hashes(s@));
    r
}

} // verus!
