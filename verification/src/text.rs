//! Building text: digits, padding and appending to a `String`.

use vstd::prelude::*;
use vstd::string::{StrSliceExecFns, StringExecFns};

verus! {

/// `String::push` appends the given character to the end of the string.
pub assume_specification[ String::push ](s: &mut String, c: char)
    ensures
        final(s)@ == old(s)@.push(c),
;

/// The upper-case hexadecimal digit for a value below 16.
pub open spec fn hex_digit_spec(v: nat) -> char
    recommends
        v < 16,
{
    if v < 10 {
        ((0x30 + v) as u8) as char
    } else {
        ((0x41 + v - 10) as u8) as char
    }
}

/// The value of an upper-case hexadecimal digit, if the character is one.
pub open spec fn hex_value_spec(c: char) -> Option<nat> {
    if '0' <= c <= '9' {
        Some((c as u32 - 0x30) as nat)
    } else if 'A' <= c <= 'F' {
        Some((c as u32 - 0x41 + 10) as nat)
    } else {
        None
    }
}

/// The decimal digit for a value below 10.
pub open spec fn dec_digit_spec(v: nat) -> char
    recommends
        v < 10,
{
    ((0x30 + v) as u8) as char
}

/// `v` in upper-case hexadecimal, with leading zeros up to `width` digits.
pub open spec fn hex_text(v: nat, width: nat) -> Seq<char>
    decreases v, width,
{
    if v < 16 && width <= 1 {
        seq![hex_digit_spec(v)]
    } else {
        hex_text(v / 16, if width >= 1 { (width - 1) as nat } else { 0 }).push(
            hex_digit_spec(v % 16),
        )
    }
}

/// `v` in decimal, with leading zeros up to `width` digits.
pub open spec fn dec_text(v: nat, width: nat) -> Seq<char>
    decreases v, width,
{
    if v < 10 && width <= 1 {
        seq![dec_digit_spec(v)]
    } else {
        dec_text(v / 10, if width >= 1 { (width - 1) as nat } else { 0 }).push(
            dec_digit_spec(v % 10),
        )
    }
}

/// The character `c`, `n` times.
pub open spec fn repeated(c: char, n: nat) -> Seq<char> {
    Seq::new(n, |i: int| c)
}

/// `n` blanks.
pub open spec fn blanks(n: nat) -> Seq<char> {
    repeated(' ', n)
}

/// `text` followed by blanks up to `width` characters; longer text is kept whole.
pub open spec fn pad_right(text: Seq<char>, width: nat) -> Seq<char> {
    if text.len() >= width {
        text
    } else {
        text + blanks((width - text.len()) as nat)
    }
}

pub fn hex_digit(v: u8) -> (c: char)
    requires
        v < 16,
    ensures
        c == hex_digit_spec(v as nat),
        hex_value_spec(c) == Some(v as nat),
{
    if v < 10 {
        (0x30 + v) as char
    } else {
        (0x41 + (v - 10)) as char
    }
}

pub fn dec_digit(v: u8) -> (c: char)
    requires
        v < 10,
    ensures
        c == dec_digit_spec(v as nat),
{
    (0x30 + v) as char
}

/// Appends `v` in upper-case hexadecimal, zero-padded to `width` digits.
pub fn push_hex(s: &mut String, v: u64, width: usize)
    ensures
        final(s)@ == old(s)@ + hex_text(v as nat, width as nat),
    decreases v, width,
{
    if v < 16 && width <= 1 {
        s.push(hex_digit(v as u8));
    } else {
        let rest: usize = if width >= 1 { width - 1 } else { 0 };
        push_hex(s, v / 16, rest);
        s.push(hex_digit((v % 16) as u8));
    }
    proof {
        assert(final(s)@ =~= old(s)@ + hex_text(v as nat, width as nat));
    }
}

/// Appends `v` in decimal, zero-padded to `width` digits.
pub fn push_dec(s: &mut String, v: u128, width: usize)
    ensures
        final(s)@ == old(s)@ + dec_text(v as nat, width as nat),
    decreases v, width,
{
    if v < 10 && width <= 1 {
        s.push(dec_digit(v as u8));
    } else {
        let rest: usize = if width >= 1 { width - 1 } else { 0 };
        push_dec(s, v / 10, rest);
        s.push(dec_digit((v % 10) as u8));
    }
    proof {
        assert(final(s)@ =~= old(s)@ + dec_text(v as nat, width as nat));
    }
}

/// Appends the character `c`, `n` times.
pub fn push_repeated(s: &mut String, c: char, n: usize)
    ensures
        final(s)@ == old(s)@ + repeated(c, n as nat),
{
    let mut i: usize = 0;
    while i < n
        invariant
            i <= n,
            s@ == old(s)@ + repeated(c, i as nat),
        decreases n - i,
    {
        s.push(c);
        i += 1;
        proof {
            assert(s@ =~= old(s)@ + repeated(c, i as nat));
        }
    }
}

/// Appends `text`, then blanks up to `width` characters in all.
pub fn push_padded(s: &mut String, text: &str, width: usize)
    ensures
        final(s)@ == old(s)@ + pad_right(text@, width as nat),
{
    let n = text.unicode_len();
    s.append(text);
    if n < width {
        push_repeated(s, ' ', width - n);
    }
    proof {
        assert(final(s)@ =~= old(s)@ + pad_right(text@, width as nat));
    }
}

} // verus!
