//! Text for binary values and for sizes in bytes.

use vstd::prelude::*;
use crate::text::{dec_text, push_dec};

verus! {

pub const KIBI: u128 = 1024;

pub const MEBI: u128 = 1024 * 1024;

pub const GIBI: u128 = 1024 * 1024 * 1024;

pub const TEBI: u128 = 1024 * 1024 * 1024 * 1024;

pub const PEBI: u128 = 1024 * 1024 * 1024 * 1024 * 1024;

pub const EXBI: u128 = 1024 * 1024 * 1024 * 1024 * 1024 * 1024;

pub const ZEBI: u128 = 1024 * 1024 * 1024 * 1024 * 1024 * 1024 * 1024;

pub const YOBI: u128 = 1024 * 1024 * 1024 * 1024 * 1024 * 1024 * 1024 * 1024;

/// The eight binary digits of a byte, most significant first.
pub open spec fn bits_text(b: u8) -> Seq<char> {
    Seq::new(8, |i: int| if (b as nat / pow2_small((7 - i) as nat)) % 2 == 1 { '1' } else { '0' })
}

/// Two to the power `e`, for the exponents of one byte.
pub open spec fn pow2_small(e: nat) -> nat
    decreases e,
{
    if e == 0 {
        1
    } else {
        2 * pow2_small((e - 1) as nat)
    }
}

/// The binary text of the bytes from index `from` on, each led by `_`, with a
/// line break after every eighth byte.
pub open spec fn bin_tail(data: Seq<u8>, from: int) -> Seq<char>
    decreases data.len() - from,
{
    if from < 0 || from >= data.len() {
        Seq::empty()
    } else {
        seq!['_'] + bits_text(data[from]) + (if from % 8 == 0 {
            seq!['\n']
        } else {
            Seq::empty()
        }) + bin_tail(data, from + 1)
    }
}

/// The binary text of a byte string: `0b`, then the bytes in binary, joined by `_`.
pub open spec fn bin_text(data: Seq<u8>) -> Seq<char>
    recommends
        data.len() > 0,
{
    seq!['0', 'b'] + bits_text(data[0]) + bin_tail(data, 1)
}

/// Text for `data` bytes beside their number of bits.
pub open spec fn byte_bit_text(data: nat) -> Seq<char> {
    dec_text(data, 7) + seq![' ', 'B', ' ', '=', ' '] + dec_text(data * 8, 8) + seq![
        ' ',
        'b',
        'i',
        't',
    ]
}

/// The name of the `unit`-th binary unit of size.
pub open spec fn unit_name(unit: nat) -> Seq<char> {
    if unit == 0 {
        seq!['B']
    } else if unit == 1 {
        seq!['K', 'i', 'B']
    } else if unit == 2 {
        seq!['M', 'i', 'B']
    } else if unit == 3 {
        seq!['G', 'i', 'B']
    } else if unit == 4 {
        seq!['T', 'i', 'B']
    } else if unit == 5 {
        seq!['P', 'i', 'B']
    } else if unit == 6 {
        seq!['E', 'i', 'B']
    } else if unit == 7 {
        seq!['Z', 'i', 'B']
    } else {
        seq!['Y', 'i', 'B']
    }
}

/// The text of a size of `value` units of index `unit`: the value is scaled
/// down by 1024, rounding down, as long as it is 1024 or more and a larger
/// unit exists.
pub open spec fn scaled_text(value: nat, unit: nat) -> Seq<char>
    decreases value,
{
    if value < 1024 || unit >= 8 {
        dec_text(value, 1) + seq![' '] + unit_name(unit)
    } else {
        scaled_text(value / 1024, unit + 1)
    }
}

/// A size in bytes in the largest binary unit that leaves it at 1 or more.
pub open spec fn human_text(total: nat) -> Seq<char> {
    scaled_text(total, 0)
}

proof fn lemma_bit(b: u8, i: nat)
    requires
        i < 8,
    ensures
        ((b >> (i as u8)) & 1u8 == 1u8) == ((b as nat / pow2_small(i)) % 2 == 1),
{
    reveal_with_fuel(pow2_small, 9);
    let k = i as u8;
    assert(k < 8 ==> ((b >> k) & 1u8 == 1u8) == (((b as u32) / (1u32 << (k as u32))) % 2 == 1))
        by (bit_vector);
    assert(k < 8 ==> (1u32 << (k as u32)) == if k == 0 {
        1u32
    } else if k == 1 {
        2u32
    } else if k == 2 {
        4u32
    } else if k == 3 {
        8u32
    } else if k == 4 {
        16u32
    } else if k == 5 {
        32u32
    } else if k == 6 {
        64u32
    } else {
        128u32
    }) by (bit_vector);
}

/// Appends the eight binary digits of `b`.
fn push_bits(s: &mut String, b: u8)
    ensures
        final(s)@ == old(s)@ + bits_text(b),
{
    let mut i: u8 = 0;
    while i < 8
        invariant
            i <= 8,
            s@ == old(s)@ + bits_text(b).take(i as int),
        decreases 8 - i,
    {
        let shift: u8 = 7 - i;
        proof {
            lemma_bit(b, shift as nat);
        }
        if (b >> shift) & 1 == 1 {
            s.push('1');
        } else {
            s.push('0');
        }
        i += 1;
        proof {
            assert(s@ =~= old(s)@ + bits_text(b).take(i as int));
        }
    }
    proof {
        assert(bits_text(b).take(8) =~= bits_text(b));
    }
}

/// The binary representation of a byte string, most significant bit first:
/// `0b`, then eight digits per byte, the bytes joined by `_`, with a line
/// break after every eighth byte that follows the first.
pub fn bytes_to_bin(data: &[u8]) -> (s: String)
    requires
        data@.len() > 0,
    ensures
        s@ == bin_text(data@),
{
    let mut s = String::new();
    s.push('0');
    s.push('b');
    push_bits(&mut s, data[0]);
    let ghost head = s@;
    let mut i: usize = 1;
    while i < data.len()
        invariant
            1 <= i <= data@.len(),
            s@ + bin_tail(data@, i as int) == head + bin_tail(data@, 1),
        decreases data@.len() - i,
    {
        let ghost before = s@;
        s.push('_');
        push_bits(&mut s, data[i]);
        if i % 8 == 0 {
            s.push('\n');
        }
        proof {
            assert(s@ + bin_tail(data@, i + 1) =~= before + bin_tail(data@, i as int));
        }
        i += 1;
    }
    proof {
        assert(head =~= seq!['0', 'b'] + bits_text(data@[0]));
        assert(s@ + bin_tail(data@, i as int) =~= s@);
    }
    s
}

/// A number of bytes beside the number of bits it stands for, both zero-padded.
pub fn byte_bit_display(data: usize) -> (s: String)
    ensures
        s@ == byte_bit_text(data as nat),
{
    let mut s = String::new();
    push_dec(&mut s, data as u128, 7);
    s.push(' ');
    s.push('B');
    s.push(' ');
    s.push('=');
    s.push(' ');
    push_dec(&mut s, (data as u128) * 8, 8);
    s.push(' ');
    s.push('b');
    s.push('i');
    s.push('t');
    proof {
        assert(s@ =~= byte_bit_text(data as nat));
    }
    s
}

/// Appends the name of a binary unit.
fn push_unit_name(s: &mut String, unit: u8)
    ensures
        final(s)@ == old(s)@ + unit_name(unit as nat),
{
    if unit == 0 {
        s.push('B');
    } else {
        let c = if unit == 1 {
            'K'
        } else if unit == 2 {
            'M'
        } else if unit == 3 {
            'G'
        } else if unit == 4 {
            'T'
        } else if unit == 5 {
            'P'
        } else if unit == 6 {
            'E'
        } else if unit == 7 {
            'Z'
        } else {
            'Y'
        };
        s.push(c);
        s.push('i');
        s.push('B');
    }
    proof {
        assert(final(s)@ =~= old(s)@ + unit_name(unit as nat));
    }
}

/// A size in bytes for a reader: the number in the largest binary unit that
/// leaves it at 1 or more, rounded down, then the unit's name.
pub fn humanbytes(total: u128) -> (s: String)
    ensures
        s@ == human_text(total as nat),
{
    let mut value: u128 = total;
    let mut unit: u8 = 0;
    while value >= KIBI && unit < 8
        invariant
            unit <= 8,
            scaled_text(value as nat, unit as nat) == human_text(total as nat),
        decreases value,
    {
        value = value / KIBI;
        unit += 1;
    }
    let mut s = String::new();
    push_dec(&mut s, value, 1);
    s.push(' ');
    push_unit_name(&mut s, unit);
    proof {
        assert(s@ =~= scaled_text(value as nat, unit as nat));
    }
    s
}

} // verus!
