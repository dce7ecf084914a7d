//! The line renderer: the text of each kind of line of a dump.

use vstd::prelude::*;
use vstd::string::StringExecFns;
use crate::display::{human_text, humanbytes};
use crate::text::{
    blanks, dec_text, hex_digit, hex_digit_spec, hex_text, pad_right, push_dec, push_hex,
    push_padded, push_repeated, repeated,
};

verus! {

/// Horizontal rule of the frame.
pub const LINE_SEP_HORIZ: char = '─';

/// Vertical rule between the columns.
pub const LINE_SEP_VERT: char = '│';

/// Border of the character column.
pub const CHAR_BORDER: char = '|';

/// Width of the hex column: sixteen cells of three characters and the gap
/// between the two halves.
pub const HEX_COLUMN_WIDTH: usize = 49;

/// The glyph that stands for a character in the character column: printable
/// ASCII but the blank stands for itself, line feed, blank and tab each have
/// a visible glyph, and every other character is replaced.
pub open spec fn mask_spec(c: char) -> char {
    if '!' <= c <= '~' {
        c
    } else if c == '\n' {
        '↩'
    } else if c == ' ' {
        '␣'
    } else if c == '\t' {
        '⭾'
    } else {
        '\u{fffd}'
    }
}

/// The character shown for `c` in the character column.
pub fn mask_chars(c: char) -> (m: char)
    ensures
        m == mask_spec(c),
{
    if '!' <= c && c <= '~' {
        c
    } else if c == '\n' {
        '↩'
    } else if c == ' ' {
        '␣'
    } else if c == '\t' {
        '⭾'
    } else {
        '\u{fffd}'
    }
}

/// The two hex digits of a byte.
pub open spec fn hex_pair(b: u8) -> Seq<char> {
    seq![hex_digit_spec(b as nat / 16), hex_digit_spec(b as nat % 16)]
}

/// Cell `i` of the hex column: the byte's two digits and a blank, or three
/// blanks where the line has no byte; the ninth cell is led by one more blank.
pub open spec fn hex_cell(bytes: Seq<u8>, i: int) -> Seq<char> {
    let gap = if i == 8 {
        seq![' ']
    } else {
        Seq::<char>::empty()
    };
    if 0 <= i < bytes.len() {
        gap + hex_pair(bytes[i]) + seq![' ']
    } else {
        gap + seq![' ', ' ', ' ']
    }
}

/// The cells of the hex column from cell `i` on.
pub open spec fn hex_cells_from(bytes: Seq<u8>, i: int) -> Seq<char>
    decreases 16 - i,
{
    if i >= 16 {
        Seq::empty()
    } else {
        hex_cell(bytes, i) + hex_cells_from(bytes, i + 1)
    }
}

/// The hex column of a line that holds `bytes`.
pub open spec fn hex_column(bytes: Seq<u8>) -> Seq<char> {
    hex_cells_from(bytes, 0)
}

/// The glyphs of the bytes of a line.
pub open spec fn masked(bytes: Seq<u8>) -> Seq<char> {
    Seq::new(bytes.len(), |i: int| mask_spec(bytes[i] as char))
}

/// The character column: the glyphs between two borders, or eight blanks for
/// a line without bytes.
pub open spec fn char_column(bytes: Seq<u8>) -> Seq<char> {
    if bytes.len() == 0 {
        blanks(8)
    } else {
        seq!['|'] + masked(bytes) + seq!['|']
    }
}

/// What stands between the offset column and the hex column.
pub open spec fn column_break() -> Seq<char> {
    seq![' ', '│', ' ']
}

/// What closes the hex column where a character column follows.
pub open spec fn column_end(chars: bool) -> Seq<char> {
    if chars {
        seq!['│']
    } else {
        Seq::empty()
    }
}

/// A data line: the offset, the hex column and, if asked for, the character column.
pub open spec fn data_line(offset: nat, bytes: Seq<u8>, chars: bool) -> Seq<char> {
    hex_text(offset, 8) + column_break() + hex_column(bytes) + if chars {
        seq!['│', ' '] + char_column(bytes)
    } else {
        Seq::empty()
    }
}

/// The message of a summary line.
pub open spec fn repeat_note(count: nat) -> Seq<char> {
    "(repeats "@ + dec_text(count, 1) + " lines)"@
}

/// The line that stands for `count` identical lines.
pub open spec fn summary_line(count: nat, chars: bool) -> Seq<char> {
    repeated('^', 8) + column_break() + pad_right(repeat_note(count), 49) + column_end(chars)
}

/// The message of the footer.
pub open spec fn total_note(total: nat) -> Seq<char> {
    "read total: "@ + human_text(total) + " ("@ + dec_text(total, 1) + " B)"@
}

/// The footer: the number of bytes read, as offset, scaled and plain.
pub open spec fn footer_line(total: nat, chars: bool) -> Seq<char> {
    hex_text(total, 8) + column_break() + pad_right(total_note(total), 49) + column_end(chars)
}

/// The titles of the columns.
pub open spec fn header_line(chars: bool) -> Seq<char> {
    "DATA IDX"@ + column_break() + "DATA AS HEX"@ + if chars {
        blanks(38) + seq!['│', ' '] + "DATA AS CHAR"@
    } else {
        Seq::empty()
    }
}

/// The rule under the header and above the footer.
pub open spec fn rule_line(chars: bool) -> Seq<char> {
    repeated('─', if chars { 80 } else { 59 })
}

fn push_column_break(s: &mut String)
    ensures
        final(s)@ == old(s)@ + column_break(),
{
    s.push(' ');
    s.push(LINE_SEP_VERT);
    s.push(' ');
    proof {
        assert(final(s)@ =~= old(s)@ + column_break());
    }
}

fn push_column_end(s: &mut String, chars: bool)
    ensures
        final(s)@ == old(s)@ + column_end(chars),
{
    if chars {
        s.push(LINE_SEP_VERT);
    }
    proof {
        assert(final(s)@ =~= old(s)@ + column_end(chars));
    }
}

/// Appends the hex column of the first `len` bytes of `line`.
fn push_hex_column(s: &mut String, line: &[u8; 16], len: usize)
    requires
        len <= 16,
    ensures
        final(s)@ == old(s)@ + hex_column(line@.take(len as int)),
{
    let ghost bytes = line@.take(len as int);
    let mut i: usize = 0;
    while i < 16
        invariant
            i <= 16,
            len <= 16,
            bytes == line@.take(len as int),
            s@ + hex_cells_from(bytes, i as int) == old(s)@ + hex_column(bytes),
        decreases 16 - i,
    {
        let ghost before = s@;
        if i == 8 {
            s.push(' ');
        }
        if i < len {
            let b = line[i];
            s.push(hex_digit(b / 16));
            s.push(hex_digit(b % 16));
            s.push(' ');
        } else {
            s.push(' ');
            s.push(' ');
            s.push(' ');
        }
        proof {
            assert(s@ =~= before + hex_cell(bytes, i as int));
            assert(s@ + hex_cells_from(bytes, i + 1) =~= before + hex_cells_from(bytes, i as int));
        }
        i += 1;
    }
    proof {
        assert(s@ + hex_cells_from(bytes, 16) =~= s@);
    }
}

/// Appends the character column of the first `len` bytes of `line`.
fn push_char_column(s: &mut String, line: &[u8; 16], len: usize)
    requires
        len <= 16,
    ensures
        final(s)@ == old(s)@ + char_column(line@.take(len as int)),
{
    let ghost bytes = line@.take(len as int);
    if len == 0 {
        push_repeated(s, ' ', 8);
    } else {
        s.push(CHAR_BORDER);
        let mut i: usize = 0;
        while i < len
            invariant
                i <= len <= 16,
                bytes == line@.take(len as int),
                s@ == old(s)@ + seq!['|'] + masked(bytes).take(i as int),
            decreases len - i,
        {
            s.push(mask_chars(line[i] as char));
            i += 1;
            proof {
                assert(s@ =~= old(s)@ + seq!['|'] + masked(bytes).take(i as int));
            }
        }
        s.push(CHAR_BORDER);
        proof {
            assert(masked(bytes).take(len as int) =~= masked(bytes));
            assert(s@ =~= old(s)@ + char_column(bytes));
        }
    }
}

/// The text of a data line for the first `len` bytes of `line`, which start
/// at `offset` in the stream.
pub fn render_data_line(offset: u64, line: &[u8; 16], len: usize, chars: bool) -> (s: String)
    requires
        len <= 16,
    ensures
        s@ == data_line(offset as nat, line@.take(len as int), chars),
{
    let mut s = String::new();
    push_hex(&mut s, offset, 8);
    push_column_break(&mut s);
    push_hex_column(&mut s, line, len);
    if chars {
        s.push(LINE_SEP_VERT);
        s.push(' ');
        push_char_column(&mut s, line, len);
    }
    proof {
        assert(s@ =~= data_line(offset as nat, line@.take(len as int), chars));
    }
    s
}

/// The text of the line that stands for `count` identical lines.
pub fn render_summary_line(count: u64, chars: bool) -> (s: String)
    ensures
        s@ == summary_line(count as nat, chars),
{
    let mut note = String::from_str("(repeats ");
    push_dec(&mut note, count as u128, 1);
    note.append(" lines)");
    let mut s = String::new();
    push_repeated(&mut s, '^', 8);
    push_column_break(&mut s);
    push_padded(&mut s, note.as_str(), HEX_COLUMN_WIDTH);
    push_column_end(&mut s, chars);
    proof {
        assert(s@ =~= summary_line(count as nat, chars));
    }
    s
}

/// The text of the footer for `total` bytes read.
pub fn render_footer_line(total: u64, chars: bool) -> (s: String)
    ensures
        s@ == footer_line(total as nat, chars),
{
    let mut note = String::from_str("read total: ");
    let human = humanbytes(total as u128);
    note.append(human.as_str());
    note.append(" (");
    push_dec(&mut note, total as u128, 1);
    note.append(" B)");
    let mut s = String::new();
    push_hex(&mut s, total, 8);
    push_column_break(&mut s);
    push_padded(&mut s, note.as_str(), HEX_COLUMN_WIDTH);
    push_column_end(&mut s, chars);
    proof {
        assert(s@ =~= footer_line(total as nat, chars));
    }
    s
}

/// The text of the header.
pub fn render_header_line(chars: bool) -> (s: String)
    ensures
        s@ == header_line(chars),
{
    let mut s = String::from_str("DATA IDX");
    push_column_break(&mut s);
    s.append("DATA AS HEX");
    if chars {
        push_repeated(&mut s, ' ', 38);
        s.push(LINE_SEP_VERT);
        s.push(' ');
        s.append("DATA AS CHAR");
    }
    proof {
        assert(s@ =~= header_line(chars));
    }
    s
}

/// The text of the rule under the header and above the footer.
pub fn render_rule_line(chars: bool) -> (s: String)
    ensures
        s@ == rule_line(chars),
{
    let mut s = String::new();
    if chars {
        push_repeated(&mut s, LINE_SEP_HORIZ, 80);
    } else {
        push_repeated(&mut s, LINE_SEP_HORIZ, 59);
    }
    s
}

} // verus!
