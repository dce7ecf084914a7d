//! Laws of the dump: what holds of the records and of the text of every
//! dump, proved from the model.

use vstd::prelude::*;
use crate::model::{
    closing, has_tail, line_at, line_count, lines_of, piece, records, records_upto, repeats,
    run_before, shown_len, Record,
};
use crate::render::{
    char_column, data_line, hex_cells_from, hex_column, hex_pair, repeat_note, summary_line,
};
use crate::source::skipped;
use crate::text::{dec_text, hex_text, hex_value_spec};

verus! {

/// Number of bytes of the stream that a record accounts for: the bytes of a
/// data line, and sixteen for every line that a summary stands for beyond
/// the first line of its run, which has a data line of its own.
pub open spec fn covered(r: Record) -> nat {
    match r {
        Record::Data { offset, bytes } => bytes.len(),
        Record::Repeat { count } => if count >= 1 {
            (16 * (count - 1)) as nat
        } else {
            0
        },
    }
}

/// Number of bytes of the stream that a sequence of records accounts for.
pub open spec fn covered_sum(rs: Seq<Record>) -> nat
    decreases rs.len(),
{
    if rs.len() == 0 {
        0
    } else {
        covered_sum(rs.drop_last()) + covered(rs.last())
    }
}

/// Number of bytes in the data lines of a sequence of records.
pub open spec fn data_bytes(rs: Seq<Record>) -> nat
    decreases rs.len(),
{
    if rs.len() == 0 {
        0
    } else {
        data_bytes(rs.drop_last()) + match rs.last() {
            Record::Data { offset, bytes } => bytes.len(),
            Record::Repeat { count } => 0,
        }
    }
}

proof fn lemma_covered_sum_push(rs: Seq<Record>, r: Record)
    ensures
        covered_sum(rs.push(r)) == covered_sum(rs) + covered(r),
{
    assert(rs.push(r).drop_last() =~= rs);
}

proof fn lemma_covered_sum_concat(a: Seq<Record>, b: Seq<Record>)
    ensures
        covered_sum(a + b) == covered_sum(a) + covered_sum(b),
    decreases b.len(),
{
    if b.len() == 0 {
        assert(a + b =~= a);
    } else {
        lemma_covered_sum_concat(a, b.drop_last());
        assert((a + b).drop_last() =~= a + b.drop_last());
    }
}

/// The lines of a stream: each lies in the stream at sixteen times its
/// number, all but the last are full, and together they are what the dump
/// shows of the stream.
proof fn lemma_line_len(stream: Seq<u8>, limit: nat, k: nat)
    requires
        k < line_count(limit, stream.len()),
    ensures
        lines_of(stream, limit).len() == line_count(limit, stream.len()),
        lines_of(stream, limit)[k as int] == line_at(stream, limit, k),
        line_at(stream, limit, k).len() <= 16,
        16 * k + line_at(stream, limit, k).len() <= shown_len(limit, stream.len()),
        shown_len(limit, stream.len()) <= stream.len(),
        line_at(stream, limit, k) == stream.subrange(
            (16 * k) as int,
            (16 * k + line_at(stream, limit, k).len()) as int,
        ),
        k + 1 < line_count(limit, stream.len()) ==> line_at(stream, limit, k).len() == 16,
        k + 1 == line_count(limit, stream.len()) ==> 16 * k + line_at(stream, limit, k).len()
            == shown_len(limit, stream.len()),
{
}

/// A run before line `j` is made of lines before line `j`, the first of
/// which repeats a line.
proof fn lemma_run_bound(lines: Seq<Seq<u8>>, j: int)
    requires
        0 <= j,
    ensures
        run_before(lines, j) <= j,
        run_before(lines, j) >= 1 ==> run_before(lines, j) + 1 <= j,
    decreases j,
{
    if j >= 1 && repeats(lines, j - 1) {
        lemma_run_bound(lines, j - 1);
    }
}

/// The records of the lines before line `j` and the run that is open
/// before line `j` account for the bytes of these lines.
proof fn lemma_covered_upto(stream: Seq<u8>, limit: nat, collapse: bool, j: int)
    requires
        0 <= j <= line_count(limit, stream.len()),
    ensures
        covered_sum(records_upto(lines_of(stream, limit), collapse, j)) + covered_sum(
            closing(lines_of(stream, limit), collapse, j),
        ) == if j == line_count(limit, stream.len()) {
            shown_len(limit, stream.len())
        } else {
            (16 * j) as nat
        },
    decreases j,
{
    let lines = lines_of(stream, limit);
    let none = Seq::<Record>::empty();
    if j == 0 {
        assert(records_upto(lines, collapse, 0) =~= none);
        assert(closing(lines, collapse, 0) =~= none);
    } else {
        let k = j - 1;
        lemma_covered_upto(stream, limit, collapse, k);
        lemma_line_len(stream, limit, k as nat);
        let before = records_upto(lines, collapse, k);
        let due = closing(lines, collapse, k);
        let data = Record::Data { offset: (16 * k) as nat, bytes: lines[k] };
        if collapse && repeats(lines, k) {
            assert(before + none =~= before);
            lemma_closing_covered(lines, k);
            lemma_closing_covered(lines, j);
        } else {
            lemma_covered_sum_concat(before, due.push(data));
            lemma_covered_sum_push(due, data);
            assert(closing(lines, collapse, j) =~= none);
        }
    }
}

/// The summary that is due before line `j` accounts for the lines of the
/// run but the line that the run repeats.
proof fn lemma_closing_covered(lines: Seq<Seq<u8>>, j: int)
    ensures
        covered_sum(closing(lines, true, j)) == 16 * run_before(lines, j),
{
    let none = Seq::<Record>::empty();
    if run_before(lines, j) >= 1 {
        let note = Record::Repeat { count: run_before(lines, j) + 1 };
        lemma_covered_sum_push(none, note);
        assert(closing(lines, true, j) =~= none.push(note));
    }
}

/// What stands at place `i` of the records of the lines before line `j`.
/// A data record is that of a line that is not folded, and before it stand
/// the records of the lines before that line and the summary that is due
/// there. A summary reports a run of two lines or more and is followed by
/// a data record.
proof fn lemma_upto_at(lines: Seq<Seq<u8>>, collapse: bool, j: int, i: int)
    requires
        0 <= j <= lines.len(),
        0 <= i < records_upto(lines, collapse, j).len(),
    ensures
        match records_upto(lines, collapse, j)[i] {
            Record::Data { offset, bytes } => {
                let m = (offset / 16) as int;
                &&& offset == 16 * m
                &&& 0 <= m < j
                &&& bytes == lines[m]
                &&& !(collapse && repeats(lines, m))
                &&& records_upto(lines, collapse, j).take(i) == records_upto(lines, collapse, m)
                    + closing(lines, collapse, m)
                &&& records_upto(lines, collapse, j).take(i + 1) == records_upto(
                    lines,
                    collapse,
                    m + 1,
                )
            },
            Record::Repeat { count } => {
                &&& collapse
                &&& 2 <= count <= j
                &&& i + 1 < records_upto(lines, collapse, j).len()
                &&& records_upto(lines, collapse, j)[i + 1] is Data
            },
        },
    decreases j,
{
    let whole = records_upto(lines, collapse, j);
    let k = j - 1;
    let before = records_upto(lines, collapse, k);
    let added = piece(lines, collapse, k);
    assert(whole == before + added);
    if i < before.len() {
        lemma_upto_at(lines, collapse, k, i);
        assert(whole[i] == before[i]);
        assert(whole.take(i) =~= before.take(i));
        assert(whole.take(i + 1) =~= before.take(i + 1));
        if i + 1 < before.len() {
            assert(whole[i + 1] == before[i + 1]);
        }
    } else {
        let due = closing(lines, collapse, k);
        let data = Record::Data { offset: (16 * k) as nat, bytes: lines[k] };
        assert(added == due.push(data));
        lemma_run_bound(lines, k);
        if i == before.len() + due.len() {
            assert(whole[i] == data);
            assert(whole.take(i) =~= before + due);
            assert(whole.take(i + 1) =~= whole);
        } else {
            assert(whole[i] == due[0]);
            assert(whole[i + 1] == data);
        }
    }
}

/// What stands at place `i` of the records of a dump.
proof fn lemma_record_at(stream: Seq<u8>, limit: nat, collapse: bool, i: int)
    requires
        0 <= i < records(stream, limit, collapse).len(),
    ensures
        match records(stream, limit, collapse)[i] {
            Record::Data { offset, bytes } => {
                let m = offset / 16;
                &&& offset == 16 * m
                &&& m < line_count(limit, stream.len())
                &&& bytes == line_at(stream, limit, m)
                &&& offset == covered_sum(records(stream, limit, collapse).take(i))
                &&& i + 1 < records(stream, limit, collapse).len() ==> bytes.len() == 16
                &&& i + 1 == records(stream, limit, collapse).len() ==> offset + bytes.len()
                    == shown_len(limit, stream.len())
            },
            Record::Repeat { count } => {
                &&& collapse
                &&& 2 <= count <= line_count(limit, stream.len())
                &&& i + 1 < records(stream, limit, collapse).len() ==> records(
                    stream,
                    limit,
                    collapse,
                )[i + 1] is Data
            },
        },
{
    let lines = lines_of(stream, limit);
    let n = lines.len() as int;
    let rs = records(stream, limit, collapse);
    let upto = records_upto(lines, collapse, n);
    let end = closing(lines, collapse, n);
    assert(rs == upto + end);
    if i < upto.len() {
        lemma_upto_at(lines, collapse, n, i);
        assert(rs[i] == upto[i]);
        if i + 1 < upto.len() {
            assert(rs[i + 1] == upto[i + 1]);
        }
        match rs[i] {
            Record::Data { offset, bytes } => {
                let m = (offset / 16) as int;
                lemma_line_len(stream, limit, m as nat);
                lemma_covered_upto(stream, limit, collapse, m);
                lemma_covered_sum_concat(
                    records_upto(lines, collapse, m),
                    closing(lines, collapse, m),
                );
                assert(rs.take(i) =~= upto.take(i));
                if m + 1 == n {
                    // the data record of the last line is the last record
                    assert(upto.take(i + 1) == upto);
                    assert(upto.len() == i + 1);
                    assert(end =~= Seq::<Record>::empty());
                }
            },
            Record::Repeat { count } => {},
        }
    } else {
        lemma_run_bound(lines, n);
        assert(rs[i] == end[0]);
    }
}

/// Offsets follow the bytes. The offset of a data line is the number of
/// bytes that the records before it account for. A data line that another
/// data line follows is full, and that line starts sixteen bytes on. A
/// data line that a summary follows is full, and the line behind the
/// summary starts behind the run. The offset of a data line that ends the
/// dump and the number of its bytes add up to the number of bytes read.
pub proof fn law_offsets(stream: Seq<u8>, limit: nat, collapse: bool, i: int)
    requires
        0 <= i < records(stream, limit, collapse).len(),
        records(stream, limit, collapse)[i] is Data,
    ensures
        ({
            let rs = records(stream, limit, collapse);
            let offset = rs[i]->offset;
            let bytes = rs[i]->bytes;
            &&& offset == covered_sum(rs.take(i))
            &&& i + 1 < rs.len() ==> bytes.len() == 16
            &&& i + 1 < rs.len() && rs[i + 1] is Data ==> rs[i + 1]->offset == offset + 16
            &&& i + 1 < rs.len() && rs[i + 1] is Repeat ==> rs[i + 1]->count >= 2
            &&& i + 2 < rs.len() && rs[i + 1] is Repeat ==> rs[i + 2] is Data && rs[i + 2]->offset
                == offset + 16 * rs[i + 1]->count
            &&& i + 1 == rs.len() ==> offset + bytes.len() == shown_len(limit, stream.len())
        }),
{
    let rs = records(stream, limit, collapse);
    lemma_record_at(stream, limit, collapse, i);
    if i + 1 < rs.len() {
        lemma_record_at(stream, limit, collapse, i + 1);
        lemma_covered_sum_push(rs.take(i), rs[i]);
        assert(rs.take(i + 1) =~= rs.take(i).push(rs[i]));
        if rs[i + 1] is Repeat && i + 2 < rs.len() {
            lemma_record_at(stream, limit, collapse, i + 2);
            lemma_covered_sum_push(rs.take(i + 1), rs[i + 1]);
            assert(rs.take(i + 2) =~= rs.take(i + 1).push(rs[i + 1]));
        }
    }
}

/// The bytes that a text holds as pairs of upper-case hex digits between
/// blanks, up to the first character that is neither.
pub open spec fn hex_pairs(text: Seq<char>) -> Seq<u8>
    decreases text.len(),
{
    if text.len() == 0 {
        Seq::empty()
    } else if text[0] == ' ' {
        hex_pairs(text.skip(1))
    } else if text.len() >= 2 && hex_value_spec(text[0]) is Some && hex_value_spec(text[1])
        is Some {
        seq![(16 * hex_value_spec(text[0])->0 + hex_value_spec(text[1])->0) as u8] + hex_pairs(
            text.skip(2),
        )
    } else {
        Seq::empty()
    }
}

proof fn lemma_pairs_blank_front(rest: Seq<char>)
    ensures
        hex_pairs(seq![' '] + rest) == hex_pairs(rest),
{
    assert((seq![' '] + rest).skip(1) =~= rest);
}

proof fn lemma_pairs_byte_front(b: u8, rest: Seq<char>)
    ensures
        hex_pairs(hex_pair(b) + seq![' '] + rest) == seq![b] + hex_pairs(rest),
{
    let text = hex_pair(b) + seq![' '] + rest;
    assert(text.skip(2) =~= seq![' '] + rest);
    lemma_pairs_blank_front(rest);
    assert(text[0] == hex_pair(b)[0]);
    assert(text[1] == hex_pair(b)[1]);
}

proof fn lemma_pairs_of_cells(bytes: Seq<u8>, i: int)
    requires
        0 <= i <= 16,
        bytes.len() <= 16,
    ensures
        hex_pairs(hex_cells_from(bytes, i)) == if i <= bytes.len() {
            bytes.skip(i)
        } else {
            Seq::empty()
        },
    decreases 16 - i,
{
    if i < 16 {
        lemma_pairs_of_cells(bytes, i + 1);
        let rest = hex_cells_from(bytes, i + 1);
        let body = if i < bytes.len() {
            hex_pair(bytes[i]) + seq![' '] + rest
        } else {
            seq![' ', ' ', ' '] + rest
        };
        if i < bytes.len() {
            lemma_pairs_byte_front(bytes[i], rest);
            assert(seq![bytes[i]] + bytes.skip(i + 1) =~= bytes.skip(i));
        } else {
            lemma_pairs_blank_front(rest);
            lemma_pairs_blank_front(seq![' '] + rest);
            lemma_pairs_blank_front(seq![' '] + (seq![' '] + rest));
            assert(body =~= seq![' '] + (seq![' '] + (seq![' '] + rest)));
            if i == bytes.len() {
                assert(bytes.skip(i) =~= Seq::<u8>::empty());
            }
        }
        if i == 8 {
            lemma_pairs_blank_front(body);
            assert(hex_cells_from(bytes, i) =~= seq![' '] + body);
        } else {
            assert(hex_cells_from(bytes, i) =~= body);
        }
    } else if i <= bytes.len() {
        assert(bytes.skip(i) =~= Seq::<u8>::empty());
    }
}

/// The hex column of a line, read back as pairs of hex digits, gives the
/// bytes of the line.
pub proof fn law_hex_column_reads_back(bytes: Seq<u8>)
    requires
        bytes.len() <= 16,
    ensures
        hex_pairs(hex_column(bytes)) == bytes,
{
    lemma_pairs_of_cells(bytes, 0);
    assert(bytes.skip(0) =~= bytes);
}

/// Round trip: the bytes of a data record are those of the stream at the
/// record's offset, and the hex column of its line reads back as them.
pub proof fn law_round_trip(stream: Seq<u8>, limit: nat, collapse: bool, i: int)
    requires
        0 <= i < records(stream, limit, collapse).len(),
        records(stream, limit, collapse)[i] is Data,
    ensures
        ({
            let offset = records(stream, limit, collapse)[i]->offset;
            let bytes = records(stream, limit, collapse)[i]->bytes;
            &&& bytes.len() <= 16
            &&& offset + bytes.len() <= stream.len()
            &&& bytes == stream.subrange(offset as int, (offset + bytes.len()) as int)
            &&& hex_pairs(hex_column(bytes)) == bytes
        }),
{
    lemma_record_at(stream, limit, collapse, i);
    let offset = records(stream, limit, collapse)[i]->offset;
    lemma_line_len(stream, limit, offset / 16);
    law_hex_column_reads_back(records(stream, limit, collapse)[i]->bytes);
}

proof fn lemma_hex_cells_len(bytes: Seq<u8>, i: int)
    requires
        0 <= i <= 16,
    ensures
        hex_cells_from(bytes, i).len() == 3 * (16 - i) + if i <= 8 {
            1int
        } else {
            0int
        },
    decreases 16 - i,
{
    if i < 16 {
        lemma_hex_cells_len(bytes, i + 1);
    }
}

/// The hex column is 49 characters wide, whatever number of bytes the line holds.
pub proof fn law_hex_column_width(bytes: Seq<u8>)
    ensures
        hex_column(bytes).len() == 49,
{
    lemma_hex_cells_len(bytes, 0);
}

/// An offset below 2^32 has eight hex digits.
proof fn lemma_hex_text_eight(v: nat)
    requires
        v < 0x1_0000_0000,
    ensures
        hex_text(v, 8).len() == 8,
{
    reveal_with_fuel(hex_text, 9);
}

/// A number below 10^10 has at most ten decimal digits.
proof fn lemma_dec_text_ten(v: nat)
    requires
        v < 10_000_000_000,
    ensures
        1 <= dec_text(v, 1).len() <= 10,
{
    reveal_with_fuel(dec_text, 11);
}

/// Line width: in a dump of a stream of fewer than 2^32 bytes every data
/// line and every summary line is 60 characters wide where no character
/// column is shown: the offset in eight digits, the break, and a hex column
/// of 49 characters however many bytes the line holds. The character
/// column adds its own width behind that.
pub proof fn law_line_width(stream: Seq<u8>, limit: nat, collapse: bool, i: int)
    requires
        0 <= i < records(stream, limit, collapse).len(),
        stream.len() < 0x1_0000_0000,
    ensures
        match records(stream, limit, collapse)[i] {
            Record::Data { offset, bytes } => {
                &&& hex_column(bytes).len() == 49
                &&& data_line(offset, bytes, false).len() == 60
                &&& data_line(offset, bytes, false).subrange(11, 60) == hex_column(bytes)
                &&& data_line(offset, bytes, true).len() == 62 + char_column(bytes).len()
                &&& data_line(offset, bytes, true).subrange(11, 60) == hex_column(bytes)
            },
            Record::Repeat { count } => {
                &&& summary_line(count, false).len() == 60
                &&& summary_line(count, true).len() == 61
            },
        },
{
    lemma_record_at(stream, limit, collapse, i);
    match records(stream, limit, collapse)[i] {
        Record::Data { offset, bytes } => {
            lemma_line_len(stream, limit, offset / 16);
            lemma_hex_text_eight(offset);
            law_hex_column_width(bytes);
            assert(data_line(offset, bytes, false).subrange(11, 60) =~= hex_column(bytes));
            assert(data_line(offset, bytes, true).subrange(11, 60) =~= hex_column(bytes));
        },
        Record::Repeat { count } => {
            lemma_dec_text_ten(count);
            reveal_strlit("(repeats ");
            reveal_strlit(" lines)");
            assert(repeat_note(count).len() <= 49);
        },
    }
}

/// The records of lines of which none is folded: one data record for each line.
proof fn lemma_unfolded_upto(lines: Seq<Seq<u8>>, j: int)
    requires
        0 <= j <= lines.len(),
    ensures
        records_upto(lines, false, j).len() == j,
        forall|i: int|
            0 <= i < j ==> #[trigger] records_upto(lines, false, j)[i] == (Record::Data {
                offset: (16 * i) as nat,
                bytes: lines[i],
            }),
    decreases j,
{
    if j > 0 {
        lemma_unfolded_upto(lines, j - 1);
        let whole = records_upto(lines, false, j);
        let before = records_upto(lines, false, j - 1);
        assert(piece(lines, false, j - 1) =~= seq![
            Record::Data { offset: (16 * (j - 1)) as nat, bytes: lines[j - 1] },
        ]);
        assert forall|i: int| 0 <= i < j implies #[trigger] whole[i] == (Record::Data {
            offset: (16 * i) as nat,
            bytes: lines[i],
        }) by {
            if i < j - 1 {
                assert(whole[i] == before[i]);
            }
        }
    }
}

/// Without collapsing there is one data line for each line of the stream
/// and no summary: the dump has as many records as what it shows has lines
/// of sixteen bytes, the last of which may be short. Left out is the dump
/// that the limit ends with an empty line.
pub proof fn law_no_collapse(stream: Seq<u8>, limit: nat)
    ensures
        records(stream, limit, false).len() == line_count(limit, stream.len()),
        forall|i: int|
            0 <= i < records(stream, limit, false).len() ==> #[trigger] records(
                stream,
                limit,
                false,
            )[i] == (Record::Data {
                offset: (16 * i) as nat,
                bytes: line_at(stream, limit, i as nat),
            }),
        !has_tail(limit, stream.len()) ==> records(stream, limit, false).len() == (shown_len(
            limit,
            stream.len(),
        ) + 15) / 16,
{
    let lines = lines_of(stream, limit);
    lemma_unfolded_upto(lines, lines.len() as int);
    assert(records(stream, limit, false) =~= records_upto(lines, false, lines.len() as int));
}

proof fn lemma_data_bytes_of_data(rs: Seq<Record>)
    requires
        forall|i: int| 0 <= i < rs.len() ==> #[trigger] rs[i] is Data,
    ensures
        data_bytes(rs) == covered_sum(rs),
    decreases rs.len(),
{
    if rs.len() > 0 {
        assert(rs.last() == rs[rs.len() - 1]);
        assert forall|i: int| 0 <= i < rs.drop_last().len() implies #[trigger] rs.drop_last()[i]
            is Data by {
            assert(rs.drop_last()[i] == rs[i]);
        }
        lemma_data_bytes_of_data(rs.drop_last());
    }
}

/// Limit: the records of a dump account for exactly the bytes that the
/// dump shows, which with a byte limit are as many as the limit allows or
/// as the stream has, whichever is less. Where the dump holds no summary,
/// as it does without collapsing, the bytes of its data lines add up to
/// that number.
pub proof fn law_limit(stream: Seq<u8>, limit: nat, collapse: bool)
    ensures
        covered_sum(records(stream, limit, collapse)) == shown_len(limit, stream.len()),
        limit > 0 ==> shown_len(limit, stream.len()) == if limit <= stream.len() {
            limit
        } else {
            stream.len()
        },
        limit == 0 ==> shown_len(limit, stream.len()) == stream.len(),
        (forall|i: int|
            0 <= i < records(stream, limit, collapse).len() ==> #[trigger] records(
                stream,
                limit,
                collapse,
            )[i] is Data) ==> data_bytes(records(stream, limit, collapse)) == shown_len(
            limit,
            stream.len(),
        ),
        data_bytes(records(stream, limit, false)) == shown_len(limit, stream.len()),
{
    let lines = lines_of(stream, limit);
    let n = lines.len() as int;
    lemma_covered_upto(stream, limit, collapse, n);
    lemma_covered_sum_concat(records_upto(lines, collapse, n), closing(lines, collapse, n));
    lemma_covered_upto(stream, limit, false, n);
    lemma_covered_sum_concat(records_upto(lines, false, n), closing(lines, false, n));
    law_no_collapse(stream, limit);
    lemma_data_bytes_of_data(records(stream, limit, false));
    if forall|i: int|
        0 <= i < records(stream, limit, collapse).len() ==> #[trigger] records(
            stream,
            limit,
            collapse,
        )[i] is Data {
        lemma_data_bytes_of_data(records(stream, limit, collapse));
    }
}

/// A line, `n` times in a row.
pub open spec fn copies(line: Seq<u8>, n: nat) -> Seq<u8>
    decreases n,
{
    if n == 0 {
        Seq::empty()
    } else {
        copies(line, (n - 1) as nat) + line
    }
}

proof fn lemma_copies_line(line: Seq<u8>, n: nat, j: nat)
    requires
        line.len() == 16,
        j < n,
    ensures
        copies(line, n).len() == 16 * n,
        copies(line, n).subrange((16 * j) as int, (16 * j + 16) as int) == line,
    decreases n,
{
    lemma_copies_len(line, n);
    lemma_copies_len(line, (n - 1) as nat);
    if j + 1 < n {
        lemma_copies_line(line, (n - 1) as nat, j);
        assert(copies(line, n).subrange((16 * j) as int, (16 * j + 16) as int) =~= copies(
            line,
            (n - 1) as nat,
        ).subrange((16 * j) as int, (16 * j + 16) as int));
    } else {
        assert(copies(line, n).subrange((16 * j) as int, (16 * j + 16) as int) =~= line);
    }
}

proof fn lemma_copies_len(line: Seq<u8>, n: nat)
    requires
        line.len() == 16,
    ensures
        copies(line, n).len() == 16 * n,
    decreases n,
{
    if n > 0 {
        lemma_copies_len(line, (n - 1) as nat);
    }
}

/// The lines of `n` copies of a line with another line behind them.
proof fn lemma_copies_lines(line: Seq<u8>, n: nat, other: Seq<u8>, limit: nat, j: nat)
    requires
        line.len() == 16,
        1 <= other.len() <= 16,
        j <= n,
        limit == 0 || limit >= 16 * n + other.len(),
    ensures
        lines_of(copies(line, n) + other, limit).len() == n + 1,
        lines_of(copies(line, n) + other, limit)[j as int] == if j < n {
            line
        } else {
            other
        },
{
    let stream = copies(line, n) + other;
    lemma_copies_len(line, n);
    if j < n {
        lemma_copies_line(line, n, j);
        assert(line_at(stream, limit, j) =~= line);
    } else {
        assert(line_at(stream, limit, n) =~= other);
    }
}

/// Of `n` copies of a line, the first has a data record and the others
/// are folded.
proof fn lemma_copies_upto(lines: Seq<Seq<u8>>, line: Seq<u8>, n: nat, j: int)
    requires
        line.len() == 16,
        1 <= j <= n < lines.len(),
        forall|i: int| 0 <= i < n ==> lines[i] == line,
    ensures
        records_upto(lines, true, j) == seq![Record::Data { offset: 0, bytes: line }],
        run_before(lines, j) == j - 1,
    decreases j,
{
    if j == 1 {
        assert(records_upto(lines, true, 0) =~= Seq::<Record>::empty());
        assert(records_upto(lines, true, 1) =~= seq![Record::Data { offset: 0, bytes: line }]);
    } else {
        lemma_copies_upto(lines, line, n, j - 1);
        assert(repeats(lines, j - 1));
        assert(records_upto(lines, true, j) =~= records_upto(lines, true, j - 1));
    }
}

/// Collapse: of `n` identical full lines, two or more, with one other line
/// behind them, the dump shows the first as a data line, then one summary
/// that reports `n` lines, then the other line as a data line at its
/// offset.
pub proof fn law_collapse(line: Seq<u8>, n: nat, other: Seq<u8>, limit: nat)
    requires
        line.len() == 16,
        n >= 2,
        1 <= other.len() <= 16,
        other != line,
        limit == 0 || limit >= 16 * n + other.len(),
    ensures
        records(copies(line, n) + other, limit, true) == seq![
            Record::Data { offset: 0, bytes: line },
            Record::Repeat { count: n },
            Record::Data { offset: 16 * n, bytes: other },
        ],
{
    let stream = copies(line, n) + other;
    let lines = lines_of(stream, limit);
    lemma_copies_lines(line, n, other, limit, n);
    assert forall|i: int| 0 <= i < n implies lines[i] == line by {
        lemma_copies_lines(line, n, other, limit, i as nat);
    }
    lemma_copies_upto(lines, line, n, n as int);
    assert(!repeats(lines, n as int));
    assert(run_before(lines, n as int + 1) == 0);
    assert(records(stream, limit, true) =~= seq![
        Record::Data { offset: 0, bytes: line },
        Record::Repeat { count: n },
        Record::Data { offset: 16 * n, bytes: other },
    ]);
}

/// A source without a cursor is dumped from its start, whatever number of
/// bytes the dump is asked to skip: nothing is skipped, and without a byte
/// limit the dump reads the whole stream.
pub proof fn law_unseekable_skip(pending: Seq<u8>, skip: nat, limit: nat)
    ensures
        skipped(pending, false, skip) == pending,
        limit == 0 ==> shown_len(limit, skipped(pending, false, skip).len()) == pending.len(),
        limit > 0 ==> shown_len(limit, skipped(pending, false, skip).len()) == if limit
            <= pending.len() {
            limit
        } else {
            pending.len()
        },
{
}

} // verus!
