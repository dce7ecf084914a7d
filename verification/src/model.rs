//! What a dump shows, as a function of the stream and the configuration.
//!
//! A stream is cut into lines of sixteen bytes. The byte limit, if there is
//! one, cuts the stream short. A line that repeats the line before it is
//! folded; every other line becomes one data record. A run of folded lines
//! becomes one summary record that reports the length of the run, counted
//! with the line that the run repeats.

use vstd::prelude::*;
use crate::render::{data_line, footer_line, header_line, rule_line, summary_line};

verus! {

/// Number of bytes of a stream of `avail` bytes that a dump with byte limit
/// `limit` shows; a limit of 0 stands for none.
pub open spec fn shown_len(limit: nat, avail: nat) -> nat {
    if limit == 0 || avail <= limit {
        avail
    } else {
        limit
    }
}

/// Whether the dump ends with a line that the limit has emptied: the limit
/// falls on the end of a line and the stream goes on behind it.
pub open spec fn has_tail(limit: nat, avail: nat) -> bool {
    limit > 0 && limit % 16 == 0 && avail > limit
}

/// Number of lines that a dump reads and accounts for.
pub open spec fn line_count(limit: nat, avail: nat) -> nat {
    (shown_len(limit, avail) + 15) / 16 + if has_tail(limit, avail) {
        1nat
    } else {
        0nat
    }
}

/// The bytes of line `k`.
pub open spec fn line_at(stream: Seq<u8>, limit: nat, k: nat) -> Seq<u8> {
    let end = shown_len(limit, stream.len());
    let from = if 16 * k <= end {
        16 * k
    } else {
        end
    };
    let to = if 16 * k + 16 <= end {
        16 * k + 16
    } else {
        end
    };
    stream.subrange(from as int, to as int)
}

/// The lines of a stream under a byte limit.
pub open spec fn lines_of(stream: Seq<u8>, limit: nat) -> Seq<Seq<u8>> {
    Seq::new(line_count(limit, stream.len()), |k: int| line_at(stream, limit, k as nat))
}

/// Whether line `j` repeats the line before it: it is full and holds the
/// same bytes.
pub open spec fn repeats(lines: Seq<Seq<u8>>, j: int) -> bool {
    1 <= j < lines.len() && lines[j].len() == 16 && lines[j] == lines[j - 1]
}

/// Number of lines directly before line `j` that repeat the line before them.
pub open spec fn run_before(lines: Seq<Seq<u8>>, j: int) -> nat
    decreases j,
{
    if j >= 1 && repeats(lines, j - 1) {
        1 + run_before(lines, j - 1)
    } else {
        0
    }
}

/// One rendered line of the body of a dump.
pub enum Record {
    /// A line of the stream: where it starts and the bytes it holds.
    Data { offset: nat, bytes: Seq<u8> },
    /// The summary of a run of `count` identical full lines.
    Repeat { count: nat },
}

/// The summary that is due before line `j`, or at the end of the lines:
/// where runs are collapsed and a run ends there, the summary of that run.
pub open spec fn closing(lines: Seq<Seq<u8>>, collapse: bool, j: int) -> Seq<Record> {
    if collapse && run_before(lines, j) >= 1 {
        seq![Record::Repeat { count: run_before(lines, j) + 1 }]
    } else {
        Seq::empty()
    }
}

/// The records that line `j` adds: none if it is folded, else the summary
/// that is due before it and its data record.
pub open spec fn piece(lines: Seq<Seq<u8>>, collapse: bool, j: int) -> Seq<Record> {
    if collapse && repeats(lines, j) {
        Seq::empty()
    } else {
        closing(lines, collapse, j).push(
            Record::Data { offset: (16 * j) as nat, bytes: lines[j] },
        )
    }
}

/// The records of the lines before line `j`.
pub open spec fn records_upto(lines: Seq<Seq<u8>>, collapse: bool, j: int) -> Seq<Record>
    decreases j,
{
    if j <= 0 {
        Seq::empty()
    } else {
        records_upto(lines, collapse, j - 1) + piece(lines, collapse, j - 1)
    }
}

/// The records of a sequence of lines.
pub open spec fn records_of(lines: Seq<Seq<u8>>, collapse: bool) -> Seq<Record> {
    records_upto(lines, collapse, lines.len() as int) + closing(
        lines,
        collapse,
        lines.len() as int,
    )
}

/// The records of the dump of `stream`.
pub open spec fn records(stream: Seq<u8>, limit: nat, collapse: bool) -> Seq<Record> {
    records_of(lines_of(stream, limit), collapse)
}

/// The text of a record.
pub open spec fn record_text(r: Record, chars: bool) -> Seq<char> {
    match r {
        Record::Data { offset, bytes } => data_line(offset, bytes, chars),
        Record::Repeat { count } => summary_line(count, chars),
    }
}

/// The texts of a sequence of records.
pub open spec fn records_text(rs: Seq<Record>, chars: bool) -> Seq<Seq<char>> {
    Seq::new(rs.len(), |i: int| record_text(rs[i], chars))
}

/// The lines above the body: the header and a rule.
pub open spec fn head_text(chars: bool) -> Seq<Seq<char>> {
    seq![header_line(chars), rule_line(chars)]
}

/// The lines below the body: a rule and the footer.
pub open spec fn foot_text(total: nat, chars: bool) -> Seq<Seq<char>> {
    seq![rule_line(chars), footer_line(total, chars)]
}

/// The text of the body of the dump of `stream`.
pub open spec fn body_text(stream: Seq<u8>, limit: nat, collapse: bool, chars: bool) -> Seq<
    Seq<char>,
> {
    records_text(records(stream, limit, collapse), chars)
}

/// All lines of the dump of `stream`.
pub open spec fn dump_text(stream: Seq<u8>, limit: nat, collapse: bool, chars: bool) -> Seq<
    Seq<char>,
> {
    head_text(chars) + body_text(stream, limit, collapse, chars) + foot_text(
        shown_len(limit, stream.len()),
        chars,
    )
}

/// Whether the limit cuts the line that is read after `total` bytes.
pub open spec fn limit_cuts(limit: nat, total: nat) -> bool {
    limit != 0 && total + 15 >= limit
}

/// Number of bytes that count of a read of `got` bytes after `total` bytes:
/// where the limit cuts the line, at most the limit's remainder by 16.
pub open spec fn counted_len(limit: nat, total: nat, got: nat) -> nat {
    if limit_cuts(limit, total) && limit % 16 < got {
        limit % 16
    } else {
        got
    }
}

/// What the last read of a stream has yielded, once the lines before it
/// were full and uncut: the read came back empty exactly behind the last
/// line, and else the bytes that count are those of line `k`.
pub(crate) proof fn lemma_next_line(stream: Seq<u8>, limit: nat, k: nat)
    requires
        16 * k <= stream.len() <= 16 * k + 16,
        limit == 0 || 16 * k <= limit,
    ensures
        ({
            let got = (stream.len() - 16 * k) as nat;
            let len = counted_len(limit, 16 * k, got);
            let n = line_count(limit, stream.len());
            &&& k <= n
            &&& got == 0 <==> k == n
            &&& len <= got <= 16
            &&& got > 0 ==> stream.subrange((16 * k) as int, (16 * k + len) as int) == line_at(
                stream,
                limit,
                k,
            )
            &&& got > 0 ==> n == k + 1
            &&& 16 * k + len == shown_len(limit, stream.len())
            &&& len == 16 ==> (limit == 0 || 16 * (k + 1) <= limit) && !limit_cuts(limit, 16 * k)
            &&& forall|j: nat|
                j < k ==> #[trigger] line_at(stream, limit, j) == stream.subrange(
                    (16 * j) as int,
                    (16 * j + 16) as int,
                )
        }),
{
    let got = (stream.len() - 16 * k) as nat;
    let len = counted_len(limit, 16 * k, got);
    let end = shown_len(limit, stream.len());
    if limit_cuts(limit, 16 * k) {
        assert(limit % 16 == limit - 16 * k) by (nonlinear_arith)
            requires
                16 * k <= limit <= 16 * k + 15,
        ;
    }
    assert(16 * k <= end);
    if has_tail(limit, stream.len()) {
        assert(end == limit);
    }
}

/// The texts of two sequences of records, one behind the other.
pub(crate) proof fn lemma_records_text_concat(a: Seq<Record>, b: Seq<Record>, chars: bool)
    ensures
        records_text(a + b, chars) == records_text(a, chars) + records_text(b, chars),
{
    assert(records_text(a + b, chars) =~= records_text(a, chars) + records_text(b, chars));
}

/// The text of a sequence of records with one more record.
pub(crate) proof fn lemma_records_text_push(a: Seq<Record>, r: Record, chars: bool)
    ensures
        records_text(a.push(r), chars) == records_text(a, chars).push(record_text(r, chars)),
{
    assert(records_text(a.push(r), chars) =~= records_text(a, chars).push(record_text(r, chars)));
}

/// One more line at the end changes nothing of what the lines before it give.
pub(crate) proof fn lemma_push_keeps(lines: Seq<Seq<u8>>, line: Seq<u8>, collapse: bool, j: int)
    requires
        j <= lines.len(),
    ensures
        run_before(lines.push(line), j) == run_before(lines, j),
        closing(lines.push(line), collapse, j) == closing(lines, collapse, j),
        records_upto(lines.push(line), collapse, j) == records_upto(lines, collapse, j),
        0 <= j < lines.len() ==> repeats(lines.push(line), j) == repeats(lines, j),
        0 <= j < lines.len() ==> piece(lines.push(line), collapse, j) == piece(
            lines,
            collapse,
            j,
        ),
    decreases j,
{
    if j >= 1 {
        lemma_push_keeps(lines, line, collapse, j - 1);
        assert(lines.push(line)[j - 1] == lines[j - 1]);
        if j >= 2 {
            assert(lines.push(line)[j - 2] == lines[j - 2]);
        }
    }
    if 0 <= j < lines.len() {
        assert(lines.push(line)[j] == lines[j]);
    }
}

/// A line that is not folded adds the summary that is due and its data record.
pub(crate) proof fn lemma_line_shown(lines: Seq<Seq<u8>>, collapse: bool, k: int)
    requires
        0 <= k < lines.len(),
        !(collapse && repeats(lines, k)),
    ensures
        records_upto(lines, collapse, k + 1) == (records_upto(lines, collapse, k) + closing(
            lines,
            collapse,
            k,
        )).push(Record::Data { offset: (16 * k) as nat, bytes: lines[k] }),
        collapse ==> run_before(lines, k + 1) == 0,
        closing(lines, collapse, k + 1) == Seq::<Record>::empty(),
{
    let data = Record::Data { offset: (16 * k) as nat, bytes: lines[k] };
    assert(records_upto(lines, collapse, k) + closing(lines, collapse, k).push(data) =~= (
    records_upto(lines, collapse, k) + closing(lines, collapse, k)).push(data));
}

/// A line that is folded adds no record and makes the run one line longer.
pub(crate) proof fn lemma_line_folded(lines: Seq<Seq<u8>>, collapse: bool, k: int)
    requires
        0 <= k < lines.len(),
        collapse,
        repeats(lines, k),
    ensures
        records_upto(lines, collapse, k + 1) == records_upto(lines, collapse, k),
        run_before(lines, k + 1) == run_before(lines, k) + 1,
{
    assert(records_upto(lines, collapse, k) + Seq::<Record>::empty() =~= records_upto(
        lines,
        collapse,
        k,
    ));
}

/// The records before the end of the lines are a prefix of all records.
pub(crate) proof fn lemma_upto_is_prefix(lines: Seq<Seq<u8>>, collapse: bool, chars: bool)
    ensures
        records_text(records_upto(lines, collapse, lines.len() as int), chars).is_prefix_of(
            records_text(records_of(lines, collapse), chars),
        ),
{
    let a = records_upto(lines, collapse, lines.len() as int);
    let b = closing(lines, collapse, lines.len() as int);
    lemma_records_text_concat(a, b, chars);
    assert(records_text(a, chars) =~= (records_text(a, chars) + records_text(b, chars)).subrange(
        0,
        records_text(a, chars).len() as int,
    ));
}

/// What lies behind the byte limit does not show: a stream and the part
/// of it that reaches beyond the limit give the same dump.
pub(crate) proof fn lemma_beyond_limit(
    stream: Seq<u8>,
    rest: Seq<u8>,
    limit: nat,
    collapse: bool,
    chars: bool,
)
    requires
        rest.len() == 0 || (limit > 0 && stream.len() > limit),
    ensures
        shown_len(limit, (stream + rest).len()) == shown_len(limit, stream.len()),
        lines_of(stream + rest, limit) == lines_of(stream, limit),
        dump_text(stream + rest, limit, collapse, chars) == dump_text(
            stream,
            limit,
            collapse,
            chars,
        ),
{
    let all = stream + rest;
    if rest.len() == 0 {
        assert(all =~= stream);
    } else {
        assert forall|k: int| 0 <= k < line_count(limit, all.len()) implies #[trigger] lines_of(
            all,
            limit,
        )[k] == lines_of(stream, limit)[k] by {
            assert(line_at(all, limit, k as nat) =~= line_at(stream, limit, k as nat));
        }
        assert(lines_of(all, limit) =~= lines_of(stream, limit));
    }
}

} // verus!
