//! The hex dump engine: a session that reads a source line by line, folds
//! runs of identical lines, and hands the rendered lines to a sink.

use vstd::prelude::*;
use crate::model::{
    body_text, closing, counted_len, dump_text, head_text, lemma_beyond_limit,
    lemma_line_folded, lemma_line_shown, lemma_next_line, lemma_push_keeps,
    lemma_records_text_push, lemma_upto_is_prefix, limit_cuts, line_at, line_count, lines_of,
    records_of, records_text, records_upto, repeats, run_before, shown_len, Record,
};
use crate::render::{
    data_line, render_data_line, render_footer_line, render_header_line, render_rule_line,
    render_summary_line, rule_line, summary_line,
};
use crate::sink::{text_of, LineSink};
use crate::source::{skipped, DataSource, IoFailure};

verus! {

/// Number of bytes on one line of a dump.
pub const BYTES_PER_LINE: usize = 16;

/// What the user asks of a dump.
#[derive(Debug, Clone, Copy)]
pub struct DumpConfig {
    /// Whether the character column is shown.
    pub chars: bool,
    /// Number of leading bytes to skip before the first line.
    pub skip: usize,
    /// Whether identical lines are all shown, instead of folded into a summary.
    pub show_identical: bool,
    /// Number of bytes after which the dump stops; 0 stands for no limit.
    pub limit: usize,
}

/// Why a dump was given up.
#[derive(Debug)]
pub enum DumpError {
    /// The source failed to skip the leading bytes.
    Skip(IoFailure),
    /// The source failed to deliver a line.
    Read(IoFailure),
    /// The source has delivered more bytes than the counters of a session hold.
    Overflow,
}

/// A dump session: the configuration, where the dump stands in the stream,
/// and the two most recent lines.
pub struct Hedu {
    config: DumpConfig,
    stopped: bool,
    exhausted: bool,
    last_line_length: usize,
    current_offset: u64,
    bytes_read_total: u64,
    current: [u8; 16],
    previous: [u8; 16],
    output: Ghost<Seq<Seq<char>>>,
    stream: Ghost<Seq<u8>>,
}

/// What a session holds.
pub struct HeduView {
    /// The configuration of the dump.
    pub config: DumpConfig,
    /// Whether the byte limit has cut a line.
    pub stopped: bool,
    /// Whether the last read found the source at its end.
    pub exhausted: bool,
    /// Number of bytes that count of the line that was read last.
    pub line_len: nat,
    /// Offset in the stream of the line that was read last.
    pub offset: nat,
    /// Number of bytes read and counted so far.
    pub total: nat,
    /// The buffer that holds the line that was read last.
    pub current: Seq<u8>,
    /// The buffer that holds the line that was read before the last.
    pub previous: Seq<u8>,
    /// The lines that the session has handed to sinks.
    pub output: Seq<Seq<char>>,
    /// The bytes that the source has delivered since the dump began.
    pub stream: Seq<u8>,
}

impl HeduView {
    /// The bytes that count of the line that was read last.
    pub open spec fn line(self) -> Seq<u8> {
        self.current.take(self.line_len as int)
    }

    /// The byte limit of the session.
    pub open spec fn limit(self) -> nat {
        self.config.limit as nat
    }

    /// Whether runs of identical lines are collapsed.
    pub open spec fn collapse(self) -> bool {
        !self.config.show_identical
    }

    /// The lines of the stream that the source has delivered so far.
    pub open spec fn lines(self) -> Seq<Seq<u8>> {
        lines_of(self.stream, self.limit())
    }

    /// The counters fit together: a line has at most sixteen bytes and ends
    /// where the count of bytes read stands, which is within what the
    /// source has delivered.
    pub open spec fn wf(self) -> bool {
        &&& self.line_len <= 16
        &&& self.offset + self.line_len == self.total
        &&& self.total <= self.stream.len()
        &&& self.total <= u64::MAX
        &&& self.current.len() == 16
        &&& self.previous.len() == 16
    }

    /// Whether the session stands at the start of a stream: nothing read,
    /// nothing counted.
    pub open spec fn fresh(self) -> bool {
        &&& self.wf()
        &&& self.offset == 0
        &&& self.total == 0
        &&& self.line_len == 0
        &&& !self.stopped
        &&& !self.exhausted
        &&& self.stream.len() == 0
    }

    /// How a session stands after a dump that did not fail: the line that
    /// was read last ends the stream that the source has delivered, as far
    /// as the limit lets it count, and all lines before it were full.
    pub open spec fn ended(self) -> bool {
        &&& self.offset % 16 == 0
        &&& self.offset <= self.stream.len() <= self.offset + 16
        &&& self.exhausted <==> self.stream.len() == self.offset
        &&& self.stopped <==> limit_cuts(self.limit(), self.offset)
        &&& self.line() == self.stream.subrange(self.offset as int, self.total as int)
    }

    /// The session has just read line `k`: the lines before it were full
    /// and uncut, and the last read has delivered the rest of the stream.
    spec fn at_line(self, k: nat) -> bool {
        &&& self.wf()
        &&& 16 * k <= self.stream.len() <= 16 * k + 16
        &&& self.limit() == 0 || 16 * k <= self.limit()
        &&& self.offset == 16 * k
        &&& self.line_len == counted_len(self.limit(), 16 * k, (self.stream.len() - 16 * k) as nat)
        &&& self.exhausted <==> self.stream.len() == 16 * k
        &&& self.stopped <==> limit_cuts(self.limit(), 16 * k)
        &&& self.line() == self.stream.subrange((16 * k) as int, (16 * k + self.line_len) as int)
    }

    /// What the session has shown once it has read line `k` and rendered
    /// the lines before it: the records of those lines, and the summary
    /// that is due before line `k`.
    spec fn shown_upto(self, base: Seq<Seq<char>>, k: nat) -> bool {
        self.output == base + records_text(
            records_upto(self.lines(), self.collapse(), k as int) + closing(
                self.lines(),
                self.collapse(),
                k as int,
            ),
            self.config.chars,
        )
    }
}

impl View for Hedu {
    type V = HeduView;

    closed spec fn view(&self) -> HeduView {
        HeduView {
            config: self.config,
            stopped: self.stopped,
            exhausted: self.exhausted,
            line_len: self.last_line_length as nat,
            offset: self.current_offset as nat,
            total: self.bytes_read_total as nat,
            current: self.current@,
            previous: self.previous@,
            output: self.output@,
            stream: self.stream@,
        }
    }
}

/// A mark for what a sink with known lines held at some point, and for
/// the number of lines that the session had handed out by then.
struct SinkMark {
    held: Option<Seq<Seq<char>>>,
    from: nat,
}

/// Whether a sink with known lines has taken, since the mark, the lines
/// that the session has handed out since then.
spec fn sent<S: LineSink>(sink: &S, view: HeduView, mark: SinkMark) -> bool {
    mark.held matches Some(held) ==> sink.known() && mark.from <= view.output.len()
        && sink.taken() == held + view.output.skip(mark.from as int)
}

/// Whether a session and a source with a known stream fit together: what
/// the source has delivered and what it has yet to deliver make up
/// `initial`.
spec fn follows<D: DataSource>(view: HeduView, data: &D, initial: Seq<u8>) -> bool {
    &&& data.known()
    &&& initial == view.stream + data.pending()
}

/// Whether a source with a known stream that has delivered less than a
/// full line is at its end.
spec fn drained<D: DataSource>(view: HeduView, data: &D) -> bool {
    view.stream.len() < view.offset + 16 ==> data.pending().len() == 0
}

/// Whether two lines hold the same bytes.
pub fn same_line(a: &[u8; 16], b: &[u8; 16]) -> (same: bool)
    ensures
        same == (a@ == b@),
{
    let mut i: usize = 0;
    while i < 16
        invariant
            i <= 16,
            forall|j: int| 0 <= j < i ==> a@[j] == b@[j],
        decreases 16 - i,
    {
        if a[i] != b[i] {
            return false;
        }
        i += 1;
    }
    proof {
        assert(a@ =~= b@);
    }
    true
}

/// What a session that has just read line `k` knows of the lines of its
/// stream.
proof fn lemma_at_line(view: HeduView, k: nat)
    requires
        view.at_line(k),
    ensures
        view.lines().len() == if view.exhausted {
            k
        } else {
            k + 1
        },
        line_count(view.limit(), view.stream.len()) == view.lines().len(),
        !view.exhausted ==> view.lines()[k as int] == view.line(),
        forall|j: int|
            0 <= j < k ==> #[trigger] view.lines()[j] == view.stream.subrange(16 * j, 16 * j + 16),
        view.total == shown_len(view.limit(), view.stream.len()),
        view.line_len == 16 ==> !view.stopped && !view.exhausted && view.stream.len() == 16 * k
            + 16 && (view.limit() == 0 || 16 * (k + 1) <= view.limit()),
        view.exhausted ==> view.line_len == 0,
{
    lemma_next_line(view.stream, view.limit(), k);
    assert forall|j: int| 0 <= j < k implies #[trigger] view.lines()[j] == view.stream.subrange(
        16 * j,
        16 * j + 16,
    ) by {
        assert(view.lines()[j] == line_at(view.stream, view.limit(), j as nat));
    }
}

/// A read behind full, uncut lines brings the session to the next line and
/// adds at most one line to the lines of its stream.
proof fn lemma_read_reaches_line(before: HeduView, after: HeduView, k: nat)
    requires
        before.wf(),
        after.wf(),
        !before.stopped,
        before.total == 16 * k,
        before.stream.len() == 16 * k,
        before.limit() == 0 || 16 * k <= before.limit(),
        before.lines().len() == k,
        forall|j: int|
            0 <= j < k ==> #[trigger] before.lines()[j] == before.stream.subrange(
                16 * j,
                16 * j + 16,
            ),
        after.stream.len() <= before.stream.len() + 16,
        ({
            let got = (after.stream.len() - before.stream.len()) as nat;
            let limit = before.limit();
            &&& after.stream == before.stream + after.current.take(got as int)
            &&& after == (HeduView {
                stopped: before.stopped || limit_cuts(limit, before.total),
                exhausted: got == 0,
                line_len: counted_len(limit, before.total, got),
                offset: before.total,
                total: before.total + counted_len(limit, before.total, got),
                current: after.current,
                stream: after.stream,
                ..before
            })
        }),
    ensures
        after.at_line(k),
        after.exhausted ==> after.lines() == before.lines(),
        !after.exhausted ==> after.lines() == before.lines().push(after.line()),
{
    let got = (after.stream.len() - before.stream.len()) as nat;
    let len = after.line_len;
    lemma_next_line(after.stream, after.limit(), k);
    assert(after.line() =~= after.stream.subrange((16 * k) as int, (16 * k + len) as int));
    assert(after.at_line(k));
    lemma_at_line(after, k);
    if after.exhausted {
        assert(after.stream =~= before.stream);
    } else {
        assert forall|j: int| 0 <= j < k implies after.lines()[j] == before.lines()[j] by {
            assert(after.stream.subrange(16 * j, 16 * j + 16) =~= before.stream.subrange(
                16 * j,
                16 * j + 16,
            ));
        }
        assert(after.lines() =~= before.lines().push(after.line()));
    }
}

/// The data line of a line that is not folded completes the records of
/// the lines up to and with that line.
proof fn lemma_show_line(
    lines: Seq<Seq<u8>>,
    collapse: bool,
    chars: bool,
    base: Seq<Seq<char>>,
    out: Seq<Seq<char>>,
    k: int,
)
    requires
        0 <= k < lines.len(),
        !(collapse && repeats(lines, k)),
        out == base + records_text(
            records_upto(lines, collapse, k) + closing(lines, collapse, k),
            chars,
        ),
    ensures
        out.push(data_line((16 * k) as nat, lines[k], chars)) == base + records_text(
            records_upto(lines, collapse, k + 1),
            chars,
        ),
        out.push(data_line((16 * k) as nat, lines[k], chars)) == base + records_text(
            records_upto(lines, collapse, k + 1) + closing(lines, collapse, k + 1),
            chars,
        ),
        closing(lines, collapse, k + 1) == Seq::<Record>::empty(),
        collapse ==> run_before(lines, k + 1) == 0,
{
    lemma_line_shown(lines, collapse, k);
    let before = records_upto(lines, collapse, k) + closing(lines, collapse, k);
    let data = Record::Data { offset: (16 * k) as nat, bytes: lines[k] };
    lemma_records_text_push(before, data, chars);
    assert((base + records_text(before, chars)).push(data_line((16 * k) as nat, lines[k], chars))
        =~= base + records_text(before, chars).push(data_line((16 * k) as nat, lines[k], chars)));
    assert(records_upto(lines, collapse, k + 1) + Seq::<Record>::empty() =~= records_upto(
        lines,
        collapse,
        k + 1,
    ));
}

/// The summary of the run that ends before line `j` completes what is
/// shown before line `j`.
proof fn lemma_show_summary(
    lines: Seq<Seq<u8>>,
    chars: bool,
    base: Seq<Seq<char>>,
    out: Seq<Seq<char>>,
    j: int,
)
    requires
        run_before(lines, j) >= 1,
        out == base + records_text(records_upto(lines, true, j), chars),
    ensures
        out.push(summary_line(run_before(lines, j) + 1, chars)) == base + records_text(
            records_upto(lines, true, j) + closing(lines, true, j),
            chars,
        ),
{
    let before = records_upto(lines, true, j);
    let note = Record::Repeat { count: run_before(lines, j) + 1 };
    lemma_records_text_push(before, note, chars);
    assert(before + closing(lines, true, j) =~= before.push(note));
    assert((base + records_text(before, chars)).push(
        summary_line(run_before(lines, j) + 1, chars),
    ) =~= base + records_text(before, chars).push(
        summary_line(run_before(lines, j) + 1, chars),
    ));
}

/// What is shown of the lines so far, without the summary of a run at
/// their end, is a prefix of the dump of these lines.
proof fn lemma_shown_is_prefix(
    lines: Seq<Seq<u8>>,
    collapse: bool,
    chars: bool,
    base: Seq<Seq<char>>,
    out: Seq<Seq<char>>,
)
    requires
        out == base + records_text(records_upto(lines, collapse, lines.len() as int), chars),
    ensures
        base.is_prefix_of(out),
        out.is_prefix_of(base + records_text(records_of(lines, collapse), chars)),
{
    lemma_upto_is_prefix(lines, collapse, chars);
    let a = records_text(records_upto(lines, collapse, lines.len() as int), chars);
    let b = records_text(records_of(lines, collapse), chars);
    assert(base =~= out.subrange(0, base.len() as int));
    assert(out =~= (base + b).subrange(0, out.len() as int)) by {
        assert(a == b.subrange(0, a.len() as int));
    }
}

impl Hedu {
    /// A session for a dump with the given configuration.
    pub fn new(chars: bool, skip: usize, show_identical: bool, limit: usize) -> (h: Self)
        ensures
            h@.config == (DumpConfig { chars, skip, show_identical, limit }),
            h@.fresh(),
            h@.output == Seq::<Seq<char>>::empty(),
    {
        let h = Hedu {
            config: DumpConfig { chars, skip, show_identical, limit },
            stopped: false,
            exhausted: false,
            last_line_length: 0,
            current_offset: 0,
            bytes_read_total: 0,
            current: [0u8; 16],
            previous: [0u8; 16],
            output: Ghost(Seq::empty()),
            stream: Ghost(Seq::empty()),
        };
        h
    }

    /// Hands a finished line to the sink.
    pub fn display<S: LineSink>(&mut self, sink: &mut S, line: String)
        ensures
            final(self)@ == (HeduView { output: old(self)@.output.push(line@), ..old(self)@ }),
            old(sink).known() ==> final(sink).known() && final(sink).taken() == old(sink).taken().push(line@),
    {
        sink.put(line);
        self.output = Ghost(self.output@.push(line@));
    }

    /// Hands a finished line to the sink, and keeps the mark of the sink.
    fn emit<S: LineSink>(&mut self, sink: &mut S, line: String, Ghost(mark): Ghost<SinkMark>)
        requires
            sent(old(sink), old(self)@, mark),
        ensures
            final(self)@ == (HeduView { output: old(self)@.output.push(line@), ..old(self)@ }),
            sent(final(sink), final(self)@, mark),
    {
        self.display(sink, line);
        proof {
            if mark.held is Some {
                assert(final(self)@.output.skip(mark.from as int) =~= old(self)@.output.skip(
                    mark.from as int,
                ).push(line@));
                assert(final(sink).taken() =~= mark.held->0 + final(self)@.output.skip(
                    mark.from as int,
                ));
            }
        }
    }

    /// Keeps the line that was read last as the previous line, so that the
    /// next read can be held against it.
    fn toggle(&mut self)
        ensures
            final(self)@ == (HeduView { previous: old(self)@.current, ..old(self)@ }),
    {
        self.previous = self.current;
    }

    /// Accounts for a read that has delivered the first `got` bytes of the
    /// current buffer: the limit cuts the line where it falls into it, and
    /// the counters move on by the bytes that count.
    fn adjust_counters(&mut self, got: usize)
        requires
            got <= 16,
            old(self)@.wf(),
            old(self)@.total + got <= u64::MAX,
        ensures
            final(self)@.wf(),
            final(self)@ == (HeduView {
                stopped: old(self)@.stopped || limit_cuts(old(self)@.limit(), old(self)@.total),
                exhausted: got == 0,
                line_len: counted_len(old(self)@.limit(), old(self)@.total, got as nat),
                offset: old(self)@.total,
                total: old(self)@.total + counted_len(
                    old(self)@.limit(),
                    old(self)@.total,
                    got as nat,
                ),
                stream: old(self)@.stream + old(self)@.current.take(got as int),
                ..old(self)@
            }),
    {
        let mut len = got;
        let limit = self.config.limit;
        if limit != 0 && (limit as u128) <= (self.bytes_read_total as u128) + 15 {
            if limit % BYTES_PER_LINE < len {
                len = limit % BYTES_PER_LINE;
            }
            self.stopped = true;
        }
        self.exhausted = got == 0;
        self.current_offset = self.bytes_read_total;
        self.last_line_length = len;
        self.bytes_read_total = self.bytes_read_total + len as u64;
        self.stream = Ghost(self.stream@ + self.current@.take(got as int));
    }

    /// Reads the next line from the source into the current buffer and
    /// accounts for it. Of a read that reports more than sixteen bytes,
    /// sixteen count.
    fn rd_data<D: DataSource>(&mut self, data: &mut D) -> (res: Result<(), DumpError>)
        requires
            old(self)@.wf(),
        ensures
            final(self)@.wf(),
            old(data).known() ==> {
                &&& final(data).known()
                &&& final(data).seekable() == old(data).seekable()
                &&& old(data).pending().len() <= u64::MAX
                &&& res is Ok ==> old(data).pending() == final(self)@.stream.skip(
                    old(self)@.stream.len() as int,
                ) + final(data).pending()
                &&& !(res matches Err(DumpError::Read(_)))
                &&& res is Err ==> old(self)@.total + old(data).pending().len() > u64::MAX
                &&& res is Ok ==> final(self)@.stream.len() - old(self)@.stream.len()
                    == if old(data).pending().len() < 16 {
                    old(data).pending().len()
                } else {
                    16
                }
                &&& res is Ok && old(self)@.total == old(self)@.stream.len() ==> drained(
                    final(self)@,
                    final(data),
                )
            },
            match res {
                Ok(()) => {
                    let got = (final(self)@.stream.len() - old(self)@.stream.len()) as nat;
                    let limit = old(self)@.limit();
                    &&& old(self)@.stream.len() <= final(self)@.stream.len()
                    &&& final(self)@.stream.len() <= old(self)@.stream.len() + 16
                    &&& final(self)@.stream == old(self)@.stream + final(self)@.current.take(
                        got as int,
                    )
                    &&& final(self)@ == (HeduView {
                        stopped: old(self)@.stopped || limit_cuts(limit, old(self)@.total),
                        exhausted: got == 0,
                        line_len: counted_len(limit, old(self)@.total, got),
                        offset: old(self)@.total,
                        total: old(self)@.total + counted_len(limit, old(self)@.total, got),
                        current: final(self)@.current,
                        stream: final(self)@.stream,
                        ..old(self)@
                    })
                },
                Err(e) => {
                    &&& e is Read || e is Overflow
                    &&& e is Overflow ==> old(self)@.total + 16 > u64::MAX
                    &&& final(self)@ == (HeduView {
                        current: final(self)@.current,
                        ..old(self)@
                    })
                },
            },
    {
        match data.read(&mut self.current) {
            Ok(n) => {
                let got: usize = if n > BYTES_PER_LINE { BYTES_PER_LINE } else { n };
                if got as u64 > u64::MAX - self.bytes_read_total {
                    return Err(DumpError::Overflow);
                }
                let ghost chunk = self.current@.take(got as int);
                self.adjust_counters(got);
                proof {
                    assert((old(self)@.stream + chunk).skip(old(self)@.stream.len() as int)
                        =~= chunk);
                    if old(data).known() {
                        let pending = old(data).pending();
                        assert(pending =~= pending.take(n as int) + pending.skip(n as int));
                    }
                }
                Ok(())
            },
            Err(e) => Err(DumpError::Read(e)),
        }
    }

    /// Keeps the full line that was read last as the previous line and
    /// reads the line behind it.
    fn next_line<D: DataSource>(
        &mut self,
        data: &mut D,
        Ghost(k): Ghost<nat>,
        Ghost(initial): Ghost<Option<Seq<u8>>>,
    ) -> (res: Result<(), DumpError>)
        requires
            old(self)@.at_line(k),
            old(self)@.line_len == 16,
            initial matches Some(all) ==> follows(old(self)@, old(data), all) && all.len()
                <= u64::MAX,
        ensures
            final(self)@.config == old(self)@.config,
            final(self)@.output == old(self)@.output,
            final(self)@.wf(),
            old(self)@.lines().len() == k + 1,
            old(self)@.lines()[k as int] == old(self)@.current,
            initial matches Some(all) ==> {
                &&& res is Ok
                &&& follows(final(self)@, final(data), all)
                &&& drained(final(self)@, final(data))
                &&& final(data).seekable() == old(data).seekable()
            },
            match res {
                Ok(()) => {
                    &&& final(self)@.at_line(k + 1)
                    &&& final(self)@.previous == old(self)@.current
                    &&& final(self)@.exhausted ==> final(self)@.lines() == old(self)@.lines()
                    &&& !final(self)@.exhausted ==> {
                        let line = final(self)@.line();
                        final(self)@.lines() == old(self)@.lines().push(line)
                    }
                },
                Err(e) => {
                    &&& e is Read || e is Overflow
                    &&& final(self)@.stream == old(self)@.stream
                },
            },
    {
        let ghost full = self@;
        proof {
            lemma_at_line(full, k);
            assert(full.line() =~= full.current);
        }
        self.toggle();
        let ghost before = self@;
        let res = self.rd_data(data);
        proof {
            if initial is Some {
                let all = initial->0;
                assert(self@.stream =~= before.stream + self@.stream.skip(
                    before.stream.len() as int,
                )) by {
                    if res is Err {
                        assert(self@.stream.skip(before.stream.len() as int) =~= Seq::<
                            u8,
                        >::empty());
                    }
                }
                assert(res is Ok);
                assert(all =~= self@.stream + data.pending());
            }
            if res is Ok {
                lemma_read_reaches_line(before, self@, k + 1);
            }
        }
        res
    }

    /// Reads on while the lines repeat the previous line, counts the lines
    /// of the run, and hands one summary line to the output. The line that
    /// ends the run stays in the current buffer, read and not yet
    /// rendered; its number is returned.
    fn skip_lines<D: DataSource, S: LineSink>(
        &mut self,
        data: &mut D,
        sink: &mut S,
        Ghost(k): Ghost<nat>,
        Ghost(initial): Ghost<Option<Seq<u8>>>,
        Ghost(base): Ghost<Seq<Seq<char>>>,
        Ghost(mark): Ghost<SinkMark>,
    ) -> (res: Result<Ghost<nat>, DumpError>)
        requires
            sent(old(sink), old(self)@, mark),
            old(self)@.at_line(k),
            k >= 1,
            old(self)@.collapse(),
            old(self)@.line_len == 16,
            old(self)@.current == old(self)@.previous,
            old(self)@.lines()[k - 1] == old(self)@.previous,
            run_before(old(self)@.lines(), k as int) == 0,
            old(self)@.output == base + records_text(
                records_upto(old(self)@.lines(), true, k as int),
                old(self)@.config.chars,
            ),
            initial matches Some(all) ==> follows(old(self)@, old(data), all) && all.len()
                <= u64::MAX,
            !old(self)@.exhausted,
        ensures
            sent(final(sink), final(self)@, mark),
            final(self)@.config == old(self)@.config,
            final(self)@.wf(),
            initial matches Some(all) ==> {
                &&& res is Ok
                &&& follows(final(self)@, final(data), all)
                &&& drained(final(self)@, final(data))
                &&& final(data).seekable() == old(data).seekable()
            },
            match res {
                Ok(j) => {
                    &&& j@ > k
                    &&& final(self)@.at_line(j@)
                    &&& final(self)@.shown_upto(base, j@)
                    &&& !(!final(self)@.exhausted && repeats(final(self)@.lines(), j@ as int))
                },
                Err(e) => {
                    &&& e is Read || e is Overflow
                    &&& base.is_prefix_of(final(self)@.output)
                    &&& final(self)@.output.is_prefix_of(
                        base + records_text(
                            records_of(final(self)@.lines(), true),
                            old(self)@.config.chars,
                        ),
                    )
                },
            },
    {
        let ghost chars = self@.config.chars;
        let ghost mut j: nat = k;
        let mut count: u64 = 1;
        while self.last_line_length == BYTES_PER_LINE && same_line(&self.current, &self.previous)
            invariant
                sent(sink, self@, mark),
                self@.at_line(j),
                self@.config == old(self)@.config,
                self@.output == old(self)@.output,
                self@.collapse(),
                chars == self@.config.chars,
                initial matches Some(all) ==> follows(self@, data, all) && data.seekable()
                    == old(data).seekable() && (j > k ==> drained(self@, data)) && all.len()
                    <= u64::MAX,
                1 <= k <= j,
                j == k ==> self@ == old(self)@,
                count == j - k + 1,
                self@.lines().len() >= j,
                self@.lines()[j - 1] == self@.previous,
                run_before(self@.lines(), j as int) == j - k,
                self@.output == base + records_text(
                    records_upto(self@.lines(), true, j as int),
                    chars,
                ),
            decreases u64::MAX - 16 * j,
        {
            let ghost lines = self@.lines();
            proof {
                lemma_at_line(self@, j);
                assert(self@.line() =~= self@.current);
                lemma_line_folded(lines, true, j as int);
            }
            count = count + 1;
            match self.next_line(data, Ghost(j), Ghost(initial)) {
                Err(e) => {
                    proof {
                        lemma_shown_is_prefix(lines, true, chars, base, self@.output);
                    }
                    return Err(e);
                },
                Ok(()) => {},
            }
            proof {
                if !self@.exhausted {
                    lemma_push_keeps(lines, self@.line(), true, j as int + 1);
                }
                j = j + 1;
            }
        }
        proof {
            lemma_at_line(self@, j);
            if !self@.exhausted && self@.line_len == 16 {
                assert(self@.line() =~= self@.current);
            }
            lemma_show_summary(self@.lines(), chars, base, self@.output, j as int);
        }
        let line = render_summary_line(count, self.config.chars);
        self.emit(sink, line, Ghost(mark));
        Ok(Ghost(j))
    }

    /// Puts the session back to the start of a stream.
    fn rewind(&mut self)
        ensures
            final(self)@.fresh(),
            final(self)@.config == old(self)@.config,
            final(self)@.output == old(self)@.output,
    {
        self.stopped = false;
        self.exhausted = false;
        self.last_line_length = 0;
        self.current_offset = 0;
        self.bytes_read_total = 0;
        self.stream = Ghost(Seq::empty());
    }

    /// Starts a dump: puts the session back to the start of a stream and
    /// hands the header and a rule to the output.
    fn begin<S: LineSink>(&mut self, sink: &mut S, Ghost(mark): Ghost<SinkMark>)
        requires
            sent(old(sink), old(self)@, mark),
        ensures
            sent(final(sink), final(self)@, mark),
            final(self)@.fresh(),
            final(self)@.config == old(self)@.config,
            final(self)@.output == old(self)@.output + head_text(old(self)@.config.chars),
    {
        self.rewind();
        let header = render_header_line(self.config.chars);
        self.emit(sink, header, Ghost(mark));
        let rule = render_rule_line(self.config.chars);
        self.emit(sink, rule, Ghost(mark));
        proof {
            assert(final(self)@.output =~= old(self)@.output + head_text(old(self)@.config.chars));
        }
    }

    /// Ends a dump: hands a rule and the footer with the number of bytes
    /// read to the output.
    fn finish<S: LineSink>(&mut self, sink: &mut S, Ghost(mark): Ghost<SinkMark>)
        requires
            old(self)@.wf(),
            sent(old(sink), old(self)@, mark),
        ensures
            sent(final(sink), final(self)@, mark),
            final(self)@ == (HeduView {
                output: old(self)@.output + crate::model::foot_text(
                    old(self)@.total,
                    old(self)@.config.chars,
                ),
                ..old(self)@
            }),
    {
        let rule = render_rule_line(self.config.chars);
        self.emit(sink, rule, Ghost(mark));
        let footer = render_footer_line(self.bytes_read_total, self.config.chars);
        self.emit(sink, footer, Ghost(mark));
        proof {
            assert(final(self)@.output =~= old(self)@.output + crate::model::foot_text(
                old(self)@.total,
                old(self)@.config.chars,
            ));
        }
    }

    /// Reads the stream line by line to its end or to the byte limit, and
    /// hands the body of the dump to the output.
    fn stream_lines<D: DataSource, S: LineSink>(
        &mut self,
        data: &mut D,
        sink: &mut S,
        Ghost(initial): Ghost<Option<Seq<u8>>>,
        Ghost(mark): Ghost<SinkMark>,
    ) -> (res: Result<(), DumpError>)
        requires
            sent(old(sink), old(self)@, mark),
            old(self)@.fresh(),
            initial matches Some(all) ==> follows(old(self)@, old(data), all),
        ensures
            sent(final(sink), final(self)@, mark),
            final(self)@.config == old(self)@.config,
            final(self)@.wf(),
            initial matches Some(all) ==> {
                &&& res is Ok
                &&& follows(final(self)@, final(data), all)
                &&& final(data).seekable() == old(data).seekable()
                &&& !final(self)@.stopped ==> final(data).pending().len() == 0
                &&& final(data).pending().len() == 0 || (old(self)@.limit() > 0
                    && final(self)@.stream.len() > old(self)@.limit())
            },
            match res {
                Ok(()) => {
                    &&& final(self)@.output == old(self)@.output + body_text(
                        final(self)@.stream,
                        old(self)@.limit(),
                        old(self)@.collapse(),
                        old(self)@.config.chars,
                    )
                    &&& final(self)@.total == shown_len(
                        old(self)@.limit(),
                        final(self)@.stream.len(),
                    )
                    &&& final(self)@.stream.len() <= 16 * line_count(
                        old(self)@.limit(),
                        final(self)@.stream.len(),
                    )
                    &&& final(self)@.exhausted || final(self)@.line_len < 16
                    &&& final(self)@.ended()
                },
                Err(e) => {
                    &&& e is Read || e is Overflow
                    &&& old(self)@.output.is_prefix_of(final(self)@.output)
                    &&& final(self)@.output.is_prefix_of(
                        old(self)@.output + body_text(
                            final(self)@.stream,
                            old(self)@.limit(),
                            old(self)@.collapse(),
                            old(self)@.config.chars,
                        ),
                    )
                },
            },
    {
        let ghost chars = self@.config.chars;
        let ghost limit = self@.limit();
        let ghost collapse = self@.collapse();
        let ghost base = self@.output;
        let ghost mut k: nat = 0;
        let ghost before = self@;
        match self.rd_data(data) {
            Err(e) => {
                proof {
                    assert(base =~= (base + body_text(
                        self@.stream,
                        limit,
                        collapse,
                        chars,
                    )).subrange(0, base.len() as int));
                }
                return Err(e);
            },
            Ok(()) => {},
        }
        proof {
            assert(before.lines() =~= Seq::<Seq<u8>>::empty());
            lemma_read_reaches_line(before, self@, 0);
            assert(records_upto(self@.lines(), collapse, 0) + closing(self@.lines(), collapse, 0)
                =~= Seq::<Record>::empty());
            assert(base + records_text(Seq::<Record>::empty(), chars) =~= base);
            if initial is Some {
                assert(self@.stream =~= before.stream + self@.stream.skip(
                    before.stream.len() as int,
                ));
                assert(initial->0 =~= self@.stream + data.pending());
            }
        }
        let mut done = false;
        while !done
            invariant
                sent(sink, self@, mark),
                self@.config == old(self)@.config,
                self@.wf(),
                chars == self@.config.chars,
                limit == self@.limit(),
                collapse == self@.collapse(),
                base == old(self)@.output,
                initial matches Some(all) ==> follows(self@, data, all) && data.seekable()
                    == old(data).seekable() && all.len() <= u64::MAX,
                !done && initial is Some ==> drained(self@, data),
                !done ==> self@.at_line(k),
                !done ==> self@.shown_upto(base, k),
                !done ==> !(collapse && !self@.exhausted && repeats(self@.lines(), k as int)),
                done ==> self@.output == base + body_text(self@.stream, limit, collapse, chars),
                done ==> self@.total == shown_len(limit, self@.stream.len()),
                done ==> self@.stream.len() <= 16 * line_count(limit, self@.stream.len()),
                done ==> self@.exhausted || self@.line_len < 16,
                done ==> self@.ended(),
                done && initial is Some ==> (!self@.stopped ==> data.pending().len() == 0),
                done && initial is Some ==> data.pending().len() == 0 || (limit > 0
                    && self@.stream.len() > limit),
                16 * k <= u64::MAX,
            decreases u64::MAX - 16 * k + if done { 0nat } else { 1nat },
        {
            let ghost lines = self@.lines();
            let ghost shown = self@.output;
            proof {
                lemma_at_line(self@, k);
            }
            if self.exhausted {
                proof {
                    assert(records_of(lines, collapse) == records_upto(lines, collapse, k as int)
                        + closing(lines, collapse, k as int));
                }
                done = true;
            } else if self.stopped || self.last_line_length < BYTES_PER_LINE {
                self.dump_a_line(sink, Ghost(mark));
                proof {
                    lemma_show_line(lines, collapse, chars, base, shown, k as int);
                    lemma_next_line(self@.stream, limit, k);
                }
                done = true;
            } else {
                self.dump_a_line(sink, Ghost(mark));
                proof {
                    lemma_show_line(lines, collapse, chars, base, shown, k as int);
                }
                match self.next_line(data, Ghost(k), Ghost(initial)) {
                    Err(e) => {
                        proof {
                            lemma_shown_is_prefix(lines, collapse, chars, base, self@.output);
                        }
                        return Err(e);
                    },
                    Ok(()) => {},
                }
                proof {
                    if !self@.exhausted {
                        lemma_push_keeps(lines, self@.line(), collapse, k as int + 1);
                    }
                    lemma_at_line(self@, k + 1);
                }
                if !self.config.show_identical && self.last_line_length == BYTES_PER_LINE
                    && same_line(&self.current, &self.previous) {
                    proof {
                        assert(records_upto(self@.lines(), true, k as int + 1) + Seq::<
                            Record,
                        >::empty() =~= records_upto(self@.lines(), true, k as int + 1));
                    }
                    match self.skip_lines(
                        data,
                        sink,
                        Ghost(k + 1),
                        Ghost(initial),
                        Ghost(base),
                        Ghost(mark),
                    ) {
                        Err(e) => {
                            return Err(e);
                        },
                        Ok(j) => {
                            proof {
                                k = j@;
                            }
                        },
                    }
                } else {
                    proof {
                        if !self@.exhausted && self@.line_len == 16 {
                            assert(self@.line() =~= self@.current);
                        }
                        k = k + 1;
                    }
                }
            }
        }
        Ok(())
    }

    /// Dumps the source: the header, one line for every line of the stream
    /// or one summary for a run of identical lines, and the footer with the
    /// number of bytes read. The leading bytes that the configuration asks
    /// to skip are skipped first, where the source can do that. Each line
    /// goes to the sink as soon as it is rendered; what the sink has taken
    /// before a failure stays there.
    ///
    /// The dump is that of the bytes that the source has delivered. Of a
    /// source with a known stream these are the bytes that it held behind
    /// the skipped ones, as far as the dump shows them, and the dump does
    /// not fail. A sink with known lines holds the lines of the dump behind
    /// what it held before.
    pub fn dump<D: DataSource, S: LineSink>(&mut self, data: &mut D, sink: &mut S) -> (res:
        Result<(), DumpError>)
        ensures
            final(self)@.config == old(self)@.config,
            final(self)@.wf(),
            old(self)@.output.is_prefix_of(final(self)@.output),
            old(sink).known() ==> final(sink).known() && final(sink).taken() == old(sink).taken()
                + final(self)@.output.skip(old(self)@.output.len() as int),
            old(data).known() ==> {
                let all = skipped(
                    old(data).pending(),
                    old(data).seekable(),
                    old(self)@.config.skip as nat,
                );
                &&& res is Ok
                &&& final(data).known()
                &&& final(data).seekable() == old(data).seekable()
                &&& all == final(self)@.stream + final(data).pending()
                &&& !final(self)@.stopped ==> final(data).pending().len() == 0
                &&& final(data).pending().len() == 0 || (old(self)@.limit() > 0
                    && final(self)@.stream.len() > old(self)@.limit())
                &&& final(self)@.total == shown_len(old(self)@.limit(), all.len())
                &&& final(self)@.output == old(self)@.output + dump_text(
                    all,
                    old(self)@.limit(),
                    old(self)@.collapse(),
                    old(self)@.config.chars,
                )
            },
            match res {
                Ok(()) => {
                    &&& final(self)@.output == old(self)@.output + dump_text(
                        final(self)@.stream,
                        old(self)@.limit(),
                        old(self)@.collapse(),
                        old(self)@.config.chars,
                    )
                    &&& old(sink).known() ==> final(sink).taken() == old(sink).taken() + dump_text(
                        final(self)@.stream,
                        old(self)@.limit(),
                        old(self)@.collapse(),
                        old(self)@.config.chars,
                    )
                    &&& final(self)@.total == shown_len(
                        old(self)@.limit(),
                        final(self)@.stream.len(),
                    )
                    &&& final(self)@.stream.len() <= 16 * line_count(
                        old(self)@.limit(),
                        final(self)@.stream.len(),
                    )
                    &&& final(self)@.exhausted || final(self)@.line_len < 16
                    &&& final(self)@.ended()
                },
                Err(DumpError::Skip(_)) => {
                    &&& old(self)@.config.skip > 0
                    &&& final(self)@.stream.len() == 0
                    &&& final(self)@.output == old(self)@.output + head_text(
                        old(self)@.config.chars,
                    )
                },
                Err(_) => {
                    &&& (old(self)@.output + head_text(old(self)@.config.chars)).is_prefix_of(
                        final(self)@.output,
                    )
                    &&& final(self)@.output.is_prefix_of(
                        old(self)@.output + head_text(old(self)@.config.chars) + body_text(
                            final(self)@.stream,
                            old(self)@.limit(),
                            old(self)@.collapse(),
                            old(self)@.config.chars,
                        ),
                    )
                },
            },
    {
        let ghost chars = self@.config.chars;
        let ghost limit = self@.limit();
        let ghost collapse = self@.collapse();
        let ghost mark = SinkMark {
            held: if sink.known() {
                Some(sink.taken())
            } else {
                None
            },
            from: self@.output.len(),
        };
        proof {
            assert(sink.taken() + self@.output.skip(self@.output.len() as int) =~= sink.taken());
        }
        self.begin(sink, Ghost(mark));
        if self.config.skip > 0 {
            match data.skip(self.config.skip) {
                Err(e) => {
                    return Err(DumpError::Skip(e));
                },
                Ok(()) => {},
            }
        }
        let ghost initial: Option<Seq<u8>> = if old(data).known() {
            Some(data.pending())
        } else {
            None
        };
        proof {
            if initial is Some {
                assert(initial->0 =~= self@.stream + data.pending());
                assert(old(data).pending().skip(0) =~= old(data).pending());
            }
        }
        match self.stream_lines(data, sink, Ghost(initial), Ghost(mark)) {
            Err(e) => {
                return Err(e);
            },
            Ok(()) => {},
        }
        self.finish(sink, Ghost(mark));
        proof {
            assert(final(self)@.output =~= old(self)@.output + dump_text(
                final(self)@.stream,
                limit,
                collapse,
                chars,
            ));
            assert(final(self)@.output.skip(old(self)@.output.len() as int) =~= dump_text(
                final(self)@.stream,
                limit,
                collapse,
                chars,
            ));
            if initial is Some {
                lemma_beyond_limit(final(self)@.stream, data.pending(), limit, collapse, chars);
            }
        }
        Ok(())
    }

    /// Hands the rule of the frame to the sink: 80 characters wide with
    /// the character column, else 59.
    pub fn sep<S: LineSink>(&mut self, sink: &mut S)
        ensures
            final(self)@ == (HeduView {
                output: old(self)@.output.push(rule_line(old(self)@.config.chars)),
                ..old(self)@
            }),
            old(sink).known() ==> final(sink).known() && final(sink).taken() == old(sink).taken().push(rule_line(old(self)@.config.chars)),
    {
        let rule = render_rule_line(self.config.chars);
        self.display(sink, rule);
    }

    /// Hands a line that holds one line break to the sink.
    pub fn newline<S: LineSink>(&mut self, sink: &mut S)
        ensures
            final(self)@ == (HeduView {
                output: old(self)@.output.push(seq!['\n']),
                ..old(self)@
            }),
            old(sink).known() ==> final(sink).known() && final(sink).taken() == old(sink).taken().push(seq!['\n']),
    {
        let mut line = String::new();
        line.push('\n');
        proof {
            assert(line@ =~= seq!['\n']);
        }
        self.display(sink, line);
    }

    /// The configuration of the session.
    pub fn config(&self) -> (config: DumpConfig)
        ensures
            config == self@.config,
    {
        self.config
    }

    /// Offset in the stream of the line that was read last.
    pub fn current_offset(&self) -> (offset: u64)
        ensures
            offset == self@.offset,
    {
        self.current_offset
    }

    /// Number of bytes read and counted so far.
    pub fn bytes_read_total(&self) -> (total: u64)
        ensures
            total == self@.total,
    {
        self.bytes_read_total
    }

    /// Number of bytes that count of the line that was read last.
    pub fn last_line_length(&self) -> (len: usize)
        ensures
            len == self@.line_len,
    {
        self.last_line_length
    }

    /// Whether the byte limit has cut a line.
    pub fn stopped(&self) -> (stopped: bool)
        ensures
            stopped == self@.stopped,
    {
        self.stopped
    }

    /// Renders the line that was read last and hands it to the output.
    fn dump_a_line<S: LineSink>(&mut self, sink: &mut S, Ghost(mark): Ghost<SinkMark>)
        requires
            old(self)@.wf(),
            sent(old(sink), old(self)@, mark),
        ensures
            sent(final(sink), final(self)@, mark),
            final(self)@ == (HeduView {
                output: old(self)@.output.push(
                    data_line(old(self)@.offset, old(self)@.line(), old(self)@.config.chars),
                ),
                ..old(self)@
            }),
    {
        let line = render_data_line(
            self.current_offset,
            &self.current,
            self.last_line_length,
            self.config.chars,
        );
        self.emit(sink, line, Ghost(mark));
    }
}

/// All lines of the dump of `stream` under a configuration.
pub open spec fn dump_of(stream: Seq<u8>, config: DumpConfig) -> Seq<Seq<char>> {
    dump_text(stream, config.limit as nat, !config.show_identical, config.chars)
}

/// The lines of the dump of `stream` under a configuration, without the
/// lines below the body.
pub open spec fn shown_of(stream: Seq<u8>, config: DumpConfig) -> Seq<Seq<char>> {
    head_text(config.chars) + body_text(
        stream,
        config.limit as nat,
        !config.show_identical,
        config.chars,
    )
}

/// Dumps the source in a session of its own. Returns the lines that were
/// rendered, also where a failure has ended the dump, and how the dump
/// ended. After a dump that did not fail the lines are the dump of the
/// bytes that the source has delivered; of a source with a known stream
/// these are the bytes that it held behind the skipped ones.
pub fn dump<D: DataSource>(data: &mut D, config: DumpConfig) -> (res: (
    Vec<String>,
    Result<(), DumpError>,
))
    ensures
        old(data).known() ==> {
            let all = skipped(old(data).pending(), old(data).seekable(), config.skip as nat);
            let left = final(data).pending();
            &&& final(data).known()
            &&& final(data).seekable() == old(data).seekable()
            &&& res.1 is Ok
            &&& text_of(res.0@) == dump_of(all, config)
            &&& left.len() <= all.len()
            &&& left == all.skip(all.len() - left.len())
            &&& left.len() == 0 || (config.limit > 0 && all.len() - left.len() > config.limit)
        },
        res.1 is Ok ==> exists|stream: Seq<u8>|
            text_of(res.0@) == #[trigger] dump_of(stream, config),
        res.1 is Err ==> head_text(config.chars).is_prefix_of(text_of(res.0@)),
        res.1 is Err ==> exists|stream: Seq<u8>|
            text_of(res.0@).is_prefix_of(#[trigger] shown_of(stream, config)),
        res.1 matches Err(DumpError::Skip(_)) ==> config.skip > 0 && text_of(res.0@) == head_text(
            config.chars,
        ),
{
    let mut session = Hedu::new(config.chars, config.skip, config.show_identical, config.limit);
    let mut lines: Vec<String> = Vec::new();
    let outcome = session.dump(data, &mut lines);
    proof {
        let whole = session@.output;
        let stream = session@.stream;
        let none = Seq::<Seq<char>>::empty();
        assert(text_of(Seq::<String>::empty()) =~= none);
        assert(whole.skip(0) =~= whole);
        assert(none + whole =~= whole);
        assert(none + head_text(config.chars) =~= head_text(config.chars));
        if outcome is Err {
            assert(none + head_text(config.chars) + body_text(
                stream,
                config.limit as nat,
                !config.show_identical,
                config.chars,
            ) =~= shown_of(stream, config));
            if outcome matches Err(DumpError::Skip(_)) {
                assert(text_of(lines@) =~= (head_text(config.chars) + body_text(
                    stream,
                    config.limit as nat,
                    !config.show_identical,
                    config.chars,
                )).subrange(0, 2));
            }
            assert(text_of(lines@).is_prefix_of(shown_of(stream, config)));
        }
        if outcome is Ok {
            assert(none + dump_of(stream, config) =~= dump_of(stream, config));
            assert(text_of(lines@) == dump_of(stream, config));
            if old(data).known() {
                let all = skipped(old(data).pending(), old(data).seekable(), config.skip as nat);
                assert(none + dump_of(all, config) =~= dump_of(all, config));
                assert(data.pending() =~= all.skip(all.len() - data.pending().len()));
            }
        }
    }
    (lines, outcome)
}

} // verus!
