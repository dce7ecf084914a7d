use libpt::hedu::{dump, DumpConfig, DumpError, Hedu};
use libpt::sink::LineSink;
use libpt::source::{DataSource, IoFailure, MemorySource};

fn pad(text: &str, width: usize) -> String {
    let mut s = String::from(text);
    while s.chars().count() < width {
        s.push(' ');
    }
    s
}

fn config(chars: bool, skip: usize, show_identical: bool, limit: usize) -> DumpConfig {
    DumpConfig { chars, skip, show_identical, limit }
}

fn dump_bytes(input: &[u8], cfg: DumpConfig) -> Vec<String> {
    let mut source = MemorySource::new(input.to_vec(), true);
    let (lines, outcome) = dump(&mut source, cfg);
    outcome.unwrap();
    lines
}

/// The lines between the two rules.
fn body(lines: &[String]) -> Vec<String> {
    assert!(lines.len() >= 4);
    lines[2..lines.len() - 2].to_vec()
}

fn is_summary(line: &str) -> bool {
    line.starts_with("^^^^^^^^")
}

/// The hex column of a data line: the 49 characters behind the break.
fn hex_column(line: &str) -> String {
    line.chars().skip(11).take(49).collect()
}

fn parse_hex_column(column: &str) -> Vec<u8> {
    column
        .split_whitespace()
        .map(|pair| u8::from_str_radix(pair, 16).unwrap())
        .collect()
}

fn offset_of(line: &str) -> usize {
    let digits: String = line.chars().take(8).collect();
    usize::from_str_radix(&digits, 16).unwrap()
}

/// A stream whose lines all differ from the line before.
fn counting(n: usize) -> Vec<u8> {
    (0..n).map(|i| (i / 16 + i) as u8).collect()
}

/// A sink that counts the lines it takes and keeps the last one.
struct Counting {
    lines: usize,
    last: String,
}

impl LineSink for Counting {
    fn put(&mut self, line: String) {
        self.lines += 1;
        self.last = line;
    }
}

/// A source that fails after it has delivered a number of lines.
struct Failing {
    lines_left: usize,
    seek_fails: bool,
}

impl DataSource for Failing {
    fn read(&mut self, out: &mut [u8; 16]) -> Result<usize, IoFailure> {
        if self.lines_left == 0 {
            return Err(IoFailure { message: String::from("device failure") });
        }
        self.lines_left -= 1;
        for (i, b) in out.iter_mut().enumerate() {
            *b = (self.lines_left * 16 + i) as u8;
        }
        Ok(16)
    }

    fn skip(&mut self, _length: usize) -> Result<(), IoFailure> {
        if self.seek_fails {
            Err(IoFailure { message: String::from("cannot seek") })
        } else {
            Ok(())
        }
    }
}

/// A source that hands out its bytes in reads of the given sizes.
struct Chunked {
    data: Vec<u8>,
    pos: usize,
    sizes: Vec<usize>,
    claim_more: bool,
}

impl DataSource for Chunked {
    fn read(&mut self, out: &mut [u8; 16]) -> Result<usize, IoFailure> {
        let size = if self.sizes.is_empty() { 16 } else { self.sizes.remove(0) };
        let n = size.min(16).min(self.data.len() - self.pos);
        out[..n].copy_from_slice(&self.data[self.pos..self.pos + n]);
        self.pos += n;
        if self.claim_more {
            Ok(n + 100)
        } else {
            Ok(n)
        }
    }

    fn skip(&mut self, length: usize) -> Result<(), IoFailure> {
        self.pos = (self.pos + length).min(self.data.len());
        Ok(())
    }
}

#[test]
fn a_short_read_ends_the_dump() {
    let mut source =
        Chunked { data: counting(64), pos: 0, sizes: vec![16, 5, 16], claim_more: false };
    let (lines, outcome) = dump(&mut source, config(false, 0, false, 0));
    assert!(outcome.is_ok());
    let data = body(&lines);
    assert_eq!(data.len(), 2);
    assert_eq!(parse_hex_column(&hex_column(&data[1])), counting(64)[16..21].to_vec());
    assert_eq!(offset_of(&lines[lines.len() - 1]), 21);
    assert_eq!(source.pos, 21);
}

#[test]
fn of_a_read_that_reports_too_much_sixteen_bytes_count() {
    let mut source = Chunked { data: counting(32), pos: 0, sizes: vec![], claim_more: true };
    let (lines, outcome) = dump(&mut source, config(false, 0, false, 40));
    assert!(outcome.is_ok());
    let data = body(&lines);
    assert_eq!(data.len(), 3);
    assert_eq!(parse_hex_column(&hex_column(&data[0])), counting(32)[0..16].to_vec());
    assert_eq!(parse_hex_column(&hex_column(&data[1])), counting(32)[16..32].to_vec());
    assert_eq!(offset_of(&lines[lines.len() - 1]), 40);
}

#[test]
fn two_identical_lines_and_a_short_line() {
    let mut input = vec![0x41u8; 32];
    input.push(0x0a);
    let mut source = MemorySource::new(input, true);
    let (lines, outcome) = dump(&mut source, config(false, 0, false, 0));
    assert!(outcome.is_ok());
    let expected = vec![
        String::from("DATA IDX │ DATA AS HEX"),
        "─".repeat(59),
        String::from("00000000 │ 41 41 41 41 41 41 41 41  41 41 41 41 41 41 41 41 "),
        format!("^^^^^^^^ │ {}", pad("(repeats 2 lines)", 49)),
        format!("00000020 │ {}", pad("0A", 49)),
        "─".repeat(59),
        format!("00000021 │ {}", pad("read total: 33 B (33 B)", 49)),
    ];
    assert_eq!(lines, expected);
    assert_eq!(source.remaining(), 0);
}

#[test]
fn the_same_stream_with_the_character_column() {
    let mut input = vec![0x41u8; 32];
    input.push(0x0a);
    let lines = dump_bytes(&input, config(true, 0, false, 0));
    let expected = vec![
        format!("DATA IDX │ DATA AS HEX{} │ DATA AS CHAR", " ".repeat(37)),
        "─".repeat(80),
        String::from(
            "00000000 │ 41 41 41 41 41 41 41 41  41 41 41 41 41 41 41 41 │ |AAAAAAAAAAAAAAAA|",
        ),
        format!("^^^^^^^^ │ {}│", pad("(repeats 2 lines)", 49)),
        format!("00000020 │ {}│ |↩|", pad("0A", 49)),
        "─".repeat(80),
        format!("00000021 │ {}│", pad("read total: 33 B (33 B)", 49)),
    ];
    assert_eq!(lines, expected);
}

#[test]
fn an_empty_stream_has_no_data_line() {
    let lines = dump_bytes(&[], config(false, 0, false, 0));
    let expected = vec![
        String::from("DATA IDX │ DATA AS HEX"),
        "─".repeat(59),
        "─".repeat(59),
        format!("00000000 │ {}", pad("read total: 0 B (0 B)", 49)),
    ];
    assert_eq!(lines, expected);
}

#[test]
fn a_full_line_shows_the_gap_between_its_halves() {
    let input: Vec<u8> = (0u8..16).collect();
    let lines = dump_bytes(&input, config(true, 0, false, 0));
    assert_eq!(
        body(&lines),
        vec![String::from(
            "00000000 │ 00 01 02 03 04 05 06 07  08 09 0A 0B 0C 0D 0E 0F │ |�������\u{fffd}�⭾↩�����|"
        )]
    );
}

#[test]
fn a_line_of_eight_bytes_is_padded_to_the_full_width() {
    let lines = dump_bytes(&[0xffu8; 8], config(false, 0, false, 0));
    let data = &body(&lines)[0];
    assert_eq!(data, &format!("00000000 │ FF FF FF FF FF FF FF FF {}", " ".repeat(25)));
    assert_eq!(data.chars().count(), 60);
}

#[test]
fn a_limit_below_one_line_gives_one_short_line() {
    let input = counting(100);
    let mut source = MemorySource::new(input.clone(), true);
    let (lines, outcome) = dump(&mut source, config(false, 0, false, 5));
    assert!(outcome.is_ok());
    assert_eq!(body(&lines), vec![format!("00000000 │ {}", pad("00 01 02 03 04", 49))]);
    assert_eq!(lines[lines.len() - 1], format!("00000005 │ {}", pad("read total: 5 B (5 B)", 49)));
    // the source has delivered one whole line
    assert_eq!(source.remaining(), 100 - 16);
}

#[test]
fn a_limit_inside_the_second_line_cuts_it() {
    let input = counting(100);
    let lines = dump_bytes(&input, config(false, 0, false, 20));
    let data = body(&lines);
    assert_eq!(data.len(), 2);
    assert_eq!(parse_hex_column(&hex_column(&data[0])), input[0..16].to_vec());
    assert_eq!(parse_hex_column(&hex_column(&data[1])), input[16..20].to_vec());
    assert_eq!(offset_of(&data[1]), 16);
    assert_eq!(offset_of(&lines[lines.len() - 1]), 20);
}

#[test]
fn a_limit_beyond_the_stream_shows_the_whole_stream() {
    let input = counting(18);
    let lines = dump_bytes(&input, config(false, 0, false, 20));
    let data = body(&lines);
    assert_eq!(data.len(), 2);
    assert_eq!(parse_hex_column(&hex_column(&data[1])), input[16..18].to_vec());
    assert_eq!(lines[lines.len() - 1], format!("00000012 │ {}", pad("read total: 18 B (18 B)", 49)));
}

#[test]
fn a_limit_on_a_line_end_gives_an_empty_line_if_the_stream_goes_on() {
    let input = counting(40);
    let lines = dump_bytes(&input, config(true, 0, false, 16));
    let data = body(&lines);
    assert_eq!(data.len(), 2);
    assert_eq!(parse_hex_column(&hex_column(&data[0])), input[0..16].to_vec());
    // the line that the limit has emptied: blank hex column, blank character column
    assert_eq!(data[1], format!("00000010 │ {}│ {}", " ".repeat(49), " ".repeat(8)));
    assert_eq!(offset_of(&lines[lines.len() - 1]), 16);
}

#[test]
fn a_limit_on_a_line_end_gives_no_empty_line_if_the_stream_ends_there() {
    let input = counting(16);
    let lines = dump_bytes(&input, config(false, 0, false, 16));
    assert_eq!(body(&lines).len(), 1);
    let lines = dump_bytes(&input, config(false, 0, false, 20));
    assert_eq!(body(&lines).len(), 1);
}

#[test]
fn the_limit_bounds_the_bytes_of_the_data_lines() {
    for avail in [0usize, 1, 15, 16, 17, 31, 32, 33, 64, 100] {
        for limit in [0usize, 1, 15, 16, 17, 31, 32, 33, 48, 64, 99, 100, 101, 500] {
            let input = counting(avail);
            let lines = dump_bytes(&input, config(false, 0, true, limit));
            let shown = if limit == 0 { avail } else { limit.min(avail) };
            let mut bytes: Vec<u8> = Vec::new();
            for line in body(&lines) {
                assert!(!is_summary(&line));
                bytes.extend(parse_hex_column(&hex_column(&line)));
            }
            assert_eq!(bytes, input[0..shown].to_vec());
            assert_eq!(offset_of(&lines[lines.len() - 1]), shown);
        }
    }
}

#[test]
fn without_collapsing_every_line_is_shown() {
    for avail in [0usize, 1, 16, 17, 32, 48, 49, 160] {
        let input = vec![0u8; avail];
        let lines = dump_bytes(&input, config(false, 0, true, 0));
        let data = body(&lines);
        assert_eq!(data.len(), (avail + 15) / 16);
        assert!(data.iter().all(|line| !is_summary(line)));
        for (i, line) in data.iter().enumerate() {
            assert_eq!(offset_of(line), 16 * i);
        }
    }
}

#[test]
fn identical_lines_collapse_into_one_summary() {
    for n in [2usize, 3, 4, 10, 100] {
        let mut input = vec![0x5au8; 16 * n];
        input.extend_from_slice(&[1, 2, 3]);
        let lines = dump_bytes(&input, config(false, 0, false, 0));
        let data = body(&lines);
        assert_eq!(data.len(), 3);
        assert_eq!(offset_of(&data[0]), 0);
        assert_eq!(parse_hex_column(&hex_column(&data[0])), vec![0x5au8; 16]);
        assert_eq!(data[1], format!("^^^^^^^^ │ {}", pad(&format!("(repeats {} lines)", n), 49)));
        assert_eq!(offset_of(&data[2]), 16 * n);
        assert_eq!(parse_hex_column(&hex_column(&data[2])), vec![1, 2, 3]);
        assert_eq!(offset_of(&lines[lines.len() - 1]), 16 * n + 3);
    }
}

#[test]
fn a_full_line_that_differs_ends_a_run_and_is_shown() {
    let mut input = vec![7u8; 32];
    input.extend(counting(16));
    input.extend(vec![9u8; 48]);
    let lines = dump_bytes(&input, config(false, 0, false, 0));
    let data = body(&lines);
    assert_eq!(data.len(), 5);
    assert_eq!(offset_of(&data[0]), 0);
    assert!(data[1].contains("(repeats 2 lines)"));
    assert_eq!(offset_of(&data[2]), 32);
    assert_eq!(parse_hex_column(&hex_column(&data[2])), counting(16));
    assert_eq!(offset_of(&data[3]), 48);
    assert!(data[4].contains("(repeats 3 lines)"));
    assert_eq!(offset_of(&lines[lines.len() - 1]), 96);
}

#[test]
fn a_run_that_ends_the_stream_is_summed_up() {
    let input = vec![0u8; 48];
    let lines = dump_bytes(&input, config(false, 0, false, 0));
    let data = body(&lines);
    assert_eq!(data.len(), 2);
    assert_eq!(offset_of(&data[0]), 0);
    assert!(data[1].contains("(repeats 3 lines)"));
    assert_eq!(lines[lines.len() - 1], format!("00000030 │ {}", pad("read total: 48 B (48 B)", 49)));
}

#[test]
fn a_short_line_is_never_part_of_a_run() {
    // two lines of zeros and five more zeros: the short line is shown
    let input = vec![0u8; 37];
    let lines = dump_bytes(&input, config(false, 0, false, 0));
    let data = body(&lines);
    assert_eq!(data.len(), 3);
    assert!(data[1].contains("(repeats 2 lines)"));
    assert_eq!(data[2], format!("00000020 │ {}", pad("00 00 00 00 00", 49)));
}

#[test]
fn the_limit_cuts_a_run() {
    let input = vec![0u8; 160];
    let lines = dump_bytes(&input, config(false, 0, false, 40));
    let data = body(&lines);
    assert_eq!(data.len(), 3);
    assert!(data[1].contains("(repeats 2 lines)"));
    assert_eq!(data[2], format!("00000020 │ {}", pad("00 00 00 00 00 00 00 00", 49)));
    assert_eq!(offset_of(&lines[lines.len() - 1]), 40);
}

#[test]
fn all_data_lines_have_the_same_width() {
    for avail in [1usize, 7, 8, 9, 16, 23, 24, 25, 47] {
        let input = counting(avail);
        let lines = dump_bytes(&input, config(false, 0, false, 0));
        for line in body(&lines) {
            assert_eq!(line.chars().count(), 60);
            assert_eq!(hex_column(&line).chars().count(), 49);
        }
    }
}

#[test]
fn offsets_grow_by_sixteen_from_line_to_line() {
    let input = counting(100);
    let lines = dump_bytes(&input, config(false, 0, false, 0));
    let data = body(&lines);
    assert_eq!(data.len(), 7);
    for pair in data.windows(2) {
        assert_eq!(offset_of(&pair[1]), offset_of(&pair[0]) + 16);
    }
    let last = &data[data.len() - 1];
    assert_eq!(offset_of(last) + parse_hex_column(&hex_column(last)).len(), 100);
}

#[test]
fn the_hex_column_reads_back_as_the_bytes() {
    let input: Vec<u8> = (0..=255u8).collect();
    let lines = dump_bytes(&input, config(true, 0, false, 0));
    let data = body(&lines);
    assert_eq!(data.len(), 16);
    for line in data {
        let offset = offset_of(&line);
        assert_eq!(parse_hex_column(&hex_column(&line)), input[offset..offset + 16].to_vec());
    }
}

#[test]
fn skipped_bytes_are_not_shown_and_not_counted() {
    let input = counting(50);
    let mut source = MemorySource::new(input.clone(), true);
    let (lines, outcome) = dump(&mut source, config(false, 20, false, 0));
    assert!(outcome.is_ok());
    let data = body(&lines);
    assert_eq!(data.len(), 2);
    assert_eq!(offset_of(&data[0]), 0);
    assert_eq!(parse_hex_column(&hex_column(&data[0])), input[20..36].to_vec());
    assert_eq!(parse_hex_column(&hex_column(&data[1])), input[36..50].to_vec());
    assert_eq!(lines[lines.len() - 1], format!("0000001E │ {}", pad("read total: 30 B (30 B)", 49)));
}

#[test]
fn a_skip_beyond_the_stream_leaves_nothing_to_show() {
    let input = counting(50);
    let lines = dump_bytes(&input, config(false, 80, false, 0));
    assert_eq!(body(&lines).len(), 0);
    assert_eq!(offset_of(&lines[lines.len() - 1]), 0);
}

#[test]
fn the_limit_counts_from_behind_the_skipped_bytes() {
    let input = counting(100);
    let lines = dump_bytes(&input, config(false, 10, false, 20));
    let mut bytes: Vec<u8> = Vec::new();
    for line in body(&lines) {
        bytes.extend(parse_hex_column(&hex_column(&line)));
    }
    assert_eq!(bytes, input[10..30].to_vec());
}

#[test]
fn a_source_without_cursor_is_dumped_from_its_start() {
    let input = counting(50);
    let mut source = MemorySource::new(input.clone(), false);
    let (lines, outcome) = dump(&mut source, config(false, 20, false, 0));
    assert!(outcome.is_ok());
    assert_eq!(source.remaining(), 0);
    let mut bytes: Vec<u8> = Vec::new();
    for line in body(&lines) {
        bytes.extend(parse_hex_column(&hex_column(&line)));
    }
    assert_eq!(bytes, input);
    assert_eq!(lines[lines.len() - 1], format!("00000032 │ {}", pad("read total: 50 B (50 B)", 49)));
}

#[test]
fn a_failed_read_ends_the_dump_and_keeps_what_was_shown() {
    let mut source = Failing { lines_left: 2, seek_fails: false };
    let mut session = Hedu::new(false, 0, false, 0);
    let mut lines: Vec<String> = Vec::new();
    let res = session.dump(&mut source, &mut lines);
    match res {
        Err(DumpError::Read(failure)) => assert_eq!(failure.message, "device failure"),
        other => panic!("expected a failed read, got {:?}", other),
    }
    assert_eq!(lines.len(), 4);
    assert_eq!(lines[0], "DATA IDX │ DATA AS HEX");
    assert_eq!(offset_of(&lines[2]), 0);
    assert_eq!(offset_of(&lines[3]), 16);
}

#[test]
fn a_failed_first_read_leaves_the_header() {
    let mut source = Failing { lines_left: 0, seek_fails: false };
    let mut session = Hedu::new(true, 0, false, 0);
    let mut lines: Vec<String> = Vec::new();
    assert!(matches!(session.dump(&mut source, &mut lines), Err(DumpError::Read(_))));
    assert_eq!(lines.len(), 2);
    let (lines, outcome) = dump(&mut source, config(false, 0, false, 0));
    assert!(matches!(outcome, Err(DumpError::Read(_))));
    assert_eq!(lines, vec![String::from("DATA IDX │ DATA AS HEX"), "─".repeat(59)]);
}

#[test]
fn a_failed_skip_ends_the_dump_behind_the_header() {
    let mut source = Failing { lines_left: 5, seek_fails: true };
    let mut session = Hedu::new(false, 3, false, 0);
    let mut lines: Vec<String> = Vec::new();
    match session.dump(&mut source, &mut lines) {
        Err(DumpError::Skip(failure)) => assert_eq!(failure.message, "cannot seek"),
        other => panic!("expected a failed skip, got {:?}", other),
    }
    assert_eq!(lines, vec![String::from("DATA IDX │ DATA AS HEX"), "─".repeat(59)]);
    // nothing to skip, nothing to fail
    let mut session = Hedu::new(false, 0, false, 32);
    assert!(session.dump(&mut source, &mut lines).is_ok());
}

#[test]
fn a_session_starts_empty_and_keeps_its_configuration() {
    let session = Hedu::new(true, 3, false, 99);
    let cfg = session.config();
    assert!(cfg.chars);
    assert_eq!(cfg.skip, 3);
    assert!(!cfg.show_identical);
    assert_eq!(cfg.limit, 99);
    assert_eq!(session.current_offset(), 0);
    assert_eq!(session.bytes_read_total(), 0);
    assert_eq!(session.last_line_length(), 0);
    assert!(!session.stopped());
}

#[test]
fn the_counters_stand_at_the_last_line_after_a_dump() {
    let input = counting(40);
    let mut source = MemorySource::new(input, true);
    let mut session = Hedu::new(false, 0, false, 0);
    let mut lines: Vec<String> = Vec::new();
    session.dump(&mut source, &mut lines).unwrap();
    assert_eq!(session.current_offset(), 32);
    assert_eq!(session.last_line_length(), 8);
    assert_eq!(session.bytes_read_total(), 40);
    assert!(!session.stopped());

    let mut source = MemorySource::new(counting(40), true);
    let mut session = Hedu::new(false, 0, false, 35);
    session.dump(&mut source, &mut lines).unwrap();
    assert_eq!(session.current_offset(), 32);
    assert_eq!(session.last_line_length(), 3);
    assert_eq!(session.bytes_read_total(), 35);
    assert!(session.stopped());
}

#[test]
fn a_session_starts_each_dump_afresh() {
    let mut session = Hedu::new(false, 0, false, 0);
    let mut first = MemorySource::new(counting(20), true);
    let mut second = MemorySource::new(counting(5), true);
    let mut lines: Vec<String> = Vec::new();
    session.dump(&mut first, &mut lines).unwrap();
    session.newline(&mut lines);
    session.dump(&mut second, &mut lines).unwrap();
    assert_eq!(lines.len(), 6 + 1 + 5);
    assert_eq!(lines[6], "\n");
    assert_eq!(offset_of(&lines[9]), 0);
    assert_eq!(offset_of(&lines[11]), 5);
}

#[test]
fn the_rule_is_as_wide_as_the_frame() {
    let mut lines: Vec<String> = Vec::new();
    let mut narrow = Hedu::new(false, 0, false, 0);
    narrow.sep(&mut lines);
    assert_eq!(lines, vec!["─".repeat(59)]);
    let mut wide = Hedu::new(true, 0, false, 0);
    wide.sep(&mut lines);
    wide.display(&mut lines, String::from("between"));
    wide.sep(&mut lines);
    assert_eq!(lines[1..].to_vec(), vec!["─".repeat(80), String::from("between"), "─".repeat(80)]);
}

#[test]
fn the_lines_go_to_the_sink_one_by_one() {
    let mut sink = Counting { lines: 0, last: String::new() };
    let mut source = MemorySource::new(counting(100), true);
    let mut session = Hedu::new(false, 0, false, 0);
    session.dump(&mut source, &mut sink).unwrap();
    assert_eq!(sink.lines, 2 + 7 + 2);
    assert_eq!(sink.last, format!("00000064 │ {}", pad("read total: 100 B (100 B)", 49)));
}
