use libpt::render::{
    mask_chars, render_data_line, render_footer_line, render_header_line, render_rule_line,
    render_summary_line,
};

#[test]
fn printable_characters_stand_for_themselves() {
    for b in 0x21u8..=0x7e {
        assert_eq!(mask_chars(b as char), b as char);
    }
}

#[test]
fn blank_tab_and_line_feed_have_glyphs() {
    assert_eq!(mask_chars('\n'), '↩');
    assert_eq!(mask_chars(' '), '␣');
    assert_eq!(mask_chars('\t'), '⭾');
}

#[test]
fn every_other_byte_is_replaced() {
    for b in 0u8..=255 {
        let shown = mask_chars(b as char);
        let expected = match b {
            0x21..=0x7e => b as char,
            b'\n' => '↩',
            b' ' => '␣',
            b'\t' => '⭾',
            _ => '\u{fffd}',
        };
        assert_eq!(shown, expected);
    }
    assert_eq!(mask_chars('\r'), '\u{fffd}');
    assert_eq!(mask_chars('\u{7f}'), '\u{fffd}');
    assert_eq!(mask_chars('é'), '\u{fffd}');
}

#[test]
fn a_full_data_line() {
    let line: [u8; 16] = *b"Hello, wonderful";
    assert_eq!(
        render_data_line(0x1234_abcd, &line, 16, true),
        "1234ABCD │ 48 65 6C 6C 6F 2C 20 77  6F 6E 64 65 72 66 75 6C │ |Hello,␣wonderful|"
    );
    assert_eq!(
        render_data_line(0x10, &line, 16, false),
        "00000010 │ 48 65 6C 6C 6F 2C 20 77  6F 6E 64 65 72 66 75 6C "
    );
}

#[test]
fn a_short_data_line_keeps_the_width_of_the_hex_column() {
    let line = [0xabu8; 16];
    for len in 0..=16usize {
        let text = render_data_line(0, &line, len, false);
        assert_eq!(text.chars().count(), 60);
        let shown = text.matches("AB").count();
        assert_eq!(shown, len);
        let with_chars = render_data_line(0, &line, len, true);
        let tail = if len == 0 { 8 } else { len + 2 };
        assert_eq!(with_chars.chars().count(), 62 + tail);
    }
}

#[test]
fn the_gap_stands_before_the_ninth_byte() {
    let line: [u8; 16] = [1; 16];
    assert_eq!(
        render_data_line(0, &line, 9, false),
        format!("00000000 │ 01 01 01 01 01 01 01 01  01 {}", " ".repeat(21))
    );
    assert_eq!(
        render_data_line(0, &line, 8, false),
        format!("00000000 │ 01 01 01 01 01 01 01 01 {}", " ".repeat(25))
    );
    assert_eq!(
        render_data_line(0, &line, 7, false),
        format!("00000000 │ 01 01 01 01 01 01 01 {}", " ".repeat(28))
    );
}

#[test]
fn an_empty_data_line_is_blank_behind_the_offset() {
    let line = [9u8; 16];
    assert_eq!(render_data_line(0x40, &line, 0, false), format!("00000040 │ {}", " ".repeat(49)));
    assert_eq!(
        render_data_line(0x40, &line, 0, true),
        format!("00000040 │ {}│ {}", " ".repeat(49), " ".repeat(8))
    );
}

#[test]
fn an_offset_beyond_eight_digits_is_shown_whole() {
    let line = [0u8; 16];
    let text = render_data_line(0x1_0000_0000, &line, 1, false);
    assert!(text.starts_with("100000000 │ 00 "));
    let text = render_data_line(u64::MAX, &line, 1, false);
    assert!(text.starts_with("FFFFFFFFFFFFFFFF │ 00 "));
}

#[test]
fn a_summary_line_is_as_wide_as_a_data_line() {
    assert_eq!(
        render_summary_line(2, false),
        format!("^^^^^^^^ │ (repeats 2 lines){}", " ".repeat(32))
    );
    assert_eq!(
        render_summary_line(12345, true),
        format!("^^^^^^^^ │ (repeats 12345 lines){}│", " ".repeat(28))
    );
    assert_eq!(render_summary_line(u64::MAX, false).chars().count(), 60);
}

#[test]
fn the_footer_reports_the_bytes_plain_and_scaled() {
    assert_eq!(
        render_footer_line(33, false),
        format!("00000021 │ read total: 33 B (33 B){}", " ".repeat(26))
    );
    assert_eq!(
        render_footer_line(4096, true),
        format!("00001000 │ read total: 4 KiB (4096 B){}│", " ".repeat(23))
    );
    assert_eq!(
        render_footer_line(5 * 1024 * 1024 + 17, false),
        format!("00500011 │ read total: 5 MiB (5242897 B){}", " ".repeat(20))
    );
}

#[test]
fn the_header_names_the_columns() {
    assert_eq!(render_header_line(false), "DATA IDX │ DATA AS HEX");
    let wide = render_header_line(true);
    assert_eq!(wide, format!("DATA IDX │ DATA AS HEX{}│ DATA AS CHAR", " ".repeat(38)));
    // the second break stands where that of a data line stands
    let data = render_data_line(0, &[0u8; 16], 16, true);
    let at = |text: &str| text.chars().skip(1).position(|c| c == '│').map(|i| i + 1);
    assert_eq!(wide.chars().nth(60), Some('│'));
    assert_eq!(data.chars().nth(60), Some('│'));
    assert_eq!(at(&wide), at(&data));
}

#[test]
fn the_rule_has_the_width_of_the_frame() {
    assert_eq!(render_rule_line(false), "─".repeat(59));
    assert_eq!(render_rule_line(true), "─".repeat(80));
}
