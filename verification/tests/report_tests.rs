use watch_report::line::{Kind, Line, LineType};
use watch_report::report::{Report, Stats};

fn lines(v: &[&str]) -> Vec<String> {
    v.iter().map(|s| s.to_string()).collect()
}

#[test]
fn scenario_mixed_stream() {
    let input = lines(&[
        "note: foo",
        "warning: unused variable",
        "  --> src/lib.rs:3",
        "error: mismatched types",
        "  --> src/lib.rs:9",
        "warning count: 2",
    ]);
    let report = Report::from_err_lines(input).unwrap();
    assert_eq!(report.lines.len(), 4);
    // Error item first, then the warning item; note and summary dropped.
    assert_eq!(report.lines[0].content, "error: mismatched types");
    assert_eq!(report.lines[0].item_idx, 1);
    assert_eq!(report.lines[0].line_type, LineType::Title(Kind::Error));
    assert_eq!(report.lines[1].content, "  --> src/lib.rs:9");
    assert_eq!(report.lines[1].item_idx, 1);
    assert_eq!(report.lines[1].line_type, LineType::Continuation);
    assert_eq!(report.lines[2].content, "warning: unused variable");
    assert_eq!(report.lines[2].item_idx, 2);
    assert_eq!(report.lines[2].line_type, LineType::Title(Kind::Warning));
    assert_eq!(report.lines[3].content, "  --> src/lib.rs:3");
    assert_eq!(report.lines[3].item_idx, 2);
    assert_eq!(report.lines[3].line_type, LineType::Continuation);
    assert_eq!(report.stats.errors, 1);
    assert_eq!(report.stats.warnings, 1);
}

#[test]
fn empty_input_empty_report() {
    let report = Report::from_err_lines(Vec::new()).unwrap();
    assert_eq!(report.lines.len(), 0);
    assert_eq!(report.stats.errors, 0);
    assert_eq!(report.stats.warnings, 0);
}

#[test]
fn content_before_first_title_is_dropped() {
    let report = Report::from_err_lines(lines(&["note: a", "note: b"])).unwrap();
    assert_eq!(report.lines.len(), 0);
}

#[test]
fn summary_section_discards_following_content() {
    let report = Report::from_err_lines(lines(&[
        "warning: w",
        "warning count: 1",
        "  trailing note",
        "error: e",
        "  body",
    ]))
    .unwrap();
    // Only the error item and the first warning title survive; the
    // summary title and the line after it are gone.
    assert_eq!(report.lines.len(), 3);
    assert_eq!(report.lines[0].content, "error: e");
    assert_eq!(report.lines[1].content, "  body");
    assert_eq!(report.lines[2].content, "warning: w");
    assert_eq!(report.lines[0].item_idx, 1);
    assert_eq!(report.lines[1].item_idx, 1);
    assert_eq!(report.lines[2].item_idx, 2);
}

#[test]
fn error_count_line_is_a_summary_title() {
    let report =
        Report::from_err_lines(lines(&["error: e", "error count: 1", "  ignored"])).unwrap();
    assert_eq!(report.lines.len(), 1);
    assert_eq!(report.lines[0].content, "error: e");
}

#[test]
fn indices_increase_by_one_per_item() {
    let report = Report::from_err_lines(lines(&[
        "error: one",
        "  a",
        "error[E0308]: two",
        "warning: three",
        "  b",
        "warning[W01]: four",
    ]))
    .unwrap();
    let idx: Vec<usize> = report.lines.iter().map(|l| l.item_idx).collect();
    assert_eq!(idx, vec![1, 1, 2, 3, 3, 4]);
    assert_eq!(report.stats.errors, 2);
    assert_eq!(report.stats.warnings, 2);
}

#[test]
fn interleaved_stream_puts_all_errors_first() {
    let report = Report::from_err_lines(lines(&[
        "warning: w1",
        "error: e1",
        "warning: w2",
        "error: e2",
    ]))
    .unwrap();
    let contents: Vec<&str> = report.lines.iter().map(|l| l.content.as_str()).collect();
    assert_eq!(contents, vec!["error: e1", "error: e2", "warning: w1", "warning: w2"]);
    let idx: Vec<usize> = report.lines.iter().map(|l| l.item_idx).collect();
    assert_eq!(idx, vec![1, 2, 3, 4]);
}

#[test]
fn reverse_flips_items_and_keeps_their_rows() {
    let mut report = Report::from_err_lines(lines(&[
        "error: one",
        "  a1",
        "error: two",
        "  a2",
        "error: three",
        "  a3",
    ]))
    .unwrap();
    report.reverse();
    let contents: Vec<&str> = report.lines.iter().map(|l| l.content.as_str()).collect();
    assert_eq!(
        contents,
        vec!["error: three", "  a3", "error: two", "  a2", "error: one", "  a1"]
    );
    let idx: Vec<usize> = report.lines.iter().map(|l| l.item_idx).collect();
    assert_eq!(idx, vec![3, 3, 2, 2, 1, 1]);
    // A second reversal finds the rows already in reverse item order
    // and leaves them as they are.
    let before: Vec<String> = report.lines.iter().map(|l| l.content.clone()).collect();
    report.reverse();
    let after: Vec<String> = report.lines.iter().map(|l| l.content.clone()).collect();
    assert_eq!(before, after);
}

#[test]
fn reverse_keeps_stats() {
    let mut report = Report::from_err_lines(lines(&["error: e", "warning: w"])).unwrap();
    let stats = report.stats;
    report.reverse();
    assert_eq!(report.stats, stats);
}

#[test]
fn from_bytes_splits_lines() {
    let report = Report::from_bytes(b"warning: w\n  body\nerror: e\n").unwrap();
    let contents: Vec<&str> = report.lines.iter().map(|l| l.content.as_str()).collect();
    assert_eq!(contents, vec!["error: e", "warning: w", "  body"]);
}

#[test]
fn from_bytes_strips_carriage_returns() {
    let report = Report::from_bytes(b"error: e\r\n  body\r\n").unwrap();
    assert_eq!(report.lines[0].content, "error: e");
    assert_eq!(report.lines[1].content, "  body");
}

#[test]
fn from_bytes_keeps_last_unterminated_line() {
    let report = Report::from_bytes(b"error: e\n  tail").unwrap();
    let contents: Vec<&str> = report.lines.iter().map(|l| l.content.as_str()).collect();
    assert_eq!(contents, vec!["error: e", "  tail"]);
}

#[test]
fn from_bytes_empty_is_empty_report() {
    let report = Report::from_bytes(b"").unwrap();
    assert_eq!(report.lines.len(), 0);
}

#[test]
fn from_bytes_rejects_invalid_text() {
    let r = Report::from_bytes(&[b'e', 0xff, 0xfe, b'\n']);
    assert!(r.is_err());
}

#[test]
fn from_bytes_rejects_invalid_text_in_last_line() {
    let r = Report::from_bytes(&[b'o', b'k', b'\n', 0xc3, 0x28]);
    assert!(r.is_err());
}

#[test]
fn summary_before_any_item() {
    let report = Report::from_err_lines(lines(&["warning count: 0", "  note", "error: e"])).unwrap();
    assert_eq!(report.lines.len(), 1);
    assert_eq!(report.lines[0].content, "error: e");
    assert_eq!(report.lines[0].item_idx, 1);
}

#[test]
fn reverse_orders_any_rows_stably() {
    let row = |idx: usize, text: &str| Line {
        item_idx: idx,
        line_type: LineType::Continuation,
        content: text.to_string(),
    };
    let mut report = Report {
        lines: vec![row(0, "z1"), row(2, "a"), row(1, "b1"), row(0, "z2"), row(1, "b2")],
        stats: Stats { errors: 0, warnings: 0 },
    };
    report.reverse();
    let contents: Vec<&str> = report.lines.iter().map(|l| l.content.as_str()).collect();
    // Descending item index; rows of one index keep their order.
    assert_eq!(contents, vec!["a", "b1", "b2", "z1", "z2"]);
}

#[test]
fn rows_store_the_style_resolved_text() {
    let report = Report::from_err_lines(lines(&[
        "\u{1b}[1m\u{1b}[31merror\u{1b}[0m: x",
        "  \u{1b}[33mbody\u{1b}[0m",
    ]))
    .unwrap();
    assert_eq!(report.lines.len(), 2);
    assert_eq!(report.lines[0].content, "error: x");
    assert_eq!(report.lines[0].line_type, LineType::Title(Kind::Error));
    assert_eq!(report.lines[1].content, "  body");
}

#[test]
fn from_bytes_resolves_styling() {
    let report = Report::from_bytes(b"\x1b[33mwarning\x1b[0m: w\n").unwrap();
    assert_eq!(report.lines[0].content, "warning: w");
    assert_eq!(report.lines[0].line_type, LineType::Title(Kind::Warning));
}
