use watch_report::classify::{classify, strip_style};
use watch_report::line::{Kind, LineType};

#[test]
fn titles_by_prefix() {
    assert_eq!(classify("error: mismatched types"), LineType::Title(Kind::Error));
    assert_eq!(classify("error[E0308]: mismatched types"), LineType::Title(Kind::Error));
    assert_eq!(classify("warning: unused variable"), LineType::Title(Kind::Warning));
    assert_eq!(classify("warning[W0612]: unused"), LineType::Title(Kind::Warning));
}

#[test]
fn summary_titles() {
    assert_eq!(classify("warning count: 2"), LineType::Title(Kind::Sum));
    assert_eq!(classify("error count: 1"), LineType::Title(Kind::Sum));
}

#[test]
fn continuations() {
    assert_eq!(classify("  --> src/lib.rs:3"), LineType::Continuation);
    assert_eq!(classify("note: foo"), LineType::Continuation);
    assert_eq!(classify(""), LineType::Continuation);
    assert_eq!(classify("errors: none"), LineType::Continuation);
    assert_eq!(classify("warnings galore"), LineType::Continuation);
}

#[test]
fn styling_is_resolved_before_classifying() {
    assert_eq!(
        classify("\u{1b}[1m\u{1b}[33mwarning\u{1b}[0m: styled"),
        LineType::Title(Kind::Warning)
    );
    assert_eq!(classify("\u{1b}[31merror\u{1b}[0m: styled"), LineType::Title(Kind::Error));
}

#[test]
fn strip_removes_control_sequences() {
    assert_eq!(strip_style("\u{1b}[31mred\u{1b}[0m"), "red");
    assert_eq!(strip_style("plain"), "plain");
    assert_eq!(strip_style(""), "");
    // A two-character escape drops the escape and the character after
    // it.
    assert_eq!(strip_style("a\u{1b}Bc"), "ac");
    // A control sequence runs through its parameter characters to its
    // final character.
    assert_eq!(strip_style("x\u{1b}[1;33my"), "xy");
}

#[test]
fn strip_keeps_wide_characters() {
    assert_eq!(strip_style("caf\u{e9} \u{1b}[1mth\u{e9}\u{1b}[0m"), "caf\u{e9} th\u{e9}");
}
