use silk_engine::util::print::{ends_in_newline, format_console_line, format_file_line, Level};

#[test]
fn file_lines_get_a_tag_and_one_line_break() {
    assert_eq!(format_file_line(&Level::Info, "hello"), "   [INFO] hello\n");
    assert_eq!(format_file_line(&Level::Error, "bad\n"), "  [ERROR] bad\n");
    assert_eq!(format_file_line(&Level::Success, ""), "  [SUCCS] \n");
    assert!(ends_in_newline("a\n"));
    assert!(!ends_in_newline("a\nb"));
    assert!(!ends_in_newline(""));
}

#[test]
fn console_lines_are_coloured() {
    assert_eq!(format_console_line(&Level::Debug, "d", "x > y"), "d");
    assert_eq!(format_console_line(&Level::Trace, "t", ""), "\x1b[2mt\x1b[0m");
    assert_eq!(format_console_line(&Level::Info, "i", ""), "\x1b[38;2;41;184;219mi\x1b[0m");
    assert_eq!(
        format_console_line(&Level::Warn, "w", "a > b"),
        "\x1b[38;2;245;245;67mw\x1b[2ma > b\x1b[0m\n"
    );
    assert_eq!(
        format_console_line(&Level::Fatal, "f", "a"),
        "\x1b[38;2;241;76;76mf\x1b[2ma\x1b[0m"
    );
}

#[test]
fn sinks_named_picks_every_sink_of_the_name_in_order() {
    let names: Vec<String> = ["console", "file", "console"].iter().map(|s| s.to_string()).collect();
    assert_eq!(silk_engine::util::print::sinks_named(&names, "console"), vec![0, 2]);
    assert_eq!(silk_engine::util::print::sinks_named(&names, "file"), vec![1]);
    assert!(silk_engine::util::print::sinks_named(&names, "net").is_empty());
}
