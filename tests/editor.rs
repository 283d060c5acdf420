use line_editor::editor::{ends_block, CommandContext, CommandError, Editor, EditorMode, LineOffset};

#[test]
fn test_parse_line_offset() {
    assert_eq!("1".parse::<LineOffset>().unwrap(), LineOffset::Absolute(1));
    assert_eq!("+".parse::<LineOffset>().unwrap(), LineOffset::Relative(1));
    assert_eq!("+3".parse::<LineOffset>().unwrap(), LineOffset::Relative(3));
    assert_eq!("-".parse::<LineOffset>().unwrap(), LineOffset::Relative(-1));
    assert_eq!("-3".parse::<LineOffset>().unwrap(), LineOffset::Relative(-3));
}

#[test]
fn parse_rejects_what_is_not_an_address() {
    for s in ["", "a", "+x", "-3a", "1a", "++3", "+-3", " 1", "é", "18446744073709551616"] {
        assert_eq!(LineOffset::parse(s), Err(()), "{s:?}");
    }
    assert_eq!(LineOffset::parse("+9223372036854775808"), Err(()));
    assert_eq!(LineOffset::parse("-9223372036854775808"), Err(()));
    assert_eq!(LineOffset::parse("-9223372036854775807"), Ok(LineOffset::Relative(-9223372036854775807)));
    assert_eq!(LineOffset::parse("18446744073709551615"), Ok(LineOffset::Absolute(usize::MAX)));
    assert_eq!(LineOffset::parse("007"), Ok(LineOffset::Absolute(7)));
}

#[test]
fn parsed_offsets_shift_from_current_line() {
    assert_eq!(LineOffset::parse("+3").unwrap().shift(10), 13);
    assert_eq!(LineOffset::parse("-").unwrap().shift(1), 1);
    for current in [0, 1, 7, 500, usize::MAX] {
        assert_eq!(LineOffset::parse("7").unwrap().shift(current), 7);
    }
    assert_eq!(LineOffset::parse("-4").unwrap().shift(10), 6);
    assert_eq!(LineOffset::parse("+").unwrap().shift(10), 11);
}

#[test]
fn shift_clamps_relative_moves() {
    assert_eq!(LineOffset::Relative(-200).shift(1), 1);
    assert_eq!(LineOffset::Relative(-5).shift(5), 1);
    assert_eq!(LineOffset::Relative(0).shift(0), 1);
    assert_eq!(LineOffset::Relative(isize::MIN).shift(3), 1);
    assert_eq!(LineOffset::Relative(isize::MAX).shift(usize::MAX), usize::MAX);
    assert_eq!(LineOffset::Absolute(0).shift(9), 0);
    assert_eq!(LineOffset::default(), LineOffset::Relative(0));
}

#[test]
fn editor_starts_in_command_mode_on_line_one() {
    let mut ed = Editor::default();
    assert!(ed.mode == EditorMode::Command);
    assert_eq!(ed.buffer.line, 1);
    assert!(ed.buffer.contents.is_empty());
    ed.kill();
    assert!(ed.mode == EditorMode::Quit);
}

#[test]
fn context_builders_set_destination() {
    let ctx = CommandContext::with_output(String::from("kept"));
    assert_eq!(ctx.destination, LineOffset::Relative(0));
    let ctx = ctx.line(4);
    assert_eq!(ctx.destination, LineOffset::Absolute(4));
    let ctx = ctx.line_relative(-2);
    assert_eq!(ctx.destination, LineOffset::Relative(-2));
    let ctx = ctx.line_offset(&LineOffset::Absolute(9));
    assert_eq!(ctx.destination, LineOffset::Absolute(9));
    assert_eq!(ctx.output.as_str(), "kept");
    assert!(ctx.input.read().is_err());
}

#[test]
fn io_error_converts_to_io_variant() {
    let e = CommandError::from(std::io::Error::new(std::io::ErrorKind::Other, "boom"));
    assert!(matches!(e, CommandError::IOError(_)));
}

#[test]
fn block_ends_at_lone_dot_line() {
    assert!(ends_block("."));
    assert!(ends_block(".\n"));
    assert!(ends_block(".\r\n"));
    assert!(!ends_block(""));
    assert!(!ends_block("\n"));
    assert!(!ends_block("..\n"));
    assert!(!ends_block(". \n"));
    assert!(!ends_block("a.\n"));
}
