use line_editor::commands::{
    append, append_block, append_read, change_block, change_line, change_read, decimal_string,
    display, goto_line, list, noop, print_line, quit,
};
use line_editor::editor::{CommandContext, CommandError, Editor, EditorMode, LineOffset, TextInput};

struct ConstInput(&'static str);

impl TextInput for ConstInput {
    fn read(&self) -> Result<String, ()> {
        Ok(String::from(self.0))
    }
}

struct FailingInput;

impl TextInput for FailingInput {
    fn read(&self) -> Result<String, ()> {
        Err(())
    }
}

#[test]
fn test_list() {
    let mut ed = Editor::default();
    let mut ctx = CommandContext::with_output(String::new());

    ed.buffer.contents.push_str("the content");
    list(&mut ed, &mut ctx).unwrap();

    let output = ctx.output;
    assert_eq!(output.as_bytes(), b"1 the content\n");
}

#[test]
fn test_print_line() {
    let mut ed = Editor::default();
    let mut ctx = CommandContext::with_output(String::new());

    ed.buffer.contents.push_str("first line\nsecond line");
    ed.buffer.line = 2;
    print_line(&mut ed, &mut ctx).unwrap();

    let output = ctx.output;
    assert_eq!(output.as_bytes(), b"second line\n");
}

#[test]
fn test_goto_line() {
    let mut ed = Editor::default();

    let mut ctx = CommandContext::with_output(String::new()).line(100);
    goto_line(&mut ed, &mut ctx).unwrap();
    assert_eq!(ed.buffer.line, 100);

    let mut ctx = CommandContext::with_output(String::new()).line_relative(5);
    goto_line(&mut ed, &mut ctx).unwrap();
    assert_eq!(ed.buffer.line, 105);

    let mut ctx = CommandContext::with_output(String::new()).line_relative(-200);
    goto_line(&mut ed, &mut ctx).unwrap();
    assert_eq!(ed.buffer.line, 1);
}

#[test]
fn test_append() {
    let mut ed = Editor::default();
    let mut ctx = CommandContext::with_output(String::new());

    ed.buffer.contents.push_str("first\n");
    ctx.input = &ConstInput("end\n");
    append(&mut ed, &mut ctx).unwrap();

    assert_eq!(ed.buffer.contents, "first\nend\n");
    assert_eq!(ed.buffer.line, 3);

    ed.buffer.line = 1;
    ctx.input = &ConstInput("middle\n");
    append(&mut ed, &mut ctx).unwrap();

    assert_eq!(ed.buffer.contents, "first\nmiddle\nend\n");
    assert_eq!(ed.buffer.line, 3);
}

#[test]
fn commands_test_change_line() {
    let mut ed = Editor::default();
    let mut ctx = CommandContext::with_output(String::new()).line(2);

    ed.buffer.contents.push_str("first\nsecond\nthird\n");
    ctx.input = &ConstInput("changed\n");
    change_line(&mut ed, &mut ctx).unwrap();

    assert_eq!(ed.buffer.contents, "first\nchanged\nthird\n");
}

#[test]
fn change_line_moves_to_changed_line() {
    let mut ed = Editor::default();
    ed.buffer.contents.push_str("first\nsecond\nthird\n");
    change_block(&mut ed, LineOffset::Absolute(3), "last\r\n").unwrap();
    assert_eq!(ed.buffer.contents, "first\nsecond\nlast\n");
    assert_eq!(ed.buffer.line, 3);
    change_block(&mut ed, LineOffset::Relative(-2), "one\n\n").unwrap();
    assert_eq!(ed.buffer.contents, "one\n\nsecond\nlast\n");
    assert_eq!(ed.buffer.line, 1);
    change_block(&mut ed, LineOffset::Absolute(2), "two").unwrap();
    assert_eq!(ed.buffer.contents, "one\ntwo\nsecond\nlast\n");
    assert_eq!(ed.buffer.line, 2);
}

#[test]
fn append_after_addressed_line() {
    let mut ed = Editor::default();
    ed.buffer.contents.push_str("a\nb\nc\n");
    append_block(&mut ed, LineOffset::Absolute(2), "x\ny\n").unwrap();
    assert_eq!(ed.buffer.contents, "a\nb\nx\ny\nc\n");
    assert_eq!(ed.buffer.line, 5);
    append_block(&mut ed, LineOffset::Relative(-4), "z\n").unwrap();
    assert_eq!(ed.buffer.contents, "a\nz\nb\nx\ny\nc\n");
    assert_eq!(ed.buffer.line, 3);
}

#[test]
fn read_failure_is_read_error_and_changes_nothing() {
    let mut ed = Editor::default();
    ed.buffer.contents.push_str("keep\n");
    let mut ctx = CommandContext::with_output(String::new());
    ctx.input = &FailingInput;
    assert!(matches!(append(&mut ed, &mut ctx), Err(CommandError::Read)));
    assert!(matches!(change_line(&mut ed, &mut ctx), Err(CommandError::Read)));
    // The default input has nothing to read either.
    let mut ctx = CommandContext::with_output(String::new());
    assert!(matches!(append(&mut ed, &mut ctx), Err(CommandError::Read)));
    assert_eq!(ed.buffer.contents, "keep\n");
    assert_eq!(ed.buffer.line, 1);
}

#[test]
fn print_line_past_end_is_generic_error() {
    let mut ed = Editor::default();
    ed.buffer.contents.push_str("only\n");
    let mut ctx = CommandContext::with_output(String::new());
    ed.buffer.line = 2;
    assert!(matches!(print_line(&mut ed, &mut ctx), Err(CommandError::Generic)));
    ed.buffer.line = 0;
    assert!(matches!(print_line(&mut ed, &mut ctx), Err(CommandError::Generic)));
    assert!(ctx.output.is_empty());
}

#[test]
fn list_numbers_every_line() {
    let mut ed = Editor::default();
    let text: String = (1..=12).map(|i| format!("line {i}\n")).collect();
    ed.buffer.contents.push_str(&text);
    let mut ctx = CommandContext::with_output(String::new());
    list(&mut ed, &mut ctx).unwrap();
    let expected: String = (1..=12).map(|i| format!("{i} line {i}\n")).collect();
    assert_eq!(ctx.output, expected);
}

#[test]
fn goto_line_zero_moves_to_line_one() {
    let mut ed = Editor::default();
    ed.buffer.line = 7;
    let mut ctx = CommandContext::with_output(String::new()).line(0);
    goto_line(&mut ed, &mut ctx).unwrap();
    assert_eq!(ed.buffer.line, 1);
}

#[test]
fn quit_display_and_noop_set_modes() {
    let mut ed = Editor::default();
    let mut ctx = CommandContext::with_output(String::new());
    display(&mut ed, &mut ctx).unwrap();
    assert!(ed.mode == EditorMode::Visual);
    display(&mut ed, &mut ctx).unwrap();
    assert!(ed.mode == EditorMode::Command);
    noop(&mut ed, &mut ctx).unwrap();
    assert!(ed.mode == EditorMode::Command);
    quit(&mut ed, &mut ctx).unwrap();
    assert!(ed.mode == EditorMode::Quit);
}

#[test]
fn decimal_string_writes_digits() {
    assert_eq!(decimal_string(0), "0");
    assert_eq!(decimal_string(9), "9");
    assert_eq!(decimal_string(10), "10");
    assert_eq!(decimal_string(1234567890), "1234567890");
    assert_eq!(decimal_string(usize::MAX), usize::MAX.to_string());
}

#[test]
fn read_outcome_decides_append_and_change() {
    let mut ed = Editor::default();
    ed.buffer.contents.push_str("a\nb\n");
    assert!(matches!(append_read(&mut ed, LineOffset::Absolute(1), Err(())), Err(CommandError::Read)));
    assert!(matches!(change_read(&mut ed, LineOffset::Absolute(1), Err(())), Err(CommandError::Read)));
    assert_eq!(ed.buffer.contents, "a\nb\n");
    append_read(&mut ed, LineOffset::Absolute(1), Ok(String::from("x\n"))).unwrap();
    assert_eq!(ed.buffer.contents, "a\nx\nb\n");
    change_read(&mut ed, LineOffset::Absolute(3), Ok(String::from("c\n"))).unwrap();
    assert_eq!(ed.buffer.contents, "a\nx\nc\n");
    assert_eq!(ed.buffer.line, 3);
}

#[test]
fn append_after_unterminated_last_line() {
    let mut ed = Editor::default();
    ed.buffer.contents.push_str("one\ntwo");
    append_block(&mut ed, LineOffset::Absolute(2), "\nthree").unwrap();
    assert_eq!(ed.buffer.contents, "one\ntwo\nthree");
}

#[test]
fn change_line_past_end_keeps_final_newline() {
    let mut ed = Editor::default();
    ed.buffer.contents.push_str("one\ntwo\nthree\n");
    change_block(&mut ed, LineOffset::Absolute(100), "last\n").unwrap();
    assert_eq!(ed.buffer.contents, "one\ntwo\nlast\n");
    assert_eq!(ed.buffer.line, 3);
}
