use line_editor::commands::Handler;
use line_editor::editor::{Editor, LineOffset, TextInput};
use line_editor::map::CommandMap;

struct ConstInput(&'static str);

impl TextInput for ConstInput {
    fn read(&self) -> Result<String, ()> {
        Ok(String::from(self.0))
    }
}

#[test]
fn test_lookup_command() {
    let mut map = CommandMap::default();
    map.bind("a", "append", Handler::Noop);
    let cmd = map.lookup("a").unwrap();
    assert_eq!(cmd.name, "append");
}

#[test]
fn test_line_command() {
    let mut map = CommandMap::default();
    map.bind_number("goto-line", Handler::Noop);

    let cmd = map.lookup("123").unwrap();
    assert_eq!(cmd.name, "goto-line");
    assert_eq!(cmd.line, LineOffset::Absolute(123));

    let cmd = map.lookup("+").unwrap();
    assert_eq!(cmd.name, "goto-line");
    assert_eq!(cmd.line, LineOffset::Relative(1));
}

#[test]
fn test_noop_command() {
    let map = CommandMap::default();
    let cmd = map.lookup("").unwrap();
    assert_eq!(cmd.name, "noop");
}

#[test]
fn lookup_trims_input() {
    let mut map = CommandMap::default();
    map.bind("p", "print-line", Handler::PrintLine);
    map.bind_number("goto-line", Handler::GotoLine);
    let cmd = map.lookup("  12 \n").unwrap();
    assert_eq!(cmd.name, "goto-line");
    assert_eq!(cmd.f, Handler::GotoLine);
    assert_eq!(cmd.line, LineOffset::Absolute(12));
    let cmd = map.lookup("\tprint\n").unwrap();
    assert_eq!(cmd.name, "print-line");
    assert_eq!(cmd.line, LineOffset::Relative(0));
    let cmd = map.lookup("   \n").unwrap();
    assert_eq!(cmd.name, "noop");
    assert_eq!(cmd.f, Handler::Noop);
}

#[test]
fn lookup_of_unbound_code_fails() {
    let mut map = CommandMap::default();
    map.bind("a", "append", Handler::Append);
    assert!(map.lookup("x").is_none());
    assert!(map.lookup("+x").is_none());
    assert!(map.lookup("é").is_none());
}

#[test]
fn later_binding_replaces_earlier() {
    let mut map = CommandMap::default();
    map.bind("q", "quit", Handler::Quit);
    map.bind("quiet", "noop-q", Handler::Noop);
    map.bind("", "ignored", Handler::List);
    let cmd = map.lookup("q").unwrap();
    assert_eq!(cmd.name, "noop-q");
    assert_eq!(cmd.f, Handler::Noop);
    map.bind("é", "accent", Handler::List);
    assert_eq!(map.lookup("été").unwrap().name, "accent");
}

#[test]
fn run_applies_bound_command_with_its_address() {
    let mut map = CommandMap::default();
    map.bind("a", "append", Handler::Append);
    map.bind("l", "list", Handler::List);
    map.bind_number("goto-line", Handler::GotoLine);
    let mut ed = Editor::default();
    ed.buffer.contents.push_str("one\ntwo\n");
    let mut out = String::new();

    map.lookup("2").unwrap().run(&mut ed, &ConstInput(""), &mut out).unwrap();
    assert_eq!(ed.buffer.line, 2);
    map.lookup("a").unwrap().run(&mut ed, &ConstInput("three\n"), &mut out).unwrap();
    assert_eq!(ed.buffer.contents, "one\ntwo\nthree\n");
    map.lookup("l").unwrap().run(&mut ed, &ConstInput(""), &mut out).unwrap();
    assert_eq!(out, "1 one\n2 two\n3 three\n");
}

#[test]
fn lookup_trims_unicode_white_space() {
    let mut map = CommandMap::default();
    map.bind("a", "append", Handler::Append);
    let cmd = map.lookup("\u{3000}a\u{a0}\u{2028}").unwrap();
    assert_eq!(cmd.name, "append");
    let cmd = map.lookup("\u{85}\u{200a}").unwrap();
    assert_eq!(cmd.name, "noop");
}
