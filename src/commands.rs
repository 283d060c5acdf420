//! The commands: each runs against the editor with one context.
use vstd::prelude::*;
use vstd::string::*;
use vstd::utf8::{encode_utf8, is_ascii_chars};
use crate::buffer::substr;
use crate::editor::{CommandContext, CommandError, Editor, EditorFn, EditorMode, LineOffset, ZERO};
use crate::text::{
    lemma_ascii_boundaries, lemma_encode_concat, line_bytes, line_count, line_end,
    line_number_at, line_region, NEWLINE,
};

verus! {

broadcast use vstd::utf8::group_utf8_lib;

/// The byte ` `.
pub const SPACE: u8 = 32;

/// The byte `\r`.
pub const RETURN: u8 = 13;

/// The decimal digits of `n`, most significant first.
pub open spec fn decimal(n: nat) -> Seq<u8>
    decreases n,
{
    if n < 10 {
        seq![(ZERO + n) as u8]
    } else {
        decimal(n / 10).push((ZERO + n % 10) as u8)
    }
}

/// The listing of the first `k` lines of `t`: each line's number, a space,
/// the line and a newline.
pub open spec fn listing(t: Seq<u8>, k: int) -> Seq<u8>
    decreases k,
{
    if k <= 0 {
        seq![]
    } else {
        listing(t, k - 1) + decimal(k as nat) + seq![SPACE] + line_bytes(t, k) + seq![NEWLINE]
    }
}

/// `b` without one trailing line terminator (`\n` or `\r\n`), if it has one.
pub open spec fn without_terminator(b: Seq<u8>) -> Seq<u8> {
    if b.len() >= 2 && b[b.len() - 2] == RETURN && b[b.len() - 1] == NEWLINE {
        b.subrange(0, b.len() - 2)
    } else if b.len() >= 1 && b[b.len() - 1] == NEWLINE {
        b.subrange(0, b.len() - 1)
    } else {
        b
    }
}

/// The line `goto_line` moves to: the addressed one, and line 1 for line 0.
pub open spec fn goto_target(destination: LineOffset, current: int) -> int {
    if destination.resolve(current) < 1 {
        1
    } else {
        destination.resolve(current)
    }
}

/// `goto_line` never moves before line 1: a relative move that would land
/// lower goes to line 1, and so does an address of line 0.
pub proof fn lemma_goto_at_least_one(destination: LineOffset, current: int)
    requires
        0 <= current <= usize::MAX,
    ensures
        goto_target(destination, current) >= 1,
        destination matches LineOffset::Relative(d) && current + d < 1 ==> goto_target(
            destination,
            current,
        ) == 1,
{
}

/// What appending the block `s` after the line that `destination` addresses
/// does: `after` and `r` are the editor and result it leaves.
pub open spec fn appended(
    before: Editor,
    destination: LineOffset,
    s: Seq<u8>,
    after: Editor,
    r: Result<(), CommandError>,
) -> bool {
    let t = before.buffer.text();
    let at = line_end(t, destination.resolve(before.buffer.line as int));
    if at + s.len() >= usize::MAX {
        (r matches Err(CommandError::Generic)) && after == before
    } else {
        &&& r is Ok
        &&& after.buffer.text() == t.subrange(0, at) + s + t.subrange(at, t.len() as int)
        &&& after.buffer.line == line_number_at(after.buffer.text(), at + s.len())
        &&& after.mode == before.mode
    }
}

/// What putting the block `s`, less one trailing line terminator, in place
/// of the line that `destination` addresses does.
pub open spec fn changed(
    before: Editor,
    destination: LineOffset,
    s: Seq<u8>,
    after: Editor,
    r: Result<(), CommandError>,
) -> bool {
    let t = before.buffer.text();
    let region = line_region(t, destination.resolve(before.buffer.line as int));
    let block = without_terminator(s);
    if region.0 >= usize::MAX {
        (r matches Err(CommandError::Generic)) && after == before
    } else {
        &&& r is Ok
        &&& after.buffer.text() == t.subrange(0, region.0) + block + t.subrange(
            region.1,
            t.len() as int,
        )
        &&& after.buffer.line == line_number_at(after.buffer.text(), region.0)
        &&& after.mode == before.mode
    }
}

/// What appending the outcome of a read does: the block read (`Some`), or a
/// failed read (`None`), which leaves the editor as it was and gives `Read`.
pub open spec fn appended_read(
    before: Editor,
    destination: LineOffset,
    block: Option<Seq<u8>>,
    after: Editor,
    r: Result<(), CommandError>,
) -> bool {
    match block {
        Some(s) => appended(before, destination, s, after, r),
        None => (r matches Err(CommandError::Read)) && after == before,
    }
}

/// What changing a line to the outcome of a read does, as `appended_read`.
pub open spec fn changed_read(
    before: Editor,
    destination: LineOffset,
    block: Option<Seq<u8>>,
    after: Editor,
    r: Result<(), CommandError>,
) -> bool {
    match block {
        Some(s) => changed(before, destination, s, after, r),
        None => (r matches Err(CommandError::Read)) && after == before,
    }
}

/// The bytes of a block that a read gave, or `None` where the read failed.
pub open spec fn read_bytes(block: Result<String, ()>) -> Option<Seq<u8>> {
    match block {
        Ok(text) => Some(encode_utf8(text@)),
        Err(_) => None,
    }
}

/// The text of a one-character ASCII literal, as a byte.
proof fn lemma_ascii_literal(s: Seq<char>)
    requires
        s.len() == 1,
        '\0' <= s[0] <= '\u{7f}',
    ensures
        encode_utf8(s) == seq![s[0] as u8],
{
    assert(is_ascii_chars(s));
    assert(encode_utf8(s) =~= seq![s[0] as u8]);
}

/// Adds `s` to the end of `out`.
fn put(out: &mut String, s: &str)
    ensures
        encode_utf8(final(out)@) == encode_utf8(old(out)@) + encode_utf8(s@),
{
    proof {
        lemma_encode_concat(old(out)@, s@);
    }
    out.append(s);
}

/// The digit `d` as text.
fn digit(d: usize) -> (s: &'static str)
    requires
        d < 10,
    ensures
        encode_utf8(s@) == seq![(ZERO + d) as u8],
{
    proof {
        reveal_strlit("0");
        reveal_strlit("1");
        reveal_strlit("2");
        reveal_strlit("3");
        reveal_strlit("4");
        reveal_strlit("5");
        reveal_strlit("6");
        reveal_strlit("7");
        reveal_strlit("8");
        reveal_strlit("9");
        lemma_ascii_literal("0"@);
        lemma_ascii_literal("1"@);
        lemma_ascii_literal("2"@);
        lemma_ascii_literal("3"@);
        lemma_ascii_literal("4"@);
        lemma_ascii_literal("5"@);
        lemma_ascii_literal("6"@);
        lemma_ascii_literal("7"@);
        lemma_ascii_literal("8"@);
        lemma_ascii_literal("9"@);
    }
    match d {
        0 => "0",
        1 => "1",
        2 => "2",
        3 => "3",
        4 => "4",
        5 => "5",
        6 => "6",
        7 => "7",
        8 => "8",
        _ => "9",
    }
}

/// `n` written in decimal.
pub fn decimal_string(n: usize) -> (s: String)
    ensures
        encode_utf8(s@) == decimal(n as nat),
    decreases n,
{
    if n < 10 {
        String::from_str(digit(n))
    } else {
        let mut s = decimal_string(n / 10);
        put(&mut s, digit(n % 10));
        assert(encode_utf8(s@) =~= decimal(n as nat));
        s
    }
}

/// `s` without one trailing line terminator.
fn strip_terminator(s: &str) -> (r: &str)
    ensures
        encode_utf8(r@) == without_terminator(encode_utf8(s@)),
{
    let b = s.as_bytes();
    let len = b.len();
    let ghost t = encode_utf8(s@);
    if len >= 2 && b[len - 2] == RETURN && b[len - 1] == NEWLINE {
        proof {
            lemma_ascii_boundaries(t, len - 2);
        }
        substr(s, 0, len - 2)
    } else if len >= 1 && b[len - 1] == NEWLINE {
        proof {
            lemma_ascii_boundaries(t, len - 1);
        }
        substr(s, 0, len - 1)
    } else {
        s
    }
}

/// Writes every line, each after its number and a space, one per output line.
pub fn list(ed: &mut Editor, ctx: &mut CommandContext) -> (r: Result<(), CommandError>)
    ensures
        r is Ok,
        *final(ed) == *old(ed),
        final(ctx).destination == old(ctx).destination,
        encode_utf8(final(ctx).output@) == encode_utf8(old(ctx).output@) + listing(
            old(ed).buffer.text(),
            line_count(old(ed).buffer.text()),
        ),
{
    let ghost t = ed.buffer.text();
    let ghost start = encode_utf8(ctx.output@);
    let lines = ed.buffer.lines();
    let mut i: usize = 0;
    while i < lines.len()
        invariant
            i <= lines@.len() == line_count(t),
            t == ed.buffer.text(),
            forall|j: int|
                0 <= j < lines@.len() ==> (#[trigger] lines@[j]).0 == j + 1 && encode_utf8(
                    lines@[j].1@,
                ) == line_bytes(t, j + 1),
            encode_utf8(ctx.output@) == start + listing(t, i as int),
            ctx.destination == old(ctx).destination,
        decreases lines@.len() - i,
    {
        let (n, piece) = lines[i];
        let number = decimal_string(n);
        proof {
            reveal_strlit(" ");
            reveal_strlit("\n");
            lemma_ascii_literal(" "@);
            lemma_ascii_literal("\n"@);
        }
        put(&mut ctx.output, number.as_str());
        put(&mut ctx.output, " ");
        put(&mut ctx.output, piece);
        put(&mut ctx.output, "\n");
        i = i + 1;
        assert(encode_utf8(ctx.output@) =~= start + listing(t, i as int));
    }
    Ok(())
}

/// Writes the current line; fails with `Generic` where there is no such line.
pub fn print_line(ed: &mut Editor, ctx: &mut CommandContext) -> (r: Result<(), CommandError>)
    ensures
        *final(ed) == *old(ed),
        final(ctx).destination == old(ctx).destination,
        1 <= old(ed).buffer.line <= line_count(old(ed).buffer.text()) ==> r is Ok && encode_utf8(
            final(ctx).output@,
        ) == encode_utf8(old(ctx).output@) + line_bytes(
            old(ed).buffer.text(),
            old(ed).buffer.line as int,
        ) + seq![NEWLINE],
        !(1 <= old(ed).buffer.line <= line_count(old(ed).buffer.text())) ==> (r matches Err(
            CommandError::Generic,
        )) && final(ctx).output@ == old(ctx).output@,
{
    let lines = ed.buffer.lines();
    let line = ed.buffer.line;
    if line >= 1 && line <= lines.len() {
        let (_, piece) = lines[line - 1];
        proof {
            reveal_strlit("\n");
            lemma_ascii_literal("\n"@);
        }
        put(&mut ctx.output, piece);
        put(&mut ctx.output, "\n");
        Ok(())
    } else {
        Err(CommandError::Generic)
    }
}

/// Inserts `text` after the end of the line that `destination` addresses
/// from the current line, and moves to the line just after it.
///
/// Fails with `Generic`, changing nothing, where the text would end at the
/// largest offset a `usize` holds.
pub fn append_block(ed: &mut Editor, destination: LineOffset, text: &str) -> (r: Result<
    (),
    CommandError,
>)
    ensures
        appended(*old(ed), destination, encode_utf8(text@), *final(ed), r),
{
    let target = destination.shift(ed.buffer.line);
    let p = ed.buffer.end_of_line(target);
    let added = text.as_bytes().len();
    if added >= usize::MAX - p.0 {
        return Err(CommandError::Generic);
    }
    let q = ed.buffer.insert(p, text);
    ed.buffer.line = ed.buffer.line_at_point(&q);
    Ok(())
}

/// Inserts the block that a read gave after the addressed line (see
/// `append_block`); fails with `Read` where the read failed.
pub fn append_read(ed: &mut Editor, destination: LineOffset, block: Result<String, ()>) -> (r:
    Result<(), CommandError>)
    ensures
        appended_read(*old(ed), destination, read_bytes(block), *final(ed), r),
{
    match block {
        Ok(text) => append_block(ed, destination, text.as_str()),
        Err(_) => Err(CommandError::Read),
    }
}

/// Reads a block of text from the context's input and inserts it after the
/// addressed line (see `append_read`).
pub fn append(ed: &mut Editor, ctx: &mut CommandContext) -> (r: Result<(), CommandError>)
    ensures
        exists|block: Option<Seq<u8>>|
            appended_read(*old(ed), old(ctx).destination, block, *final(ed), r),
        final(ctx).output@ == old(ctx).output@,
        final(ctx).destination == old(ctx).destination,
{
    let block = ctx.input.read();
    append_read(ed, ctx.destination, block)
}

/// Puts `text`, less one trailing line terminator, in place of the line
/// that `destination` addresses, and moves to the line where it starts.
///
/// Fails with `Generic`, changing nothing, where that line starts at the
/// largest offset a `usize` holds.
pub fn change_block(ed: &mut Editor, destination: LineOffset, text: &str) -> (r: Result<
    (),
    CommandError,
>)
    ensures
        changed(*old(ed), destination, encode_utf8(text@), *final(ed), r),
{
    let target = destination.shift(ed.buffer.line);
    let region = ed.buffer.line_at(target);
    if region.0 == usize::MAX {
        return Err(CommandError::Generic);
    }
    let r = ed.buffer.replace(region, strip_terminator(text));
    ed.buffer.line = ed.buffer.region_line_number(&r);
    Ok(())
}

/// Puts the block that a read gave in place of the addressed line (see
/// `change_block`); fails with `Read` where the read failed.
pub fn change_read(ed: &mut Editor, destination: LineOffset, block: Result<String, ()>) -> (r:
    Result<(), CommandError>)
    ensures
        changed_read(*old(ed), destination, read_bytes(block), *final(ed), r),
{
    match block {
        Ok(text) => change_block(ed, destination, text.as_str()),
        Err(_) => Err(CommandError::Read),
    }
}

/// Reads a block of text from the context's input and puts it in place of
/// the addressed line (see `change_read`).
pub fn change_line(ed: &mut Editor, ctx: &mut CommandContext) -> (r: Result<(), CommandError>)
    ensures
        exists|block: Option<Seq<u8>>|
            changed_read(*old(ed), old(ctx).destination, block, *final(ed), r),
        final(ctx).output@ == old(ctx).output@,
        final(ctx).destination == old(ctx).destination,
{
    let block = ctx.input.read();
    change_read(ed, ctx.destination, block)
}

/// Moves to the line that the context addresses; an address of line 0 moves to line 1.
pub fn goto_line(ed: &mut Editor, ctx: &mut CommandContext) -> (r: Result<(), CommandError>)
    ensures
        r is Ok,
        final(ed).buffer.line == goto_target(old(ctx).destination, old(ed).buffer.line as int),
        final(ed).buffer.contents == old(ed).buffer.contents,
        final(ed).mode == old(ed).mode,
        final(ctx).output@ == old(ctx).output@,
        final(ctx).destination == old(ctx).destination,
{
    let target = ctx.destination.shift(ed.buffer.line);
    ed.buffer.line = if target == 0 {
        1
    } else {
        target
    };
    Ok(())
}

/// Ends the session.
pub fn quit(ed: &mut Editor, ctx: &mut CommandContext) -> (r: Result<(), CommandError>)
    ensures
        r is Ok,
        final(ed).mode == EditorMode::Quit,
        final(ed).buffer == old(ed).buffer,
        final(ctx).output@ == old(ctx).output@,
        final(ctx).destination == old(ctx).destination,
{
    ed.kill();
    Ok(())
}

/// Does nothing.
pub fn noop(ed: &mut Editor, ctx: &mut CommandContext) -> (r: Result<(), CommandError>)
    ensures
        r is Ok,
        *final(ed) == *old(ed),
        final(ctx).output@ == old(ctx).output@,
        final(ctx).destination == old(ctx).destination,
{
    Ok(())
}

/// Switches between command mode and visual mode; from any other mode, to visual mode.
pub fn display(ed: &mut Editor, ctx: &mut CommandContext) -> (r: Result<(), CommandError>)
    ensures
        r is Ok,
        final(ed).mode == if old(ed).mode == EditorMode::Visual {
            EditorMode::Command
        } else {
            EditorMode::Visual
        },
        final(ed).buffer == old(ed).buffer,
        final(ctx).output@ == old(ctx).output@,
        final(ctx).destination == old(ctx).destination,
{
    if ed.mode == EditorMode::Visual {
        ed.mode = EditorMode::Command;
    } else {
        ed.mode = EditorMode::Visual;
    }
    Ok(())
}

/// The commands of the editor, as values that can be bound to a code.
#[derive(Debug, Clone, Copy, PartialEq, Eq, Structural)]
pub enum Handler {
    List,
    PrintLine,
    Append,
    ChangeLine,
    GotoLine,
    Quit,
    Display,
    Noop,
}

impl Handler {
    /// What running this command does: from editor `before` and output
    /// `out_before`, with address `destination`, it leaves editor `after`,
    /// output `out_after` and result `r`.
    pub open spec fn runs(
        self,
        before: Editor,
        destination: LineOffset,
        out_before: Seq<char>,
        after: Editor,
        out_after: Seq<char>,
        r: Result<(), CommandError>,
    ) -> bool {
        let t = before.buffer.text();
        let line = before.buffer.line;
        match self {
            Handler::List => {
                &&& r is Ok
                &&& after == before
                &&& encode_utf8(out_after) == encode_utf8(out_before) + listing(t, line_count(t))
            },
            Handler::PrintLine => {
                &&& after == before
                &&& if 1 <= line <= line_count(t) {
                    r is Ok && encode_utf8(out_after) == encode_utf8(out_before) + line_bytes(
                        t,
                        line as int,
                    ) + seq![NEWLINE]
                } else {
                    (r matches Err(CommandError::Generic)) && out_after == out_before
                }
            },
            Handler::Append => {
                &&& out_after == out_before
                &&& exists|block: Option<Seq<u8>>|
                    appended_read(before, destination, block, after, r)
            },
            Handler::ChangeLine => {
                &&& out_after == out_before
                &&& exists|block: Option<Seq<u8>>|
                    changed_read(before, destination, block, after, r)
            },
            Handler::GotoLine => {
                &&& r is Ok
                &&& out_after == out_before
                &&& after.buffer.line == goto_target(destination, line as int)
                &&& after.buffer.contents == before.buffer.contents
                &&& after.mode == before.mode
            },
            Handler::Quit => {
                &&& r is Ok
                &&& out_after == out_before
                &&& after.mode == EditorMode::Quit
                &&& after.buffer == before.buffer
            },
            Handler::Display => {
                &&& r is Ok
                &&& out_after == out_before
                &&& after.mode == if before.mode == EditorMode::Visual {
                    EditorMode::Command
                } else {
                    EditorMode::Visual
                }
                &&& after.buffer == before.buffer
            },
            Handler::Noop => r is Ok && out_after == out_before && after == before,
        }
    }

    /// Runs this command against `ed` with `ctx`.
    pub fn run_with(&self, ed: &mut Editor, ctx: &mut CommandContext) -> (r: Result<
        (),
        CommandError,
    >)
        ensures
            self.runs(
                *old(ed),
                old(ctx).destination,
                old(ctx).output@,
                *final(ed),
                final(ctx).output@,
                r,
            ),
            final(ctx).destination == old(ctx).destination,
    {
        match self {
            Handler::List => list(ed, ctx),
            Handler::PrintLine => print_line(ed, ctx),
            Handler::Append => append(ed, ctx),
            Handler::ChangeLine => change_line(ed, ctx),
            Handler::GotoLine => goto_line(ed, ctx),
            Handler::Quit => quit(ed, ctx),
            Handler::Display => display(ed, ctx),
            Handler::Noop => noop(ed, ctx),
        }
    }
}

impl EditorFn for Handler {
    fn apply(&self, ed: &mut Editor, ctx: &mut CommandContext) -> Result<(), CommandError> {
        self.run_with(ed, ctx)
    }
}

} // verus!
