//! Editor state, the line-offset language, and what a command runs with.
use vstd::prelude::*;
use vstd::utf8::encode_utf8;
use crate::buffer::Buffer;
use crate::commands::{without_terminator, RETURN};
use crate::text::NEWLINE;

verus! {

/// The byte `+`.
pub const PLUS: u8 = 43;

/// The byte `-`.
pub const MINUS: u8 = 45;

/// The byte `.`.
pub const DOT: u8 = 46;

/// The byte `0`.
pub const ZERO: u8 = 48;

/// The editor: one buffer and the mode it is in.
pub struct Editor {
    pub buffer: Buffer,
    pub mode: EditorMode,
}

impl Default for Editor {
    fn default() -> (e: Self)
        ensures
            e.buffer.contents@ == Seq::<char>::empty(),
            e.buffer.line == 1,
            e.mode == EditorMode::Command,
    {
        Editor { buffer: Buffer::default(), mode: EditorMode::Command }
    }
}

impl Editor {
    /// Ends the session.
    pub fn kill(&mut self)
        ensures
            final(self).mode == EditorMode::Quit,
            final(self).buffer == old(self).buffer,
    {
        self.mode = EditorMode::Quit;
    }
}

/// The modes of the editor. `Quit` is final: no command runs after it.
#[derive(Debug, Clone, Copy, PartialEq, Eq, Structural)]
pub enum EditorMode {
    Command,
    Quit,
    Visual,
}

impl Default for EditorMode {
    fn default() -> (m: Self)
        ensures
            m == EditorMode::Command,
    {
        EditorMode::Command
    }
}

/// A line address: an absolute line number, or a distance from the current line.
#[derive(Debug, Clone, Copy, PartialEq, Eq, Structural)]
pub enum LineOffset {
    Relative(isize),
    Absolute(usize),
}

impl Default for LineOffset {
    fn default() -> (o: Self)
        ensures
            o == LineOffset::Relative(0),
    {
        LineOffset::Relative(0)
    }
}

/// `true` for the bytes `0` to `9`.
pub open spec fn is_digit(b: u8) -> bool {
    ZERO <= b <= ZERO + 9
}

/// A non-empty run of decimal digits.
pub open spec fn is_digits(b: Seq<u8>) -> bool {
    b.len() > 0 && forall|i: int| 0 <= i < b.len() ==> is_digit(#[trigger] b[i])
}

/// The number that a run of decimal digits writes.
pub open spec fn digits_value(b: Seq<u8>) -> nat
    decreases b.len(),
{
    if b.len() == 0 {
        0
    } else {
        digits_value(b.drop_last()) * 10 + (b.last() - ZERO) as nat
    }
}

/// The line offset that a token writes, if it is one: `+` or `-` alone, a
/// sign and digits, or digits alone.
pub open spec fn parse_offset(b: Seq<u8>) -> Option<LineOffset> {
    if b.len() == 0 {
        None
    } else if b[0] == PLUS || b[0] == MINUS {
        let rest = b.drop_first();
        let v = if rest.len() == 0 { 1 } else { digits_value(rest) as int };
        if rest.len() != 0 && !(is_digits(rest) && digits_value(rest) <= isize::MAX) {
            None
        } else if b[0] == PLUS {
            Some(LineOffset::Relative(v as isize))
        } else {
            Some(LineOffset::Relative(-v as isize))
        }
    } else if is_digits(b) && digits_value(b) <= usize::MAX {
        Some(LineOffset::Absolute(digits_value(b) as usize))
    } else {
        None
    }
}

/// A line number held between line 1 and the largest `usize`.
pub open spec fn clamp_line(target: int) -> int {
    if target < 1 {
        1
    } else if target > usize::MAX {
        usize::MAX as int
    } else {
        target
    }
}

impl LineOffset {
    /// The line this offset addresses from line `current`.
    pub open spec fn resolve(self, current: int) -> int {
        match self {
            LineOffset::Absolute(n) => n as int,
            LineOffset::Relative(d) => clamp_line(current + d),
        }
    }

    /// The line this offset addresses from line `l`: an absolute line as
    /// written (0 included); a relative one clamped to at least 1.
    pub fn shift(&self, l: usize) -> (r: usize)
        ensures
            r == self.resolve(l as int),
    {
        match *self {
            LineOffset::Absolute(n) => n,
            LineOffset::Relative(d) => {
                if d >= 0 {
                    let up = d as usize;
                    if up > usize::MAX - l {
                        usize::MAX
                    } else if l + up == 0 {
                        1
                    } else {
                        l + up
                    }
                } else {
                    let down = (-(d + 1)) as usize + 1;
                    if down >= l {
                        1
                    } else {
                        l - down
                    }
                }
            },
        }
    }

    /// Reads a line offset from a token, as `parse_offset` states.
    pub fn parse(s: &str) -> (r: Result<LineOffset, ()>)
        ensures
            r == (match parse_offset(encode_utf8(s@)) {
                Some(o) => Ok::<LineOffset, ()>(o),
                None => Err(()),
            }),
    {
        let b = s.as_bytes();
        let len = b.len();
        if len == 0 {
            return Err(());
        }
        let first = b[0];
        if first == PLUS || first == MINUS {
            proof {
                assert(b@.subrange(1, len as int) =~= b@.drop_first());
            }
            let v: usize = if len == 1 {
                1
            } else {
                match parse_digits(b, 1, isize::MAX as usize) {
                    Some(v) => v,
                    None => return Err(()),
                }
            };
            if first == PLUS {
                Ok(LineOffset::Relative(v as isize))
            } else {
                Ok(LineOffset::Relative(-(v as isize)))
            }
        } else {
            proof {
                assert(b@.subrange(0, len as int) =~= b@);
            }
            match parse_digits(b, 0, usize::MAX) {
                Some(v) => Ok(LineOffset::Absolute(v)),
                None => Err(()),
            }
        }
    }
}

impl std::str::FromStr for LineOffset {
    type Err = ();

    fn from_str(s: &str) -> Result<LineOffset, ()> {
        LineOffset::parse(s)
    }
}

/// A parsed address resolves as written: digits name their line whatever
/// the current line, `+N` and `-N` (`+` and `-` alone meaning 1) move from
/// the current line, and a move never lands before line 1.
pub proof fn lemma_parsed_offset_resolves(b: Seq<u8>, current: int)
    requires
        parse_offset(b) is Some,
        0 <= current <= usize::MAX,
    ensures
        b[0] != PLUS && b[0] != MINUS ==> parse_offset(b).unwrap().resolve(current) == digits_value(b),
        b[0] == PLUS ==> parse_offset(b).unwrap().resolve(current) == clamp_line(
            current + if b.len() == 1 { 1 } else { digits_value(b.drop_first()) as int },
        ),
        b[0] == MINUS ==> parse_offset(b).unwrap().resolve(current) == clamp_line(
            current - if b.len() == 1 { 1 } else { digits_value(b.drop_first()) as int },
        ),
        b[0] == PLUS || b[0] == MINUS ==> parse_offset(b).unwrap().resolve(current) >= 1,
{
}

/// The value of the digits `b[from..]`, if they are digits and it is at most `limit`.
fn parse_digits(b: &[u8], from: usize, limit: usize) -> (r: Option<usize>)
    requires
        from <= b@.len(),
    ensures
        r == (if is_digits(b@.subrange(from as int, b@.len() as int)) && digits_value(
            b@.subrange(from as int, b@.len() as int),
        ) <= limit {
            Some(digits_value(b@.subrange(from as int, b@.len() as int)) as usize)
        } else {
            None::<usize>
        }),
{
    let ghost d = b@.subrange(from as int, b@.len() as int);
    let len = b.len();
    if from == len {
        return None;
    }
    let mut i = from;
    let mut value: usize = 0;
    let mut fits = true;
    while i < len
        invariant
            from <= i <= len,
            len == b@.len(),
            d == b@.subrange(from as int, len as int),
            forall|k: int| 0 <= k < i - from ==> is_digit(#[trigger] d[k]),
            fits ==> value == digits_value(d.subrange(0, i - from)) && value <= limit,
            !fits ==> digits_value(d.subrange(0, i - from)) > limit,
        decreases len - i,
    {
        let c = b[i];
        if c < ZERO || c > ZERO + 9 {
            assert(!is_digit(d[i - from]));
            return None;
        }
        let digit = (c - ZERO) as usize;
        let ghost prefix = d.subrange(0, i - from + 1);
        assert(prefix.drop_last() =~= d.subrange(0, i - from));
        assert(prefix.last() == c);
        if fits {
            if digit > limit || value > (limit - digit) / 10 {
                assert(value * 10 + digit > limit) by (nonlinear_arith)
                    requires
                        digit > limit || value > (limit - digit) / 10,
                        value >= 0,
                ;
                fits = false;
            } else {
                assert(value * 10 + digit <= limit) by (nonlinear_arith)
                    requires
                        value <= (limit - digit) / 10,
                        digit <= limit,
                ;
                value = value * 10 + digit;
            }
        } else {
            assert(digits_value(prefix) >= digits_value(prefix.drop_last())) by (nonlinear_arith)
                requires
                    digits_value(prefix) == digits_value(prefix.drop_last()) * 10 + (prefix.last() - ZERO) as nat,
            ;
        }
        i = i + 1;
    }
    assert(d.subrange(0, len - from) =~= d);
    if fits {
        Some(value)
    } else {
        None
    }
}

/// Where a command reads a block of text from: lines up to one that holds
/// only `.`, that line left out and line terminators kept.
pub trait TextInput {
    fn read(&self) -> Result<String, ()>;
}

/// `line`, read with its terminator, is the line that ends a block: `.`
/// alone once its terminator is taken off.
pub fn ends_block(line: &str) -> (r: bool)
    ensures
        r == (without_terminator(encode_utf8(line@)) == seq![DOT]),
{
    let b = line.as_bytes();
    let len = b.len();
    let ghost w = without_terminator(b@);
    assert(w == seq![DOT] <==> (w.len() == 1 && w[0] == DOT)) by {
        if w.len() == 1 && w[0] == DOT {
            assert(w =~= seq![DOT]);
        }
    }
    if len == 1 {
        b[0] == DOT
    } else if len == 2 {
        b[0] == DOT && b[1] == NEWLINE
    } else if len == 3 {
        b[0] == DOT && b[1] == RETURN && b[2] == NEWLINE
    } else {
        false
    }
}

/// An input with no text to give: every read fails.
pub struct NoInput;

impl TextInput for NoInput {
    fn read(&self) -> Result<String, ()> {
        Err(())
    }
}

/// What one command runs with: the line it addresses, where it writes, and
/// where it reads blocks of text.
pub struct CommandContext<'a> {
    pub destination: LineOffset,
    pub output: String,
    pub input: &'a dyn TextInput,
}

impl<'a> CommandContext<'a> {
    /// A context that writes after `output`, addresses the current line and
    /// has no input to read.
    pub fn with_output(output: String) -> (c: Self)
        ensures
            c.destination == LineOffset::Relative(0),
            c.output == output,
    {
        CommandContext { destination: LineOffset::Relative(0), output, input: &NoInput }
    }

    /// The same context, addressing line `line`.
    pub fn line(self, line: usize) -> (c: Self)
        ensures
            c.destination == LineOffset::Absolute(line),
            c.output == self.output,
    {
        CommandContext { destination: LineOffset::Absolute(line), ..self }
    }

    /// The same context, addressing `n` lines from the current one.
    pub fn line_relative(self, n: isize) -> (c: Self)
        ensures
            c.destination == LineOffset::Relative(n),
            c.output == self.output,
    {
        CommandContext { destination: LineOffset::Relative(n), ..self }
    }

    /// The same context, addressing `o`.
    pub fn line_offset(self, o: &LineOffset) -> (c: Self)
        ensures
            c.destination == *o,
            c.output == self.output,
    {
        CommandContext { destination: *o, ..self }
    }
}

/// A command: anything that runs against the editor with a context.
pub trait EditorFn {
    fn apply(&self, ed: &mut Editor, ctx: &mut CommandContext) -> Result<(), CommandError>;
}

/// std's I/O error, carried as the cause of a failed read or write.
#[verifier::external_type_specification]
#[verifier::external_body]
pub struct ExIoError(std::io::Error);

/// Why a command failed.
#[derive(Debug)]
pub enum CommandError {
    /// Reading or writing failed underneath.
    IOError(std::io::Error),
    /// The command makes no sense in this state.
    Generic,
    /// No block of text could be read.
    Read,
    /// The output is not a terminal.
    NotTty,
}

impl From<std::io::Error> for CommandError {
    fn from(err: std::io::Error) -> (e: Self)
        ensures
            e == CommandError::IOError(err),
    {
        CommandError::IOError(err)
    }
}

impl vstd::std_specs::convert::FromSpecImpl<std::io::Error> for CommandError {
    open spec fn obeys_from_spec() -> bool {
        true
    }

    open spec fn from_spec(err: std::io::Error) -> Self {
        CommandError::IOError(err)
    }
}

} // verus!
