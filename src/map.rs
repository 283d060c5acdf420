//! The command table: resolves a line of input to a command ready to run.
use vstd::prelude::*;
use vstd::string::*;
use vstd::utf8::encode_utf8;
use std::collections::HashMap;
use crate::commands::Handler;
use crate::editor::{parse_offset, CommandContext, CommandError, Editor, LineOffset, TextInput};

verus! {

broadcast use vstd::std_specs::hash::group_hash_axioms;

/// `c` has the Unicode property White_Space.
pub open spec fn is_white_space(c: char) -> bool {
    let v = c as u32;
    ||| 0x9 <= v <= 0xd
    ||| v == 0x20
    ||| v == 0x85
    ||| v == 0xa0
    ||| v == 0x1680
    ||| 0x2000 <= v <= 0x200a
    ||| v == 0x2028
    ||| v == 0x2029
    ||| v == 0x202f
    ||| v == 0x205f
    ||| v == 0x3000
}

/// `s` without its leading white space.
pub open spec fn trim_start(s: Seq<char>) -> Seq<char>
    decreases s.len(),
{
    if s.len() > 0 && is_white_space(s[0]) {
        trim_start(s.drop_first())
    } else {
        s
    }
}

/// `s` without its trailing white space.
pub open spec fn trim_end(s: Seq<char>) -> Seq<char>
    decreases s.len(),
{
    if s.len() > 0 && is_white_space(s.last()) {
        trim_end(s.drop_last())
    } else {
        s
    }
}

/// `s` without leading and trailing white space.
pub open spec fn trimmed(s: Seq<char>) -> Seq<char> {
    trim_end(trim_start(s))
}

/// Relies on `str::trim`: `s` without leading and trailing characters that
/// have the Unicode property White_Space.
#[verifier::external_body]
fn trim(s: &str) -> (r: &str)
    ensures
        r@ == trimmed(s@),
{
    s.trim()
}

/// A bound command: what it runs and the name it is shown by.
struct InnerCommand {
    f: Handler,
    name: String,
}

/// The command table: a command for each leading character, one for input
/// that is a line address, and one for empty input.
pub struct CommandMap {
    map: HashMap<u32, InnerCommand>,
    number: InnerCommand,
    noop: InnerCommand,
}

/// A command resolved for one line of input: what runs, its name, and the
/// line it addresses.
#[derive(Debug)]
pub struct Command<'a> {
    pub f: Handler,
    pub name: &'a str,
    pub line: LineOffset,
}

impl Default for CommandMap {
    fn default() -> (m: Self)
        ensures
            m.codes() == Map::<char, (Handler, Seq<char>)>::empty(),
            m.number_command() == (Handler::Noop, Seq::<char>::empty()),
            m.noop_command() == (Handler::Noop, "noop"@),
    {
        CommandMap {
            map: HashMap::new(),
            number: InnerCommand { f: Handler::Noop, name: String::new() },
            noop: InnerCommand { f: Handler::Noop, name: String::from_str("noop") },
        }
    }
}

impl<'a> Command<'a> {
    /// Runs the command on `ed`, with the line it addresses, reading from
    /// `input` and writing to `output`.
    pub fn run(&self, ed: &mut Editor, input: &dyn TextInput, output: &mut String) -> (r: Result<
        (),
        CommandError,
    >)
        ensures
            self.f.runs(*old(ed), self.line, old(output)@, *final(ed), final(output)@, r),
    {
        let mut ctx = CommandContext { destination: self.line, output: String::new(), input };
        std::mem::swap(output, &mut ctx.output);
        let r = self.f.run_with(ed, &mut ctx);
        std::mem::swap(output, &mut ctx.output);
        r
    }
}

impl CommandMap {
    /// The command bound to each leading character, with its name.
    pub closed spec fn codes(&self) -> Map<char, (Handler, Seq<char>)> {
        Map::new(
            |c: char| self.map@.contains_key(c as u32),
            |c: char| (self.map@[c as u32].f, self.map@[c as u32].name@),
        )
    }

    /// The command for input that is a line address, with its name.
    pub closed spec fn number_command(&self) -> (Handler, Seq<char>) {
        (self.number.f, self.number.name@)
    }

    /// The command for empty input, with its name.
    pub closed spec fn noop_command(&self) -> (Handler, Seq<char>) {
        (self.noop.f, self.noop.name@)
    }

    /// What a trimmed token resolves to: the empty-input command, the
    /// line-address command with the address, or the command bound to its
    /// first character.
    pub open spec fn resolves(&self, token: Seq<char>, c: Command) -> bool {
        if token.len() == 0 {
            (c.f, c.name@) == self.noop_command() && c.line == LineOffset::Relative(0)
        } else if parse_offset(encode_utf8(token)) is Some {
            (c.f, c.name@) == self.number_command() && c.line == parse_offset(
                encode_utf8(token),
            ).unwrap()
        } else {
            (c.f, c.name@) == self.codes()[token[0]] && c.line == LineOffset::Relative(0)
        }
    }

    /// A token resolves to nothing only when it is neither empty, nor a line
    /// address, nor led by a bound character.
    pub open spec fn unresolved(&self, token: Seq<char>) -> bool {
        token.len() != 0 && parse_offset(encode_utf8(token)) is None && !self.codes().contains_key(
            token[0],
        )
    }

    /// Resolves an already trimmed token to a command.
    pub fn lookup_token(&self, token: &str) -> (r: Option<Command<'_>>)
        ensures
            r is None <==> self.unresolved(token@),
            r matches Some(c) ==> self.resolves(token@, c),
    {
        if token.unicode_len() == 0 {
            let cmd = &self.noop;
            return Some(Command { f: cmd.f, name: cmd.name.as_str(), line: LineOffset::Relative(0) });
        }
        match LineOffset::parse(token) {
            Ok(line) => {
                let cmd = &self.number;
                Some(Command { f: cmd.f, name: cmd.name.as_str(), line })
            },
            Err(_) => {
                let c = token.get_char(0);
                match self.map.get(&(c as u32)) {
                    Some(cmd) => Some(
                        Command { f: cmd.f, name: cmd.name.as_str(), line: LineOffset::Relative(0) },
                    ),
                    None => None,
                }
            },
        }
    }

    /// Resolves a line of input, trimmed first, to a command.
    pub fn lookup(&self, s: &str) -> (r: Option<Command<'_>>)
        ensures
            r is None <==> self.unresolved(trimmed(s@)),
            r matches Some(c) ==> self.resolves(trimmed(s@), c),
    {
        self.lookup_token(trim(s))
    }

    /// Binds `f`, named `name`, to the first character of `short`; a later
    /// binding of that character replaces it. An empty `short` binds nothing.
    pub fn bind(&mut self, short: &str, name: &str, f: Handler)
        ensures
            final(self).codes() == if short@.len() > 0 {
                old(self).codes().insert(short@[0], (f, name@))
            } else {
                old(self).codes()
            },
            final(self).number_command() == old(self).number_command(),
            final(self).noop_command() == old(self).noop_command(),
    {
        if short.unicode_len() > 0 {
            let c = short.get_char(0);
            let entry = InnerCommand { f, name: String::from_str(name) };
            self.map.insert(c as u32, entry);
            assert forall|d: char| d != c implies (#[trigger] self.codes().contains_key(d)
                == old(self).codes().contains_key(d)) && (self.codes().contains_key(d)
                ==> self.codes()[d] == old(self).codes()[d]) by {
                vstd::utf8::char_u32_cast(d, d as u32);
                vstd::utf8::char_u32_cast(c, c as u32);
            }
            assert(self.codes() =~= old(self).codes().insert(c, (f, name@)));
        } else {
            assert(self.codes() =~= old(self).codes());
        }
    }

    /// Binds `f`, named `name`, to input that is a line address.
    pub fn bind_number(&mut self, name: &str, f: Handler)
        ensures
            final(self).codes() == old(self).codes(),
            final(self).number_command() == (f, name@),
            final(self).noop_command() == old(self).noop_command(),
    {
        self.number = InnerCommand { name: String::from_str(name), f };
    }
}

} // verus!
