//! The commands of the interactive shell: `put <key> <value>`, `get <key>`,
//! `remove <key>`, `list keys` and `exit`.
//!
//! A line is cut into words at every run of white space, so that white
//! space around the line or between two words never makes a word of its own;
//! the first word names the command and the number of words must fit it.

use vstd::prelude::*;
use vstd::string::StrSliceExecFns;
use crate::text::chars_of;
use crate::text::same_text;
use crate::text::texts;

verus! {

/// What a command asks for.
#[derive(Clone, Copy, Debug, PartialEq, Eq, Structural)]
pub enum Action {
    Put,
    Get,
    Remove,
    Exit,
    ListKeys,
}

/// A command of the shell. `key` and `value` are empty where the command
/// has none; for `list keys` the key is the word `keys`.
#[derive(Debug)]
pub struct Command {
    pub action: Action,
    pub key: String,
    pub value: String,
}

/// A command as mathematical values.
pub struct CommandView {
    pub action: Action,
    pub key: Seq<char>,
    pub value: Seq<char>,
}

impl View for Command {
    type V = CommandView;

    open spec fn view(&self) -> CommandView {
        CommandView { action: self.action, key: self.key@, value: self.value@ }
    }
}

/// Why a line is no command: the usage of the command that it names was not
/// met, or it names none.
#[derive(Clone, Copy, Debug, PartialEq, Eq, Structural)]
pub enum ParseError {
    /// `put` takes a key and a value.
    PutUsage,
    /// `get` takes a key.
    GetUsage,
    /// `remove` takes a key.
    RemoveUsage,
    /// `exit` takes nothing.
    ExitUsage,
    /// `list` takes the word `keys`.
    ListUsage,
    /// The first word is no command, or the line holds no word.
    Invalid,
}

/// The character is white space as Unicode defines it.
pub open spec fn whitespace(c: char) -> bool {
    let n = c as u32;
    ||| 0x09 <= n <= 0x0d
    ||| n == 0x20
    ||| n == 0x85
    ||| n == 0xa0
    ||| n == 0x1680
    ||| 0x2000 <= n <= 0x200a
    ||| n == 0x2028
    ||| n == 0x2029
    ||| n == 0x202f
    ||| n == 0x205f
    ||| n == 0x3000
}

/// The number of white-space characters at the start of a text.
pub open spec fn leading(s: Seq<char>) -> nat
    decreases s.len(),
{
    if s.len() > 0 && whitespace(s[0]) {
        1 + leading(s.drop_first())
    } else {
        0
    }
}

/// The number of white-space characters at the end of a text.
pub open spec fn trailing(s: Seq<char>) -> nat
    decreases s.len(),
{
    if s.len() > 0 && whitespace(s.last()) {
        1 + trailing(s.drop_last())
    } else {
        0
    }
}

/// A text without the white space around it.
pub open spec fn trimmed(s: Seq<char>) -> Seq<char> {
    let rest = s.subrange(leading(s) as int, s.len() as int);
    rest.subrange(0, rest.len() - trailing(rest))
}

/// The words of a text of which the characters `current` have already been
/// read into a word: a white-space character ends the word, if there is one,
/// and any other character goes on with it.
pub open spec fn words_after(s: Seq<char>, current: Seq<char>) -> Seq<Seq<char>>
    decreases s.len(),
{
    let ended = if current.len() > 0 {
        seq![current]
    } else {
        Seq::empty()
    };
    if s.len() == 0 {
        ended
    } else if whitespace(s[0]) {
        ended + words_after(s.drop_first(), Seq::empty())
    } else {
        words_after(s.drop_first(), current.push(s[0]))
    }
}

/// The words of a text: the longest runs of characters that are no white
/// space, in their order. No word is empty.
pub open spec fn words(s: Seq<char>) -> Seq<Seq<char>> {
    words_after(s, Seq::empty())
}

/// The command that a line stands for.
pub open spec fn parsed(input: Seq<char>) -> Result<CommandView, ParseError> {
    let w = words(trimmed(input));
    if w.len() == 0 {
        Err(ParseError::Invalid)
    } else if w[0] == "put"@ {
        if w.len() == 3 {
            Ok(CommandView { action: Action::Put, key: w[1], value: w[2] })
        } else {
            Err(ParseError::PutUsage)
        }
    } else if w[0] == "get"@ {
        if w.len() == 2 {
            Ok(CommandView { action: Action::Get, key: w[1], value: Seq::empty() })
        } else {
            Err(ParseError::GetUsage)
        }
    } else if w[0] == "remove"@ {
        if w.len() == 2 {
            Ok(CommandView { action: Action::Remove, key: w[1], value: Seq::empty() })
        } else {
            Err(ParseError::RemoveUsage)
        }
    } else if w[0] == "exit"@ {
        if w.len() == 1 {
            Ok(CommandView { action: Action::Exit, key: Seq::empty(), value: Seq::empty() })
        } else {
            Err(ParseError::ExitUsage)
        }
    } else if w[0] == "list"@ {
        if w.len() == 2 && w[1] == "keys"@ {
            Ok(CommandView { action: Action::ListKeys, key: w[1], value: Seq::empty() })
        } else {
            Err(ParseError::ListUsage)
        }
    } else {
        Err(ParseError::Invalid)
    }
}

/// Whether the character is white space.
pub fn is_whitespace(c: char) -> (res: bool)
    ensures
        res == whitespace(c),
{
    let n: u32 = c as u32;
    (0x09 <= n && n <= 0x0d) || n == 0x20 || n == 0x85 || n == 0xa0 || n == 0x1680 || (0x2000 <= n
        && n <= 0x200a) || n == 0x2028 || n == 0x2029 || n == 0x202f || n == 0x205f || n
        == 0x3000
}

/// The place where the white space at the start of the characters ends.
fn skip_leading(chars: &Vec<char>) -> (start: usize)
    ensures
        start == leading(chars@),
        start <= chars@.len(),
{
    let mut start: usize = 0;
    assert(chars@.subrange(0, chars@.len() as int) == chars@);
    while start < chars.len() && is_whitespace(chars[start])
        invariant
            start <= chars@.len(),
            leading(chars@) == start + leading(chars@.subrange(start as int, chars@.len() as int)),
        decreases chars@.len() - start,
    {
        assert(chars@.subrange(start as int, chars@.len() as int).drop_first()
            == chars@.subrange(start + 1, chars@.len() as int));
        start += 1;
    }
    start
}

/// The place where the white space at the end of the characters begins,
/// looking at those from `start` on.
fn skip_trailing(chars: &Vec<char>, start: usize) -> (end: usize)
    requires
        start <= chars@.len(),
    ensures
        start <= end <= chars@.len(),
        chars@.len() - end == trailing(chars@.subrange(start as int, chars@.len() as int)),
{
    let mut end: usize = chars.len();
    while end > start && is_whitespace(chars[end - 1])
        invariant
            start <= end <= chars@.len(),
            trailing(chars@.subrange(start as int, chars@.len() as int)) == chars@.len() - end
                + trailing(chars@.subrange(start as int, end as int)),
        decreases end,
    {
        assert(chars@.subrange(start as int, end as int).drop_last() == chars@.subrange(
            start as int,
            end - 1,
        ));
        end -= 1;
    }
    end
}

/// The words of the part of `text` between `start` and `end`, where `chars`
/// holds the characters of `text`.
fn split_words(text: &str, chars: &Vec<char>, start: usize, end: usize) -> (res: Vec<String>)
    requires
        chars@ == text@,
        start <= end <= chars@.len(),
    ensures
        texts(res@) == words(chars@.subrange(start as int, end as int)),
{
    let ghost whole = chars@.subrange(start as int, end as int);
    let mut res: Vec<String> = Vec::new();
    let mut from: usize = start;
    let mut pos: usize = start;
    assert(texts(res@) == Seq::<Seq<char>>::empty());
    assert(chars@.subrange(start as int, start as int) == Seq::<char>::empty());
    assert(Seq::<Seq<char>>::empty() + words(whole) == words(whole));
    while pos < end
        invariant
            chars@ == text@,
            start <= from <= pos <= end <= chars@.len(),
            whole == chars@.subrange(start as int, end as int),
            words(whole) == texts(res@) + words_after(
                chars@.subrange(pos as int, end as int),
                chars@.subrange(from as int, pos as int),
            ),
        decreases end - pos,
    {
        let ghost rest = chars@.subrange(pos as int, end as int);
        let ghost current = chars@.subrange(from as int, pos as int);
        let ghost before = texts(res@);
        assert(rest[0] == chars@[pos as int]);
        assert(rest.drop_first() == chars@.subrange(pos + 1, end as int));
        if is_whitespace(chars[pos]) {
            if from < pos {
                res.push(text.substring_char(from, pos).to_owned());
                assert(texts(res@) == before.push(current));
                assert(before + (seq![current] + words_after(rest.drop_first(), Seq::empty()))
                    == before.push(current) + words_after(rest.drop_first(), Seq::empty()));
            } else {
                assert(before + (Seq::<Seq<char>>::empty() + words_after(
                    rest.drop_first(),
                    Seq::empty(),
                )) == before + words_after(rest.drop_first(), Seq::empty()));
            }
            from = pos + 1;
            assert(chars@.subrange(from as int, pos + 1) == Seq::<char>::empty());
        } else {
            assert(current.push(chars@[pos as int]) == chars@.subrange(from as int, pos + 1));
        }
        pos += 1;
    }
    let ghost before = texts(res@);
    let ghost current = chars@.subrange(from as int, pos as int);
    assert(chars@.subrange(pos as int, end as int).len() == 0);
    if from < pos {
        res.push(text.substring_char(from, pos).to_owned());
        assert(texts(res@) == before.push(current));
        assert(before + seq![current] == before.push(current));
    } else {
        assert(before + Seq::<Seq<char>>::empty() == before);
    }
    res
}

/// Reads a command from a line of input.
pub fn parse_input(input: &str) -> (res: Result<Command, ParseError>)
    ensures
        match res {
            Ok(command) => parsed(input@) == Ok::<CommandView, ParseError>(command@),
            Err(error) => parsed(input@) == Err::<CommandView, ParseError>(error),
        },
{
    let chars = chars_of(input);
    let start = skip_leading(&chars);
    let end = skip_trailing(&chars, start);
    proof {
        let rest = chars@.subrange(start as int, chars@.len() as int);
        assert(rest.subrange(0, rest.len() - trailing(rest)) == chars@.subrange(
            start as int,
            end as int,
        ));
    }
    let found = split_words(input, &chars, start, end);
    let ghost w = words(trimmed(input@));
    assert(w == texts(found@));
    assert(forall|i: int| 0 <= i < found@.len() ==> found@[i]@ == w[i]);
    let count = found.len();
    if count == 0 {
        return Err(ParseError::Invalid);
    }
    let name = found[0].as_str();
    if same_text(name, "put") {
        if count != 3 {
            return Err(ParseError::PutUsage);
        }
        Ok(Command { action: Action::Put, key: found[1].clone(), value: found[2].clone() })
    } else if same_text(name, "get") {
        if count != 2 {
            return Err(ParseError::GetUsage);
        }
        Ok(Command { action: Action::Get, key: found[1].clone(), value: String::new() })
    } else if same_text(name, "remove") {
        if count != 2 {
            return Err(ParseError::RemoveUsage);
        }
        Ok(Command { action: Action::Remove, key: found[1].clone(), value: String::new() })
    } else if same_text(name, "exit") {
        if count != 1 {
            return Err(ParseError::ExitUsage);
        }
        Ok(Command { action: Action::Exit, key: String::new(), value: String::new() })
    } else if same_text(name, "list") {
        if count != 2 || !same_text(found[1].as_str(), "keys") {
            return Err(ParseError::ListUsage);
        }
        Ok(Command { action: Action::ListKeys, key: found[1].clone(), value: String::new() })
    } else {
        Err(ParseError::Invalid)
    }
}

} // verus!
