//! The commands of the debugger, as they are typed.
use crate::error::NumberError;
use crate::text::{integer, parse_integer};
use vstd::prelude::*;

verus! {

/// What a command asks for.
#[derive(Debug, Clone, Copy, PartialEq, Eq, Hash, Structural)]
pub enum Command {
    /// `s`, or nothing: one step.
    Step,
    /// `s N`: up to `N` steps, ended by a breakpoint.
    Steps(usize),
    /// `r`: steps up to the next breakpoint.
    Run,
    /// `b`: sets or lifts the breakpoint at the instruction that is next.
    Toggle,
    /// `b +N`, `b -N`: sets or lifts the breakpoint so many instructions from
    /// the one that is next.
    ToggleBy(isize),
    /// `b N`: sets or lifts the breakpoint at line `N`, counted from one.
    ToggleLine(usize),
    /// `q`: closes the debugger.
    Quit,
}

/// Why a text is no command.
#[derive(Debug, Clone, Copy, PartialEq, Eq, Hash, Structural)]
pub enum Refusal {
    /// The text starts with no letter of a command, or goes on behind a
    /// letter that stands alone.
    Unknown,
    /// The text behind the letter is no number.
    Number(NumberError),
}

/// The three bytes spell a character of white space that takes three bytes
/// in UTF-8: U+1680, U+2000 to U+200A, U+2028, U+2029, U+202F, U+205F or
/// U+3000.
pub open spec fn wide_space(a: u8, b: u8, c: u8) -> bool {
    ||| a == 0xE1 && b == 0x9A && c == 0x80
    ||| a == 0xE2 && b == 0x80 && (0x80 <= c <= 0x8A || c == 0xA8 || c == 0xA9 || c == 0xAF)
    ||| a == 0xE2 && b == 0x81 && c == 0x9F
    ||| a == 0xE3 && b == 0x80 && c == 0x80
}

/// The two bytes spell U+0085 or U+00A0.
pub open spec fn long_space(a: u8, b: u8) -> bool {
    a == 0xC2 && (b == 0x85 || b == 0xA0)
}

/// The byte is a character of white space by itself: U+0009 to U+000D, or
/// the blank.
pub open spec fn short_space(a: u8) -> bool {
    9 <= a <= 13 || a == 32
}

/// The number of bytes at the front of `s` that spell one character of
/// white space in UTF-8; zero where `s` starts with none.
pub open spec fn space_first(s: Seq<u8>) -> nat {
    if s.len() >= 1 && short_space(s[0]) {
        1
    } else if s.len() >= 2 && long_space(s[0], s[1]) {
        2
    } else if s.len() >= 3 && wide_space(s[0], s[1], s[2]) {
        3
    } else {
        0
    }
}

/// The number of bytes at the end of `s` that spell one character of white
/// space in UTF-8; zero where `s` ends with none.
pub open spec fn space_last(s: Seq<u8>) -> nat {
    let n = s.len() as int;
    if n >= 1 && short_space(s[n - 1]) {
        1
    } else if n >= 2 && long_space(s[n - 2], s[n - 1]) {
        2
    } else if n >= 3 && wide_space(s[n - 3], s[n - 2], s[n - 1]) {
        3
    } else {
        0
    }
}

/// The number of bytes of white space at the front of `s`.
pub open spec fn space_before(s: Seq<u8>) -> nat
    decreases s.len(),
{
    if space_first(s) > 0 {
        space_first(s) + space_before(s.skip(space_first(s) as int))
    } else {
        0
    }
}

/// The number of bytes of white space at the end of `s`.
pub open spec fn space_behind(s: Seq<u8>) -> nat
    decreases s.len(),
{
    if space_last(s) > 0 {
        space_last(s) + space_behind(s.take(s.len() - space_last(s)))
    } else {
        0
    }
}

/// No more white space is counted than there are bytes.
pub proof fn lemma_space_bounds(s: Seq<u8>)
    ensures
        space_before(s) <= s.len(),
        space_behind(s) <= s.len(),
    decreases s.len(),
{
    if space_first(s) > 0 {
        lemma_space_bounds(s.skip(space_first(s) as int));
    }
    if space_last(s) > 0 {
        lemma_space_bounds(s.take(s.len() - space_last(s)));
    }
}

/// `s` without the white space at its ends.
pub open spec fn stripped(s: Seq<u8>) -> Seq<u8> {
    let rest = s.skip(space_before(s) as int);
    rest.take(rest.len() - space_behind(rest))
}

/// The number of bytes that the character of white space at `at` takes; zero
/// where there is none.
fn space_from(s: &[u8], at: usize, end: usize) -> (r: usize)
    requires
        at <= end <= s@.len(),
    ensures
        r == space_first(s@.subrange(at as int, end as int)),
        at + r <= end,
{
    let left = end - at;
    if left >= 1 && ((9 <= s[at] && s[at] <= 13) || s[at] == 32) {
        1
    } else if left >= 2 && s[at] == 0xC2 && (s[at + 1] == 0x85 || s[at + 1] == 0xA0) {
        2
    } else if left >= 3 && ((s[at] == 0xE1 && s[at + 1] == 0x9A && s[at + 2] == 0x80) || (s[at]
        == 0xE2 && s[at + 1] == 0x80 && ((0x80 <= s[at + 2] && s[at + 2] <= 0x8A) || s[at + 2]
        == 0xA8 || s[at + 2] == 0xA9 || s[at + 2] == 0xAF)) || (s[at] == 0xE2 && s[at + 1] == 0x81
        && s[at + 2] == 0x9F) || (s[at] == 0xE3 && s[at + 1] == 0x80 && s[at + 2] == 0x80)) {
        3
    } else {
        0
    }
}

/// The number of bytes that the character of white space before `end`
/// takes; zero where there is none.
fn space_upto(s: &[u8], at: usize, end: usize) -> (r: usize)
    requires
        at <= end <= s@.len(),
    ensures
        r == space_last(s@.subrange(at as int, end as int)),
        at + r <= end,
{
    let left = end - at;
    if left >= 1 && ((9 <= s[end - 1] && s[end - 1] <= 13) || s[end - 1] == 32) {
        1
    } else if left >= 2 && s[end - 2] == 0xC2 && (s[end - 1] == 0x85 || s[end - 1] == 0xA0) {
        2
    } else if left >= 3 && ((s[end - 3] == 0xE1 && s[end - 2] == 0x9A && s[end - 1] == 0x80) || (
    s[end - 3] == 0xE2 && s[end - 2] == 0x80 && ((0x80 <= s[end - 1] && s[end - 1] <= 0x8A)
        || s[end - 1] == 0xA8 || s[end - 1] == 0xA9 || s[end - 1] == 0xAF)) || (s[end - 3] == 0xE2
        && s[end - 2] == 0x81 && s[end - 1] == 0x9F) || (s[end - 3] == 0xE3 && s[end - 2] == 0x80
        && s[end - 1] == 0x80)) {
        3
    } else {
        0
    }
}

/// The text without the white space at its ends.
pub fn strip(s: &[u8]) -> (r: &[u8])
    ensures
        r@ == stripped(s@),
{
    let len = s.len();
    let mut at: usize = 0;
    proof {
        assert(s@.subrange(0, len as int) =~= s@);
    }
    loop
        invariant_except_break
            space_before(s@) == at + space_before(s@.subrange(at as int, len as int)),
        invariant
            0 <= at <= len,
            len == s@.len(),
        ensures
            space_before(s@) == at,
        decreases len - at,
    {
        let ghost rest = s@.subrange(at as int, len as int);
        let k = space_from(s, at, len);
        if k == 0 {
            break;
        }
        proof {
            assert(rest.skip(k as int) =~= s@.subrange(at + k, len as int));
        }
        at = at + k;
    }
    let ghost rest = s@.skip(at as int);
    let mut end: usize = len;
    proof {
        assert(s@.subrange(at as int, len as int) =~= rest);
    }
    loop
        invariant_except_break
            space_behind(rest) == (len - end) + space_behind(s@.subrange(at as int, end as int)),
        invariant
            at <= end <= len,
            len == s@.len(),
            rest == s@.skip(at as int),
        ensures
            space_behind(rest) == len - end,
        decreases end - at,
    {
        let ghost left = s@.subrange(at as int, end as int);
        let k = space_upto(s, at, end);
        if k == 0 {
            break;
        }
        proof {
            assert(left.take(left.len() - k) =~= s@.subrange(at as int, end - k));
        }
        end = end - k;
    }
    let r = vstd::slice::slice_subrange(s, at, end);
    proof {
        assert(r@ =~= stripped(s@));
    }
    r
}

/// The command that a text spells: a letter, and behind `s` and `b` a
/// number where one is wanted. No text at all asks for a step.
pub open spec fn command_of(text: Seq<u8>) -> Result<Command, Refusal> {
    if text.len() == 0 {
        Ok(Command::Step)
    } else if text[0] == 115 {
        if text.len() == 1 {
            Ok(Command::Step)
        } else {
            match integer(stripped(text.skip(1)), 0, usize::MAX as int) {
                Ok(count) => Ok(Command::Steps(count as usize)),
                Err(e) => Err(Refusal::Number(e)),
            }
        }
    } else if text[0] == 114 && text.len() == 1 {
        Ok(Command::Run)
    } else if text[0] == 98 {
        let rest = stripped(text.skip(1));
        if text.len() == 1 {
            Ok(Command::Toggle)
        } else if rest.len() > 0 && (rest[0] == 43 || rest[0] == 45) {
            match integer(rest, isize::MIN as int, isize::MAX as int) {
                Ok(offset) => Ok(Command::ToggleBy(offset as isize)),
                Err(e) => Err(Refusal::Number(e)),
            }
        } else {
            match integer(rest, 0, usize::MAX as int) {
                Ok(line) => Ok(Command::ToggleLine(line as usize)),
                Err(e) => Err(Refusal::Number(e)),
            }
        }
    } else if text[0] == 113 && text.len() == 1 {
        Ok(Command::Quit)
    } else {
        Err(Refusal::Unknown)
    }
}

/// The command that a text spells.
pub fn parse_command(text: &[u8]) -> (r: Result<Command, Refusal>)
    ensures
        r == command_of(text@),
{
    let len = text.len();
    if len == 0 {
        return Ok(Command::Step);
    }
    let letter = text[0];
    if letter == 115 || letter == 98 {
        if len == 1 {
            return Ok(
                if letter == 115 {
                    Command::Step
                } else {
                    Command::Toggle
                },
            );
        }
        let rest = strip(vstd::slice::slice_subrange(text, 1, len));
        proof {
            assert(text@.subrange(1, len as int) =~= text@.skip(1));
        }
        if letter == 98 && rest.len() > 0 && (rest[0] == 43 || rest[0] == 45) {
            match parse_integer(rest, isize::MIN as i128, isize::MAX as i128) {
                Ok(offset) => Ok(Command::ToggleBy(offset as isize)),
                Err(e) => Err(Refusal::Number(e)),
            }
        } else {
            match parse_integer(rest, 0, usize::MAX as i128) {
                Ok(n) => Ok(
                    if letter == 115 {
                        Command::Steps(n as usize)
                    } else {
                        Command::ToggleLine(n as usize)
                    },
                ),
                Err(e) => Err(Refusal::Number(e)),
            }
        }
    } else if letter == 114 && len == 1 {
        Ok(Command::Run)
    } else if letter == 113 && len == 1 {
        Ok(Command::Quit)
    } else {
        Err(Refusal::Unknown)
    }
}

} // verus!
