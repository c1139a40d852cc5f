//! The assembly text of the language: places in a source, and pieces of a
//! line with their place.
use crate::awascii::{code_of, AwaSCII};
use crate::cast::is_utf8;
use crate::error::NumberError;
use crate::text::{decimal_of, integer, parse_integer, push_decimal};
use vstd::prelude::*;
use vstd::utf8::{encode_utf8, valid_utf8};

pub mod macros;
pub mod parser;

verus! {

/// A place in a source: a line of a file, and in it the bytes from `start`
/// up to `end`, `end` not included.
#[derive(Debug, Clone, PartialEq, Eq, Hash)]
pub struct Span {
    pub file: String,
    pub line: usize,
    pub start: usize,
    pub end: usize,
}

/// ASCII white space: blank, tab, line feed, form feed, carriage return.
pub open spec fn is_white(b: u8) -> bool {
    b == 32 || b == 9 || b == 10 || b == 12 || b == 13
}

/// The number of bytes at the front of `s` that are white space, or that
/// are none, as `white` asks.
pub open spec fn lead(s: Seq<u8>, white: bool) -> nat
    decreases s.len(),
{
    if s.len() > 0 && is_white(s[0]) == white {
        1 + lead(s.skip(1), white)
    } else {
        0
    }
}

/// The number of bytes at the front of `s` that are not `c`.
pub open spec fn lead_to(s: Seq<u8>, c: u8) -> nat
    decreases s.len(),
{
    if s.len() > 0 && s[0] != c {
        1 + lead_to(s.skip(1), c)
    } else {
        0
    }
}

/// The length of `s` without the white space at its end.
pub open spec fn kept(s: Seq<u8>) -> nat
    decreases s.len(),
{
    if s.len() > 0 && is_white(s.last()) {
        kept(s.drop_last())
    } else {
        s.len()
    }
}

/// No more bytes are counted at the front of a text than it has.
pub proof fn lemma_lead_bounds(s: Seq<u8>, c: u8, white: bool)
    ensures
        lead(s, white) <= s.len(),
        lead_to(s, c) <= s.len(),
        kept(s) <= s.len(),
    decreases s.len(),
{
    if s.len() > 0 {
        lemma_lead_bounds(s.skip(1), c, white);
        lemma_lead_bounds(s.drop_last(), c, white);
    }
}

/// Whether `b` is ASCII white space.
pub fn white(b: u8) -> (r: bool)
    ensures
        r == is_white(b),
{
    b == 32 || b == 9 || b == 10 || b == 12 || b == 13
}

impl Span {
    /// The start of the span moved on by `by`, and never behind its end.
    pub open spec fn skipped(self, by: usize) -> Span {
        Span {
            file: self.file,
            line: self.line,
            start: if self.start + by > self.end {
                self.end
            } else {
                (self.start + by) as usize
            },
            end: self.end,
        }
    }

    /// The span cut to `to` bytes, where it is longer.
    pub open spec fn truncated(self, to: usize) -> Span {
        Span {
            file: self.file,
            line: self.line,
            start: self.start,
            end: if self.start + to < self.end {
                (self.start + to) as usize
            } else {
                self.end
            },
        }
    }

    /// The place from `start` up to `end` in line `line` of `file`.
    pub fn new(file: String, line: usize, start: usize, end: usize) -> (r: Self)
        requires
            start <= end,
        ensures
            r == (Span { file, line, start, end }),
    {
        Span { file, line, start, end }
    }

    /// The same place once more.
    pub fn copy(&self) -> (r: Self)
        ensures
            r == *self,
    {
        Span { file: self.file.clone(), line: self.line, start: self.start, end: self.end }
    }

    /// The place without its first `start` bytes.
    pub fn skip(&self, start: usize) -> (r: Self)
        ensures
            r == self.skipped(start),
    {
        let mut this = self.copy();
        if this.start > this.end || start > this.end - this.start {
            this.start = this.end;
        } else {
            this.start = this.start + start;
        }
        this
    }

    /// The first `end` bytes of the place.
    pub fn truncate(&self, end: usize) -> (r: Self)
        ensures
            r == self.truncated(end),
    {
        let mut this = self.copy();
        if this.start < this.end && end < this.end - this.start {
            this.end = this.start + end;
        }
        this
    }

    /// The number of bytes of the place.
    pub fn len(&self) -> (r: usize)
        ensures
            r == (if self.end >= self.start {
                self.end - self.start
            } else {
                0
            }),
    {
        if self.end >= self.start {
            self.end - self.start
        } else {
            0
        }
    }

    /// Whether the place holds no byte.
    pub fn is_empty(&self) -> (r: bool)
        ensures
            r == (self.start >= self.end),
    {
        self.start >= self.end
    }

    /// The place as text: the file, the line and the bytes, as in
    /// `a.awasm:3:0..7`.
    pub open spec fn shown(self) -> Seq<u8> {
        encode_utf8(self.file@) + seq![58u8] + decimal_of(self.line as int) + seq![58u8]
            + decimal_of(self.start as int) + seq![46u8, 46u8] + decimal_of(self.end as int)
    }

    /// The place as text.
    pub fn text(&self) -> (r: Vec<u8>)
        ensures
            r@ == self.shown(),
    {
        let mut out = vstd::slice::slice_to_vec(self.file.as_str().as_bytes());
        out.push(58);
        push_decimal(&mut out, self.line as i128);
        out.push(58);
        push_decimal(&mut out, self.start as i128);
        out.push(46);
        out.push(46);
        push_decimal(&mut out, self.end as i128);
        proof {
            assert(out@ =~= self.shown());
        }
        out
    }
}

/// What a piece of source is found wanting in.
#[derive(Debug, Clone, Copy, PartialEq, Eq, Hash, Structural)]
pub enum Complaint {
    ExpectedSingleQuote,
    EmptyCharacter,
    ExpectedDoubleQuote,
    ExtraContent,
    ExpectedLeftAngleBracket,
    InvalidAwaSCII,
    Number(NumberError),
    OutOfBounds(u8),
}

/// Why a source could not be assembled.
#[derive(Debug, Clone, PartialEq, Eq, Hash)]
pub enum Error {
    SyntaxError { span: Span, msg: Complaint },
    UnknownIdentifier { span: Span, identifier: Vec<u8> },
    ParseError { span: Span, msg: Complaint },
    /// Another file that the source asks for could not be read.
    IOError { span: Span },
    /// The piece is no text in UTF-8.
    EncodingError { span: Span },
}

impl Error {
    /// The error as a value: what it complains of, and where.
    pub open spec fn grievance(self) -> Grievance {
        match self {
            Error::SyntaxError { span, msg } => Grievance::Syntax(span, msg),
            Error::UnknownIdentifier { span, identifier } => Grievance::Unknown(span, identifier@),
            Error::ParseError { span, msg } => Grievance::Parse(span, msg),
            Error::IOError { span } => Grievance::Unavailable(span),
            Error::EncodingError { span } => Grievance::Encoding(span),
        }
    }
}

/// An error as a value: what a piece of source is found wanting in, and the
/// place of the piece.
pub enum Grievance {
    Syntax(Span, Complaint),
    Unknown(Span, Seq<u8>),
    Parse(Span, Complaint),
    /// The piece is no text in UTF-8.
    Encoding(Span),
    /// No error: the source asks for the text of another file, and what it
    /// comes to rests with that file.
    Pending,
    /// Another file could not be had.
    Unavailable(Span),
}

/// The kinds of number that an instruction carries.
#[derive(Debug, Clone, Copy, PartialEq, Eq, Hash, Structural)]
pub enum NumberKind {
    /// From -128 to 127.
    Signed,
    /// From 0 to 255, and no minus sign.
    Unsigned,
}

/// The least number of a kind.
pub open spec fn least(kind: NumberKind) -> int {
    match kind {
        NumberKind::Signed => -128,
        NumberKind::Unsigned => 0,
    }
}

/// The largest number of a kind.
pub open spec fn most(kind: NumberKind) -> int {
    match kind {
        NumberKind::Signed => 127,
        NumberKind::Unsigned => 255,
    }
}

/// The number that the text spells: digits after an optional sign.
pub open spec fn number(s: Seq<u8>, kind: NumberKind) -> Result<int, NumberError> {
    integer(s, least(kind), most(kind))
}

/// A piece of source with its place.
#[derive(Debug, Clone, PartialEq, Eq, Hash)]
pub struct Spanned<T> {
    pub item: T,
    pub span: Span,
}

impl<'i> Spanned<&'i [u8]> {
    /// A whole line, with its place.
    pub fn from_line(file: String, number: usize, line: &'i [u8]) -> (r: Self)
        ensures
            r.item@ == line@,
            r.span == (Span { file, line: number, start: 0, end: line@.len() as usize }),
    {
        Spanned { item: line, span: Span::new(file, number, 0, line.len()) }
    }

    /// The two pieces before and from `middle` on.
    pub fn split_at(&self, middle: usize) -> (r: (Self, Self))
        requires
            middle <= self.item@.len(),
        ensures
            r.0.item@ == self.item@.take(middle as int),
            r.0.span == self.span.truncated(middle),
            r.1.item@ == self.item@.skip(middle as int),
            r.1.span == self.span.skipped(middle),
    {
        let len = self.item.len();
        let front = vstd::slice::slice_subrange(self.item, 0, middle);
        let back = vstd::slice::slice_subrange(self.item, middle, len);
        (
            Spanned { item: front, span: self.span.truncate(middle) },
            Spanned { item: back, span: self.span.skip(middle) },
        )
    }

    /// Drops the white space at the front.
    pub fn trim_start(&mut self)
        ensures
            final(self).item@ == old(self).item@.skip(lead(old(self).item@, true) as int),
            final(self).span == old(self).span.skipped(lead(old(self).item@, true) as usize),
    {
        let mut start: usize = 0;
        let len = self.item.len();
        assert(self.item@.skip(0) =~= self.item@);
        while start < len && white(self.item[start])
            invariant
                0 <= start <= len,
                len == self.item@.len(),
                *self == *old(self),
                lead(self.item@, true) == start + lead(self.item@.skip(start as int), true),
            decreases len - start,
        {
            proof {
                assert(self.item@.skip(start as int)[0] == self.item@[start as int]);
                assert(self.item@.skip(start as int).skip(1) =~= self.item@.skip(start + 1));
            }
            start = start + 1;
        }
        proof {
            if start < len {
                assert(self.item@.skip(start as int)[0] == self.item@[start as int]);
            }
        }
        let (_, rest) = self.split_at(start);
        *self = rest;
    }

    /// Drops the white space at the end, line ends first.
    pub fn trim_end(&mut self)
        ensures
            final(self).item@ == old(self).item@.take(kept(old(self).item@) as int),
            old(self).item@.len() == 0 ==> final(self).span == old(self).span,
            old(self).item@.len() > 0 ==> final(self).span == old(self).span.truncated(
                kept(old(self).item@) as usize,
            ),
    {
        let len = self.item.len();
        if len == 0 {
            assert(self.item@.take(0) =~= self.item@);
            return ;
        }
        let mut end: usize = len;
        assert(self.item@.take(len as int) =~= self.item@);
        while end > 0 && white(self.item[end - 1])
            invariant
                0 <= end <= len,
                len == self.item@.len(),
                *self == *old(self),
                kept(self.item@) == kept(self.item@.take(end as int)),
            decreases end,
        {
            proof {
                assert(self.item@.take(end as int).last() == self.item@[end - 1]);
                assert(self.item@.take(end as int).drop_last() =~= self.item@.take(end - 1));
            }
            end = end - 1;
        }
        proof {
            if end > 0 {
                assert(self.item@.take(end as int).last() == self.item@[end - 1]);
            }
        }
        let (rest, _) = self.split_at(end);
        *self = rest;
    }

    /// Drops the white space at both ends.
    pub fn trim(&mut self)
        ensures
            final(self).item@ == trimmed(old(self).item@),
            final(self).span == trimmed_span(old(self).item@, old(self).span),
    {
        self.trim_start();
        self.trim_end();
    }

    /// The piece before the first `char`, and the piece behind it; where
    /// there is none, all of it, and nothing.
    pub fn split_at_char(&self, char: u8) -> (r: (Self, Self))
        ensures
            r.0.item@ == self.item@.take(lead_to(self.item@, char) as int),
            r.0.span == self.span.truncated(lead_to(self.item@, char) as usize),
            r.1.item@ == behind(self.item@, char),
            r.1.span == behind_span(self.item@, char, self.span),
    {
        let mut middle: usize = 0;
        let len = self.item.len();
        assert(self.item@.skip(0) =~= self.item@);
        while middle < len && self.item[middle] != char
            invariant
                0 <= middle <= len,
                len == self.item@.len(),
                lead_to(self.item@, char) == middle + lead_to(self.item@.skip(middle as int), char),
            decreases len - middle,
        {
            proof {
                assert(self.item@.skip(middle as int)[0] == self.item@[middle as int]);
                assert(self.item@.skip(middle as int).skip(1) =~= self.item@.skip(middle + 1));
            }
            middle = middle + 1;
        }
        proof {
            if middle < len {
                assert(self.item@.skip(middle as int)[0] == self.item@[middle as int]);
            }
        }
        let (before, after) = self.split_at(middle);
        if after.item.len() == 0 {
            proof {
                assert(after.item@ =~= behind(self.item@, char));
            }
            (before, after)
        } else {
            let (_, rest) = after.split_at(1);
            proof {
                assert(rest.item@ =~= behind(self.item@, char));
            }
            (before, rest)
        }
    }

    /// The piece before the first white space, and the piece from there on.
    pub fn split_at_whitespace(&self) -> (r: (Self, Self))
        ensures
            r.0.item@ == self.item@.take(lead(self.item@, false) as int),
            r.0.span == self.span.truncated(lead(self.item@, false) as usize),
            r.1.item@ == self.item@.skip(lead(self.item@, false) as int),
            r.1.span == self.span.skipped(lead(self.item@, false) as usize),
    {
        let mut middle: usize = 0;
        let len = self.item.len();
        assert(self.item@.skip(0) =~= self.item@);
        while middle < len && !white(self.item[middle])
            invariant
                0 <= middle <= len,
                len == self.item@.len(),
                lead(self.item@, false) == middle + lead(self.item@.skip(middle as int), false),
            decreases len - middle,
        {
            proof {
                assert(self.item@.skip(middle as int)[0] == self.item@[middle as int]);
                assert(self.item@.skip(middle as int).skip(1) =~= self.item@.skip(middle + 1));
            }
            middle = middle + 1;
        }
        proof {
            if middle < len {
                assert(self.item@.skip(middle as int)[0] == self.item@[middle as int]);
            }
        }
        self.split_at(middle)
    }

    /// The first byte of the piece.
    pub fn first(&self) -> (r: Option<u8>)
        ensures
            r == (if self.item@.len() > 0 {
                Some(self.item@[0])
            } else {
                None
            }),
    {
        if self.item.len() > 0 {
            Some(self.item[0])
        } else {
            None
        }
    }

    /// The length of the place.
    pub fn len(&self) -> (r: usize)
        ensures
            r == (if self.span.end >= self.span.start {
                self.span.end - self.span.start
            } else {
                0
            }),
    {
        self.span.len()
    }

    /// Whether the place is empty.
    pub fn is_empty(&self) -> (r: bool)
        ensures
            r == (self.span.start >= self.span.end),
    {
        self.span.is_empty()
    }

    /// What `parse` makes of the piece: the number that it spells; for a
    /// piece that is no text in UTF-8 an error of the encoding, and for
    /// other text that spells no number of the kind the reason, each with
    /// the place of the piece.
    pub open spec fn parsed(self, kind: NumberKind) -> Result<i16, Error> {
        if !valid_utf8(self.item@) {
            Err(Error::EncodingError { span: self.span })
        } else {
            match number(self.item@, kind) {
                Ok(v) => Ok(v as i16),
                Err(e) => Err(Error::ParseError { span: self.span, msg: Complaint::Number(e) }),
            }
        }
    }

    /// The number that the piece spells, of the kind `kind`. A piece that
    /// is no text in UTF-8 spells nothing.
    pub fn parse(&self, kind: NumberKind) -> (r: Result<i16, Error>)
        ensures
            r == self.parsed(kind),
            r matches Ok(v) ==> number(self.item@, kind) == Ok::<int, NumberError>(v as int)
                && least(kind) <= v <= most(kind),
    {
        if !is_utf8(self.item) {
            return Err(Error::EncodingError { span: self.span.copy() });
        }
        let (low, high): (i128, i128) = match kind {
            NumberKind::Signed => (-128, 127),
            NumberKind::Unsigned => (0, 255),
        };
        match parse_integer(self.item, low, high) {
            Ok(v) => Ok(v as i16),
            Err(e) => Err(Error::ParseError { span: self.span.copy(), msg: Complaint::Number(e) }),
        }
    }

    /// Takes the last character off the piece: the line feed for the two
    /// bytes `\n`, else the AwaSCII character of the last byte. `Ok(None)`
    /// where the piece is empty.
    pub fn take_awascii(&mut self) -> (r: Result<Option<AwaSCII>, Error>)
        ensures
            match last_code(old(self).item@) {
                None => r matches Ok(None) && *final(self) == *old(self),
                Some((Some(code), width)) => r matches Ok(Some(c)) && c@ == code
                    && final(self).item@ == old(self).item@.take(old(self).item@.len() - width)
                    && final(self).span == old(self).span.truncated(
                    (old(self).item@.len() - width) as usize,
                ),
                Some((None, _)) => r matches Err(Error::ParseError { span, msg }) && msg
                    == Complaint::InvalidAwaSCII && span == old(self).span.skipped(
                    (old(self).item@.len() - 1) as usize,
                ) && *final(self) == *old(self),
            },
    {
        let len = self.item.len();
        if len == 0 {
            return Ok(None);
        }
        if len >= 2 && self.item[len - 1] == 110 && self.item[len - 2] == 92 {
            let (rest, _) = self.split_at(len - 2);
            *self = rest;
            return Ok(Some(AwaSCII::new_unchecked(63)));
        }
        let (rest, last) = self.split_at(len - 1);
        match AwaSCII::from_ascii(self.item[len - 1]) {
            Some(c) => {
                *self = rest;
                Ok(Some(c))
            },
            None => Err(Error::ParseError { span: last.span, msg: Complaint::InvalidAwaSCII }),
        }
    }
}

/// What stands behind the first `c` in `s`; nothing where there is none.
pub open spec fn behind(s: Seq<u8>, c: u8) -> Seq<u8> {
    if lead_to(s, c) < s.len() {
        s.skip(lead_to(s, c) as int + 1)
    } else {
        Seq::empty()
    }
}

/// The place of what stands behind the first `c` in `s`, where `s` stands at
/// `span`.
pub open spec fn behind_span(s: Seq<u8>, c: u8, span: Span) -> Span {
    let rest = span.skipped(lead_to(s, c) as usize);
    if lead_to(s, c) < s.len() {
        rest.skipped(1)
    } else {
        rest
    }
}

/// The place of `s` without the white space at its ends, where `s` stands at
/// `span`.
pub open spec fn trimmed_span(s: Seq<u8>, span: Span) -> Span {
    let front = s.skip(lead(s, true) as int);
    let rest = span.skipped(lead(s, true) as usize);
    if front.len() == 0 {
        rest
    } else {
        rest.truncated(kept(front) as usize)
    }
}

/// `s` without the white space at its ends.
pub open spec fn trimmed(s: Seq<u8>) -> Seq<u8> {
    let front = s.skip(lead(s, true) as int);
    front.take(kept(front) as int)
}

/// The last character of a text and the number of bytes that spell it: the
/// line feed for the two bytes `\n`, else what the last byte stands for
/// (nothing, where it has no AwaSCII character). `None` for the empty text.
pub open spec fn last_code(s: Seq<u8>) -> Option<(Option<u8>, int)> {
    if s.len() == 0 {
        None
    } else if s.len() >= 2 && s[s.len() - 1] == 110 && s[s.len() - 2] == 92 {
        Some((Some(63u8), 2))
    } else {
        Some((code_of(s.last()), 1))
    }
}

/// The macros that a source may call.
#[derive(Debug, Clone, Copy, PartialEq, Eq, Hash, Structural)]
pub enum Macro {
    /// `chr '<c>'`: one character.
    Chr,
    /// `str "<s>"`: a text.
    Str,
    /// The text of another file in place of the line.
    Insert,
}

/// The macros by their names.
pub struct MacroTable {
    pub names: Vec<(Vec<u8>, Macro)>,
}

} // verus!
