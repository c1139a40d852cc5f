//! The macros of the assembly text.
use crate::assembly::{
    behind, behind_span, last_code, lead_to, lemma_lead_bounds, trimmed, trimmed_span, Complaint,
    Error, Grievance, Macro, MacroTable, Span, Spanned,
};
use crate::awatism::AwaTism;
use crate::cast::is_utf8;
use crate::u5::u5;
use vstd::prelude::*;
use vstd::utf8::valid_utf8;

verus! {

/// The code `prefix` before the code that `rest` came to, or the error that
/// it came to.
pub open spec fn prepend(prefix: Seq<AwaTism>, rest: Result<Seq<AwaTism>, Grievance>) -> Result<
    Seq<AwaTism>,
    Grievance,
> {
    match rest {
        Ok(code) => Ok(prefix + code),
        Err(e) => Err(e),
    }
}

/// Code before code before the rest is their joined code before the rest.
pub proof fn lemma_prepend_twice(
    a: Seq<AwaTism>,
    b: Seq<AwaTism>,
    rest: Result<Seq<AwaTism>, Grievance>,
)
    ensures
        prepend(a, prepend(b, rest)) == prepend(a + b, rest),
{
    if rest is Ok {
        assert(a + (b + rest->Ok_0) =~= (a + b) + rest->Ok_0);
    }
}

/// What stands between the first and the second `quote` of `s`.
pub open spec fn quoted(s: Seq<u8>, quote: u8) -> Seq<u8> {
    behind(s, quote).take(lead_to(behind(s, quote), quote) as int)
}

/// What stands behind the second `quote` of `s`.
pub open spec fn after_quoted(s: Seq<u8>, quote: u8) -> Seq<u8> {
    behind(behind(s, quote), quote)
}

/// The code of `chr '<c>'`: the character is blown as its AwaSCII code.
/// `span` is the place of `input`; an error names the place of what is in
/// the way: what stands before the first quote or behind the second, the
/// empty space between them, or the byte that is no character.
pub open spec fn chr_code(input: Seq<u8>, span: Span) -> Result<Seq<AwaTism>, Grievance> {
    let text = trimmed(input);
    let place = trimmed_span(input, span);
    let rest = behind(text, 39);
    let rest_place = behind_span(text, 39, place);
    let inner = quoted(text, 39);
    let inner_place = rest_place.truncated(lead_to(rest, 39) as usize);
    if lead_to(text, 39) > 0 {
        Err(
            Grievance::Syntax(
                place.truncated(lead_to(text, 39) as usize),
                Complaint::ExpectedSingleQuote,
            ),
        )
    } else if after_quoted(text, 39).len() > 0 {
        Err(Grievance::Syntax(behind_span(rest, 39, rest_place), Complaint::ExpectedSingleQuote))
    } else {
        match last_code(inner) {
            None => Err(Grievance::Syntax(inner_place, Complaint::EmptyCharacter)),
            Some((None, _)) => Err(
                Grievance::Parse(
                    inner_place.skipped((inner.len() - 1) as usize),
                    Complaint::InvalidAwaSCII,
                ),
            ),
            Some((Some(code), _)) => Ok(seq![AwaTism::Blow(code as i8)]),
        }
    }
}

/// The instructions that close a text of which `count` characters are not
/// yet wrapped: they are wrapped into a bubble, be it one character alone,
/// and the bubble is merged with what was wrapped before.
pub open spec fn closing(count: nat, first: bool) -> Seq<AwaTism> {
    (if count > 0 {
        seq![AwaTism::Surround(u5::of(count as u8))]
    } else {
        Seq::empty()
    }) + (if count != 0 && !first {
        seq![AwaTism::Merge]
    } else {
        Seq::empty()
    })
}

/// The code that blows the characters of `raw` from the last to the first,
/// wraps every 31 of them into a bubble and merges each such bubble with
/// what was wrapped before; `count` characters are blown and not yet
/// wrapped, and `first` says that nothing was wrapped so far.
pub open spec fn emit(raw: Seq<u8>, span: Span, count: nat, first: bool) -> Result<
    Seq<AwaTism>,
    Grievance,
>
    decreases raw.len(),
{
    match last_code(raw) {
        None => Ok(closing(count, first)),
        Some((None, _)) => Err(
            Grievance::Parse(span.skipped((raw.len() - 1) as usize), Complaint::InvalidAwaSCII),
        ),
        Some((Some(code), width)) => {
            let rest = raw.take(raw.len() - width);
            let place = span.truncated((raw.len() - width) as usize);
            if count + 1 == 31 {
                prepend(
                    seq![AwaTism::Blow(code as i8), AwaTism::Surround(u5::of(31))] + (if first {
                        Seq::empty()
                    } else {
                        seq![AwaTism::Merge]
                    }),
                    emit(rest, place, 0, false),
                )
            } else {
                prepend(seq![AwaTism::Blow(code as i8)], emit(rest, place, count + 1, first))
            }
        },
    }
}

/// The code of `str "<s>"`. `span` is the place of `input`; an error names
/// the place of what is in the way.
pub open spec fn str_code(input: Seq<u8>, span: Span) -> Result<Seq<AwaTism>, Grievance> {
    let text = trimmed(input);
    let place = trimmed_span(input, span);
    let rest = behind(text, 34);
    let rest_place = behind_span(text, 34, place);
    if lead_to(text, 34) > 0 {
        Err(
            Grievance::Syntax(
                place.truncated(lead_to(text, 34) as usize),
                Complaint::ExpectedDoubleQuote,
            ),
        )
    } else if after_quoted(text, 34).len() > 0 {
        Err(Grievance::Syntax(behind_span(rest, 34, rest_place), Complaint::ExtraContent))
    } else {
        emit(quoted(text, 34), rest_place.truncated(lead_to(rest, 34) as usize), 0, true)
    }
}

/// The path that the macro for another file names, between `<` and `>`,
/// with its place. `span` is the place of `input`. A path that is no text
/// in UTF-8 is an error at the place of the path.
pub open spec fn inserted_path(input: Seq<u8>, span: Span) -> Result<(Seq<u8>, Span), Grievance> {
    let text = trimmed(input);
    let place = trimmed_span(input, span);
    let rest = behind(text, 60);
    let rest_place = behind_span(text, 60, place);
    if lead_to(text, 60) > 0 {
        Err(
            Grievance::Syntax(
                place.truncated(lead_to(text, 60) as usize),
                Complaint::ExpectedLeftAngleBracket,
            ),
        )
    } else if !valid_utf8(rest.take(lead_to(rest, 62) as int)) {
        Err(Grievance::Encoding(rest_place.truncated(lead_to(rest, 62) as usize)))
    } else {
        Ok(
            (
                rest.take(lead_to(rest, 62) as int),
                rest_place.truncated(lead_to(rest, 62) as usize),
            ),
        )
    }
}

/// `chr '<c>'`: blows one character.
pub fn chr(input: Spanned<&[u8]>, _macros: &MacroTable) -> (r: Result<Vec<AwaTism>, Error>)
    ensures
        match r {
            Ok(code) => chr_code(input.item@, input.span) == Ok::<Seq<AwaTism>, Grievance>(code@),
            Err(e) => chr_code(input.item@, input.span) == Err::<Seq<AwaTism>, Grievance>(
                e.grievance(),
            ),
        },
{
    let mut text = input;
    text.trim();
    proof {
        lemma_lead_bounds(text.item@, 39, true);
        lemma_lead_bounds(behind(text.item@, 39), 39, true);
    }
    let (begin, rest) = text.split_at_char(39);
    if begin.item.len() != 0 {
        return Err(Error::SyntaxError { span: begin.span, msg: Complaint::ExpectedSingleQuote });
    }
    let (mut inner, end) = rest.split_at_char(39);
    if end.item.len() != 0 {
        return Err(Error::SyntaxError { span: end.span, msg: Complaint::ExpectedSingleQuote });
    }
    match inner.take_awascii() {
        Err(e) => Err(e),
        Ok(None) => Err(Error::SyntaxError { span: inner.span, msg: Complaint::EmptyCharacter }),
        Ok(Some(awascii)) => {
            let mut code = Vec::new();
            code.push(AwaTism::Blow(awascii.code() as i8));
            assert(code@ =~= seq![AwaTism::Blow(awascii@ as i8)]);
            Ok(code)
        },
    }
}

/// `str "<s>"`: blows a text, so that it comes to lie on top as one bubble
/// of its characters in reading order. A text without characters blows
/// nothing: no bubble holds nothing.
pub fn str(input: Spanned<&[u8]>, _macros: &MacroTable) -> (r: Result<Vec<AwaTism>, Error>)
    ensures
        match r {
            Ok(code) => str_code(input.item@, input.span) == Ok::<Seq<AwaTism>, Grievance>(code@),
            Err(e) => str_code(input.item@, input.span) == Err::<Seq<AwaTism>, Grievance>(
                e.grievance(),
            ),
        },
{
    let mut text = input;
    text.trim();
    proof {
        lemma_lead_bounds(text.item@, 34, true);
        lemma_lead_bounds(behind(text.item@, 34), 34, true);
    }
    let (begin, rest) = text.split_at_char(34);
    if begin.item.len() != 0 {
        return Err(Error::SyntaxError { span: begin.span, msg: Complaint::ExpectedDoubleQuote });
    }
    let (mut inner, end) = rest.split_at_char(34);
    if end.item.len() != 0 {
        return Err(Error::SyntaxError { span: end.span, msg: Complaint::ExtraContent });
    }
    let ghost whole = emit(inner.item@, inner.span, 0, true);
    let mut buffer: Vec<AwaTism> = Vec::new();
    let mut count: u8 = 0;
    let mut first_chunk = true;
    let chunk_size = u5::new_unchecked(31);
    proof {
        assert(prepend(buffer@, emit(inner.item@, inner.span, 0, true)) == whole) by {
            if whole is Ok {
                assert(buffer@ + whole->Ok_0 =~= whole->Ok_0);
            }
        }
    }
    loop
        invariant_except_break
            whole == prepend(buffer@, emit(inner.item@, inner.span, count as nat, first_chunk)),
        invariant
            count < 31,
            chunk_size == u5::of(31),
            whole == str_code(input.item@, input.span),
        ensures
            whole == Ok::<Seq<AwaTism>, Grievance>(buffer@),
        decreases inner.item@.len(),
    {
        let ghost before = buffer@;
        let ghost raw = inner.item@;
        let ghost place = inner.span;
        let ghost was_first = first_chunk;
        let ghost was_count = count;
        match inner.take_awascii() {
            Err(e) => {
                return Err(e);
            },
            Ok(None) => {
                if count > 0 {
                    buffer.push(AwaTism::Surround(u5::new_unchecked(count)));
                }
                if count != 0 && !first_chunk {
                    buffer.push(AwaTism::Merge);
                }
                proof {
                    assert(buffer@ =~= before + closing(count as nat, first_chunk));
                }
                break;
            },
            Ok(Some(awascii)) => {
                let blow = AwaTism::Blow(awascii.code() as i8);
                buffer.push(blow);
                count = count + 1;
                if count == 31 {
                    buffer.push(AwaTism::Surround(chunk_size));
                    count = 0;
                    if first_chunk {
                        first_chunk = false;
                    } else {
                        buffer.push(AwaTism::Merge);
                    }
                }
                proof {
                    let rest = inner.item@;
                    let later = emit(rest, inner.span, count as nat, first_chunk);
                    let prefix = if was_count + 1 == 31 {
                        seq![blow, AwaTism::Surround(u5::of(31))] + (if was_first {
                            Seq::<AwaTism>::empty()
                        } else {
                            seq![AwaTism::Merge]
                        })
                    } else {
                        seq![blow]
                    };
                    assert(buffer@ =~= before + prefix);
                    assert(emit(raw, place, was_count as nat, was_first) == prepend(prefix, later));
                    if later is Ok {
                        assert(before + (prefix + later->Ok_0) =~= buffer@ + later->Ok_0);
                    }
                }
            },
        }
    }
    Ok(buffer)
}

/// The path of the file that the macro for another file names.
pub fn inserted<'i>(input: Spanned<&'i [u8]>, _macros: &MacroTable) -> (r: Result<
    Spanned<&'i [u8]>,
    Error,
>)
    ensures
        match r {
            Ok(path) => inserted_path(input.item@, input.span) == Ok::<(Seq<u8>, Span), Grievance>(
                (path.item@, path.span),
            ),
            Err(e) => inserted_path(input.item@, input.span) == Err::<(Seq<u8>, Span), Grievance>(
                e.grievance(),
            ),
        },
{
    let mut text = input;
    text.trim();
    proof {
        lemma_lead_bounds(text.item@, 60, true);
        lemma_lead_bounds(behind(text.item@, 60), 62, true);
    }
    let (begin, rest) = text.split_at_char(60);
    if begin.item.len() != 0 {
        return Err(
            Error::SyntaxError { span: begin.span, msg: Complaint::ExpectedLeftAngleBracket },
        );
    }
    let (path, _) = rest.split_at_char(62);
    if !is_utf8(path.item) {
        return Err(Error::EncodingError { span: path.span });
    }
    Ok(path)
}

/// Whether two texts are the same.
pub fn same(a: &[u8], b: &[u8]) -> (r: bool)
    ensures
        r == (a@ == b@),
{
    if a.len() != b.len() {
        return false;
    }
    let mut i: usize = 0;
    while i < a.len()
        invariant
            0 <= i <= a@.len(),
            a@.len() == b@.len(),
            forall|j: int| 0 <= j < i ==> a@[j] == b@[j],
        decreases a@.len() - i,
    {
        if a[i] != b[i] {
            return false;
        }
        i = i + 1;
    }
    assert(a@ =~= b@);
    true
}

impl MacroTable {
    /// The macro that the table holds under `name`: the first of that name.
    pub open spec fn found(names: Seq<(Vec<u8>, Macro)>, name: Seq<u8>) -> Option<Macro>
        decreases names.len(),
    {
        if names.len() == 0 {
            None
        } else if names[0].0@ == name {
            Some(names[0].1)
        } else {
            Self::found(names.skip(1), name)
        }
    }

    /// The macro of the name `name`, if the table holds one.
    pub fn get(&self, name: &[u8]) -> (r: Option<Macro>)
        ensures
            r == Self::found(self.names@, name@),
    {
        let mut i: usize = 0;
        assert(self.names@.skip(0) =~= self.names@);
        while i < self.names.len()
            invariant
                0 <= i <= self.names@.len(),
                Self::found(self.names@, name@) == Self::found(self.names@.skip(i as int), name@),
            decreases self.names@.len() - i,
        {
            proof {
                assert(self.names@.skip(i as int)[0] == self.names@[i as int]);
                assert(self.names@.skip(i as int).skip(1) =~= self.names@.skip(i + 1));
            }
            if same(self.names[i].0.as_slice(), name) {
                return Some(self.names[i].1);
            }
            i = i + 1;
        }
        None
    }
}

impl Default for MacroTable {
    /// The table of the three macros `chr`, `str` and the one for another
    /// file.
    fn default() -> (r: Self)
        ensures
            r.names@.len() == 3,
            r.names@[0].0@ == seq![99u8, 104, 114],
            r.names@[0].1 == Macro::Chr,
            r.names@[1].0@ == seq![115u8, 116, 114],
            r.names@[1].1 == Macro::Str,
            r.names@[2].0@ == seq![105u8, 110, 99, 108, 117, 100, 101],
            r.names@[2].1 == Macro::Insert,
    {
        let mut names: Vec<(Vec<u8>, Macro)> = Vec::new();
        let mut chr_name: Vec<u8> = Vec::new();
        chr_name.push(99);
        chr_name.push(104);
        chr_name.push(114);
        let mut str_name: Vec<u8> = Vec::new();
        str_name.push(115);
        str_name.push(116);
        str_name.push(114);
        let mut insert_name: Vec<u8> = Vec::new();
        insert_name.push(105);
        insert_name.push(110);
        insert_name.push(99);
        insert_name.push(108);
        insert_name.push(117);
        insert_name.push(100);
        insert_name.push(101);
        proof {
            assert(chr_name@ =~= seq![99u8, 104, 114]);
            assert(str_name@ =~= seq![115u8, 116, 114]);
            assert(insert_name@ =~= seq![105u8, 110, 99, 108, 117, 100, 101]);
        }
        names.push((chr_name, Macro::Chr));
        names.push((str_name, Macro::Str));
        names.push((insert_name, Macro::Insert));
        MacroTable { names }
    }
}

} // verus!
