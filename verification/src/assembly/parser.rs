//! The lines of the assembly text.
use crate::assembly::macros::{
    chr, chr_code, inserted, inserted_path, lemma_prepend_twice, prepend, str, str_code,
};
use crate::assembly::{
    behind, lead, lead_to, number, trimmed, trimmed_span, Complaint, Error, Grievance, Macro,
    MacroTable, NumberKind, Span, Spanned,
};
use crate::awatism::AwaTism;
use crate::cast::is_utf8;
use crate::program::Program;
use crate::u5::u5;
use vstd::prelude::*;
use vstd::utf8::valid_utf8;

verus! {

/// The text `name` is the three bytes `a`, `b`, `c`.
pub open spec fn named(name: Seq<u8>, a: u8, b: u8, c: u8) -> bool {
    name.len() == 3 && name[0] == a && name[1] == b && name[2] == c
}

fn is_named(name: &[u8], a: u8, b: u8, c: u8) -> (r: bool)
    ensures
        r == named(name@, a, b, c),
{
    name.len() == 3 && name[0] == a && name[1] == b && name[2] == c
}

/// The 5-bit number that the text at `span` spells.
pub open spec fn operand(arg: Seq<u8>, span: Span) -> Result<u5, Grievance> {
    if !valid_utf8(arg) {
        Err(Grievance::Encoding(span))
    } else {
        match number(arg, NumberKind::Unsigned) {
            Err(e) => Err(Grievance::Parse(span, Complaint::Number(e))),
            Ok(v) => if v < 32 {
                Ok(u5::of(v as u8))
            } else {
                Err(Grievance::Parse(span, Complaint::OutOfBounds(5)))
            },
        }
    }
}

/// The number from -128 to 127 that the text at `span` spells.
pub open spec fn immediate(arg: Seq<u8>, span: Span) -> Result<i8, Grievance> {
    if !valid_utf8(arg) {
        Err(Grievance::Encoding(span))
    } else {
        match number(arg, NumberKind::Signed) {
            Err(e) => Err(Grievance::Parse(span, Complaint::Number(e))),
            Ok(v) => Ok(v as i8),
        }
    }
}

/// The instruction of the name `name` and, where it carries a number, of the
/// number that `arg` spells. A name that is no text in UTF-8, and a name
/// of no instruction, are errors at the place of the name; what is wrong
/// with the number is an error at the place of `arg`.
pub open spec fn instruction_of(name: Seq<u8>, place: Span, arg: Seq<u8>, span: Span) -> Result<
    AwaTism,
    Grievance,
> {
    if !valid_utf8(name) {
        Err(Grievance::Encoding(place))
    } else if named(name, 110, 111, 112) {
        Ok(AwaTism::NoOp)  // nop
    } else if named(name, 112, 114, 110) {
        Ok(AwaTism::Print)  // prn
    } else if named(name, 112, 114, 49) {
        Ok(AwaTism::PrintNum)  // pr1
    } else if named(name, 114, 101, 100) {
        Ok(AwaTism::Read)  // red
    } else if named(name, 114, 51, 100) {
        Ok(AwaTism::ReadNum)  // r3d
    } else if named(name, 116, 114, 109) {
        Ok(AwaTism::Terminate)  // trm
    } else if named(name, 98, 108, 111) {
        match immediate(arg, span) {  // blo
            Ok(v) => Ok(AwaTism::Blow(v)),
            Err(e) => Err(e),
        }
    } else if named(name, 115, 98, 109) {
        match operand(arg, span) {  // sbm
            Ok(v) => Ok(AwaTism::Submerge(v)),
            Err(e) => Err(e),
        }
    } else if named(name, 112, 111, 112) {
        Ok(AwaTism::Pop)  // pop
    } else if named(name, 100, 112, 108) {
        Ok(AwaTism::Duplicate)  // dpl
    } else if named(name, 115, 114, 110) {
        match operand(arg, span) {  // srn
            Ok(v) => Ok(AwaTism::Surround(v)),
            Err(e) => Err(e),
        }
    } else if named(name, 109, 114, 103) {
        Ok(AwaTism::Merge)  // mrg
    } else if named(name, 52, 100, 100) {
        Ok(AwaTism::Add)  // 4dd
    } else if named(name, 115, 117, 98) {
        Ok(AwaTism::Subtract)  // sub
    } else if named(name, 109, 117, 108) {
        Ok(AwaTism::Multiply)  // mul
    } else if named(name, 100, 105, 118) {
        Ok(AwaTism::Divide)  // div
    } else if named(name, 99, 110, 116) {
        Ok(AwaTism::Count)  // cnt
    } else if named(name, 108, 98, 108) {
        match operand(arg, span) {  // lbl
            Ok(v) => Ok(AwaTism::Label(v)),
            Err(e) => Err(e),
        }
    } else if named(name, 106, 109, 112) {
        match operand(arg, span) {  // jmp
            Ok(v) => Ok(AwaTism::Jump(v)),
            Err(e) => Err(e),
        }
    } else if named(name, 101, 113, 108) {
        Ok(AwaTism::EqualTo)  // eql
    } else if named(name, 108, 115, 115) {
        Ok(AwaTism::LessThan)  // lss
    } else if named(name, 103, 114, 56) {
        Ok(AwaTism::GreaterThan)  // gr8
    } else if named(name, 112, 48, 112) {
        Ok(AwaTism::DoublePop)  // p0p
    } else {
        Err(Grievance::Unknown(place, name))
    }
}

/// The instruction that a line spells: its name up to the first white
/// space, and its number behind that. `span` is the place of the line.
pub open spec fn instruction(line: Seq<u8>, span: Span) -> Result<AwaTism, Grievance> {
    let cut = lead(line, false);
    let rest = line.skip(cut as int);
    instruction_of(
        line.take(cut as int),
        span.truncated(cut as usize),
        trimmed(rest),
        trimmed_span(rest, span.skipped(cut as usize)),
    )
}

/// What a line comes to: code, or the wish for the text of another file.
pub enum Piece<'i> {
    Code(Vec<AwaTism>),
    Insert(Spanned<&'i [u8]>),
}

/// What a line comes to, as a value.
pub enum Part {
    Code(Seq<AwaTism>),
    /// The path of the other file, and the place of the path.
    Insert(Seq<u8>, Span),
}

impl<'i> Piece<'i> {
    /// What the line comes to, as a value.
    pub open spec fn part(self) -> Part {
        match self {
            Piece::Code(code) => Part::Code(code@),
            Piece::Insert(path) => Part::Insert(path.item@, path.span),
        }
    }
}

/// What a line that calls a macro comes to: behind the `!` stands the name
/// up to the first white space, and behind that what the macro is given.
/// `span` is the place of the line. A name that is no text in UTF-8, and a
/// name of no macro, are errors at the place of the name.
pub open spec fn macro_part(line: Seq<u8>, span: Span, names: Seq<(Vec<u8>, Macro)>) -> Result<
    Part,
    Grievance,
> {
    let rest = line.skip(1);
    let cut = lead(rest, false);
    let name = rest.take(cut as int);
    let place = span.skipped(1).truncated(cut as usize);
    let arg = rest.skip(cut as int);
    let arg_place = span.skipped(1).skipped(cut as usize);
    if !valid_utf8(name) {
        Err(Grievance::Encoding(place))
    } else {
        match MacroTable::found(names, name) {
            None => Err(Grievance::Unknown(place, seq![33u8] + name)),
            Some(Macro::Chr) => match chr_code(arg, arg_place) {
                Ok(code) => Ok(Part::Code(code)),
                Err(e) => Err(e),
            },
            Some(Macro::Str) => match str_code(arg, arg_place) {
                Ok(code) => Ok(Part::Code(code)),
                Err(e) => Err(e),
            },
            Some(Macro::Insert) => match inserted_path(arg, arg_place) {
                Ok((path, at)) => Ok(Part::Insert(path, at)),
                Err(e) => Err(e),
            },
        }
    }
}

/// What a line comes to: nothing where it is blank or a comment, what its
/// macro comes to where it starts with `!`, else its instruction. `span` is
/// the place of the line.
pub open spec fn line_part(line: Seq<u8>, span: Span, names: Seq<(Vec<u8>, Macro)>) -> Result<
    Part,
    Grievance,
> {
    let cut = lead(line, true);
    let text = line.skip(cut as int);
    let place = span.skipped(cut as usize);
    if text.len() == 0 || text[0] == 59 {
        Ok(Part::Code(Seq::empty()))
    } else if text[0] == 33 {
        macro_part(text, place, names)
    } else {
        match instruction(text, place) {
            Ok(awatism) => Ok(Part::Code(seq![awatism])),
            Err(e) => Err(e),
        }
    }
}

/// The place of a whole line of `length` bytes.
pub open spec fn line_span(file: String, number: usize, length: nat) -> Span {
    Span { file, line: number, start: 0, end: length as usize }
}

/// The number of the line behind line `number`.
pub open spec fn line_after(number: usize) -> usize {
    if number < usize::MAX {
        (number + 1) as usize
    } else {
        number
    }
}

/// The code that each of `codes` holds.
pub open spec fn views(codes: Seq<Vec<AwaTism>>) -> Seq<Seq<AwaTism>> {
    Seq::new(codes.len(), |i: int| codes[i]@)
}

/// The code of the source `src` of the file `file`, line by line from line
/// `number` on. A line that asks for another file stands for the code that
/// `answers` hold for it, in turn; where they run out, the code stays
/// `Pending`.
pub open spec fn woven(
    file: String,
    number: usize,
    src: Seq<u8>,
    names: Seq<(Vec<u8>, Macro)>,
    answers: Seq<Seq<AwaTism>>,
) -> Result<Seq<AwaTism>, Grievance>
    decreases src.len(),
{
    let first = src.take(lead_to(src, 10) as int);
    let more = lead_to(src, 10) < src.len();
    match line_part(first, line_span(file, number, first.len()), names) {
        Err(e) => Err(e),
        Ok(Part::Code(code)) => if more {
            prepend(code, woven(file, line_after(number), behind(src, 10), names, answers))
        } else {
            Ok(code)
        },
        Ok(Part::Insert(_, _)) => if answers.len() == 0 {
            Err(Grievance::Pending)
        } else if more {
            prepend(
                answers[0],
                woven(file, line_after(number), behind(src, 10), names, answers.skip(1)),
            )
        } else {
            Ok(answers[0])
        },
    }
}

/// The paths of the files that a source asks for, each with its place, in
/// turn, up to its first line that is at fault.
pub open spec fn wanted(
    file: String,
    number: usize,
    src: Seq<u8>,
    names: Seq<(Vec<u8>, Macro)>,
) -> Seq<(Seq<u8>, Span)>
    decreases src.len(),
{
    let first = src.take(lead_to(src, 10) as int);
    let rest = if lead_to(src, 10) < src.len() {
        wanted(file, line_after(number), behind(src, 10), names)
    } else {
        Seq::empty()
    };
    match line_part(first, line_span(file, number, first.len()), names) {
        Err(_) => Seq::empty(),
        Ok(Part::Code(_)) => rest,
        Ok(Part::Insert(path, at)) => seq![(path, at)] + rest,
    }
}

/// The code of a source as far as it rests with the source alone: a line
/// that asks for another file leaves it `Pending`.
pub open spec fn source_code(file: String, src: Seq<u8>, names: Seq<(Vec<u8>, Macro)>) -> Result<
    Seq<AwaTism>,
    Grievance,
> {
    woven(file, 1, src, names, Seq::empty())
}

/// The path and the place of each piece.
pub open spec fn asked(paths: Seq<Spanned<&[u8]>>) -> Seq<(Seq<u8>, Span)> {
    Seq::new(paths.len(), |i: int| (paths[i].item@, paths[i].span))
}

/// `insert` was asked for the first files of `wanted`, in turn and under
/// `paths`, and gave `codes` for them.
pub open spec fn answered<R: Fn(Spanned<&[u8]>) -> Result<Vec<AwaTism>, Error>>(
    insert: R,
    wanted: Seq<(Seq<u8>, Span)>,
    paths: Seq<Spanned<&[u8]>>,
    codes: Seq<Vec<AwaTism>>,
) -> bool {
    &&& paths.len() == codes.len()
    &&& codes.len() <= wanted.len()
    &&& forall|i: int|
        0 <= i < codes.len() ==> asked(paths)[i] == wanted[i] && call_ensures(
            insert,
            (#[trigger] paths[i],),
            Ok::<Vec<AwaTism>, Error>(codes[i]),
        )
}

/// What reading a source with `insert` may come to, given that `insert`
/// gave `codes` for the files asked for under `paths`: the code of the
/// source with `codes` in their places; or the first fault of the source,
/// where `insert` failed for none of the files before it; or the error with
/// which `insert` failed for the next file.
pub open spec fn assembled<R: Fn(Spanned<&[u8]>) -> Result<Vec<AwaTism>, Error>>(
    insert: R,
    file: String,
    src: Seq<u8>,
    names: Seq<(Vec<u8>, Macro)>,
    paths: Seq<Spanned<&[u8]>>,
    codes: Seq<Vec<AwaTism>>,
    r: Result<Seq<AwaTism>, Error>,
) -> bool {
    let all = wanted(file, 1, src, names);
    &&& answered(insert, all, paths, codes)
    &&& if codes.len() < all.len() {
        &&& r is Err
        &&& exists|path: Spanned<&[u8]>|
            (path.item@, path.span) == all[codes.len() as int] && #[trigger] call_ensures(
                insert,
                (path,),
                Err::<Vec<AwaTism>, Error>(r->Err_0),
            )
    } else {
        match r {
            Ok(code) => woven(file, 1, src, names, views(codes)) == Ok::<Seq<AwaTism>, Grievance>(
                code,
            ),
            Err(e) => woven(file, 1, src, names, views(codes)) == Err::<Seq<AwaTism>, Grievance>(
                e.grievance(),
            ),
        }
    }
}

/// What a result holds, as a value.
pub open spec fn code_of(r: Result<Vec<AwaTism>, Error>) -> Result<Seq<AwaTism>, Error> {
    match r {
        Ok(code) => Ok(code@),
        Err(e) => Err(e),
    }
}

/// The instruction that a line spells.
pub fn awatism(line: Spanned<&[u8]>) -> (r: Result<AwaTism, Error>)
    ensures
        match r {
            Ok(awatism) => instruction(line.item@, line.span) == Ok::<AwaTism, Grievance>(awatism),
            Err(e) => instruction(line.item@, line.span) == Err::<AwaTism, Grievance>(
                e.grievance(),
            ),
        },
{
    let (name, mut arg) = line.split_at_whitespace();
    arg.trim();
    let ident = name.item;
    if !is_utf8(ident) {
        Err(Error::EncodingError { span: name.span })
    } else if is_named(ident, 110, 111, 112) {
        Ok(AwaTism::NoOp)
    } else if is_named(ident, 112, 114, 110) {
        Ok(AwaTism::Print)
    } else if is_named(ident, 112, 114, 49) {
        Ok(AwaTism::PrintNum)
    } else if is_named(ident, 114, 101, 100) {
        Ok(AwaTism::Read)
    } else if is_named(ident, 114, 51, 100) {
        Ok(AwaTism::ReadNum)
    } else if is_named(ident, 116, 114, 109) {
        Ok(AwaTism::Terminate)
    } else if is_named(ident, 98, 108, 111) {
        match arg.parse(NumberKind::Signed) {
            Ok(v) => Ok(AwaTism::Blow(v as i8)),
            Err(e) => Err(e),
        }
    } else if is_named(ident, 115, 98, 109) {
        match small(&arg) {
            Ok(v) => Ok(AwaTism::Submerge(v)),
            Err(e) => Err(e),
        }
    } else if is_named(ident, 112, 111, 112) {
        Ok(AwaTism::Pop)
    } else if is_named(ident, 100, 112, 108) {
        Ok(AwaTism::Duplicate)
    } else if is_named(ident, 115, 114, 110) {
        match small(&arg) {
            Ok(v) => Ok(AwaTism::Surround(v)),
            Err(e) => Err(e),
        }
    } else if is_named(ident, 109, 114, 103) {
        Ok(AwaTism::Merge)
    } else if is_named(ident, 52, 100, 100) {
        Ok(AwaTism::Add)
    } else if is_named(ident, 115, 117, 98) {
        Ok(AwaTism::Subtract)
    } else if is_named(ident, 109, 117, 108) {
        Ok(AwaTism::Multiply)
    } else if is_named(ident, 100, 105, 118) {
        Ok(AwaTism::Divide)
    } else if is_named(ident, 99, 110, 116) {
        Ok(AwaTism::Count)
    } else if is_named(ident, 108, 98, 108) {
        match small(&arg) {
            Ok(v) => Ok(AwaTism::Label(v)),
            Err(e) => Err(e),
        }
    } else if is_named(ident, 106, 109, 112) {
        match small(&arg) {
            Ok(v) => Ok(AwaTism::Jump(v)),
            Err(e) => Err(e),
        }
    } else if is_named(ident, 101, 113, 108) {
        Ok(AwaTism::EqualTo)
    } else if is_named(ident, 108, 115, 115) {
        Ok(AwaTism::LessThan)
    } else if is_named(ident, 103, 114, 56) {
        Ok(AwaTism::GreaterThan)
    } else if is_named(ident, 112, 48, 112) {
        Ok(AwaTism::DoublePop)
    } else {
        Err(
            Error::UnknownIdentifier {
                span: name.span,
                identifier: vstd::slice::slice_to_vec(ident),
            },
        )
    }
}

/// The 5-bit number that a piece spells.
fn small(arg: &Spanned<&[u8]>) -> (r: Result<u5, Error>)
    ensures
        match r {
            Ok(v) => operand(arg.item@, arg.span) == Ok::<u5, Grievance>(v),
            Err(e) => operand(arg.item@, arg.span) == Err::<u5, Grievance>(e.grievance()),
        },
{
    match arg.parse(NumberKind::Unsigned) {
        Err(e) => Err(e),
        Ok(v) => {
            if v < 32 {
                match u5::try_from(v as u8) {
                    Ok(value) => Ok(value),
                    Err(_) => Err(
                        Error::ParseError { span: arg.span.copy(), msg: Complaint::OutOfBounds(5) },
                    ),
                }
            } else {
                Err(Error::ParseError { span: arg.span.copy(), msg: Complaint::OutOfBounds(5) })
            }
        },
    }
}

/// What a line that starts with `!` comes to.
pub fn _macro<'i>(line: Spanned<&'i [u8]>, macros: &MacroTable) -> (r: Result<Piece<'i>, Error>)
    requires
        line.item@.len() >= 1,
    ensures
        match r {
            Ok(piece) => macro_part(line.item@, line.span, macros.names@) == Ok::<Part, Grievance>(
                piece.part(),
            ),
            Err(e) => macro_part(line.item@, line.span, macros.names@) == Err::<Part, Grievance>(
                e.grievance(),
            ),
        },
{
    let (_exclaim, rest) = line.split_at(1);
    let (name, rest) = rest.split_at_whitespace();
    if !is_utf8(name.item) {
        return Err(Error::EncodingError { span: name.span });
    }
    match macros.get(name.item) {
        None => {
            let mut identifier: Vec<u8> = Vec::new();
            identifier.push(33);
            let mut copy = vstd::slice::slice_to_vec(name.item);
            identifier.append(&mut copy);
            proof {
                assert(identifier@ =~= seq![33u8] + name.item@);
            }
            Err(Error::UnknownIdentifier { span: name.span, identifier })
        },
        Some(Macro::Chr) => match chr(rest, macros) {
            Ok(code) => Ok(Piece::Code(code)),
            Err(e) => Err(e),
        },
        Some(Macro::Str) => match str(rest, macros) {
            Ok(code) => Ok(Piece::Code(code)),
            Err(e) => Err(e),
        },
        Some(Macro::Insert) => match inserted(rest, macros) {
            Ok(path) => Ok(Piece::Insert(path)),
            Err(e) => Err(e),
        },
    }
}

/// Appends the code that a line comes to. Where the line asks for the text
/// of another file, its path is handed back and nothing is appended.
pub fn push_line<'i>(buffer: &mut Vec<AwaTism>, line: Spanned<&'i [u8]>, macros: &MacroTable) -> (r:
    Result<Option<Spanned<&'i [u8]>>, Error>)
    ensures
        match r {
            Ok(None) => line_part(line.item@, line.span, macros.names@) matches Ok(
                Part::Code(code),
            ) && final(buffer)@ == old(buffer)@ + code,
            Ok(Some(path)) => line_part(line.item@, line.span, macros.names@) == Ok::<
                Part,
                Grievance,
            >(Part::Insert(path.item@, path.span)) && final(buffer)@ == old(buffer)@,
            Err(e) => line_part(line.item@, line.span, macros.names@) == Err::<Part, Grievance>(
                e.grievance(),
            ) && final(buffer)@ == old(buffer)@,
        },
{
    let mut text = line;
    text.trim_start();
    match text.first() {
        Some(33) => match _macro(text, macros) {
            Ok(Piece::Code(mut code)) => {
                buffer.append(&mut code);
                Ok(None)
            },
            Ok(Piece::Insert(path)) => Ok(Some(path)),
            Err(e) => Err(e),
        },
        Some(59) => {
            assert(buffer@ =~= old(buffer)@ + Seq::<AwaTism>::empty());
            Ok(None)
        },
        None => {
            assert(buffer@ =~= old(buffer)@ + Seq::<AwaTism>::empty());
            Ok(None)
        },
        Some(_) => match awatism(text) {
            Ok(one) => {
                buffer.push(one);
                assert(buffer@ =~= old(buffer)@ + seq![one]);
                Ok(None)
            },
            Err(e) => Err(e),
        },
    }
}

/// The end of the line that starts at `at`: the place of its line feed, or
/// the end of the source.
fn line_end(src: &[u8], at: usize) -> (end: usize)
    requires
        at <= src@.len(),
    ensures
        at <= end <= src@.len(),
        end - at == lead_to(src@.skip(at as int), 10),
        src@.subrange(at as int, end as int) == src@.skip(at as int).take(
            lead_to(src@.skip(at as int), 10) as int,
        ),
        end < src@.len() ==> behind(src@.skip(at as int), 10) == src@.skip(end + 1),
{
    let ghost rest = src@.skip(at as int);
    let mut end = at;
    proof {
        assert(rest.skip(0) =~= rest);
    }
    while end < src.len() && src[end] != 10
        invariant
            at <= end <= src@.len(),
            rest == src@.skip(at as int),
            lead_to(rest, 10) == (end - at) + lead_to(rest.skip(end - at), 10),
        decreases src@.len() - end,
    {
        proof {
            assert(rest.skip(end - at)[0] == src@[end as int]);
            assert(rest.skip(end - at).skip(1) =~= rest.skip(end - at + 1));
        }
        end = end + 1;
    }
    proof {
        if end < src@.len() {
            assert(rest.skip(end - at)[0] == src@[end as int]);
            assert(behind(rest, 10) =~= src@.skip(end + 1));
        }
        assert(src@.subrange(at as int, end as int) =~= rest.take(lead_to(rest, 10) as int));
    }
    end
}

/// The code of a source. `insert` is asked for the code of each other file
/// that the source wants in its place, in turn; the first fault of the
/// source or failure of `insert` ends it.
#[verifier::rlimit(60)]
pub fn lines<R: Fn(Spanned<&[u8]>) -> Result<Vec<AwaTism>, Error>>(
    file: &String,
    src: &[u8],
    macros: &MacroTable,
    insert: &R,
) -> (r: Result<Vec<AwaTism>, Error>)
    requires
        forall|path: Spanned<&[u8]>| call_requires(*insert, (path,)),
    ensures
        match source_code(*file, src@, macros.names@) {
            Ok(code) => r matches Ok(v) && v@ == code,
            Err(Grievance::Pending) => true,
            Err(e) => r matches Err(error) && error.grievance() == e,
        },
        exists|paths: Seq<Spanned<&[u8]>>, codes: Seq<Vec<AwaTism>>|
            assembled(*insert, *file, src@, macros.names@, paths, codes, code_of(r)),
{
    let mut buffer: Vec<AwaTism> = Vec::new();
    let mut at: usize = 0;
    let mut number: usize = 1;
    let ghost names = macros.names@;
    let ghost all = wanted(*file, 1, src@, names);
    let ghost mut paths: Seq<Spanned<&[u8]>> = Seq::empty();
    let ghost mut codes: Seq<Vec<AwaTism>> = Seq::empty();
    proof {
        assert(src@.skip(0) =~= src@);
        assert(all =~= Seq::<(Seq<u8>, Span)>::empty() + all);
        assert forall|tail: Seq<Seq<AwaTism>>|
            woven(*file, 1, src@, names, views(codes) + tail) == prepend(
                buffer@,
                #[trigger] woven(*file, number, src@.skip(at as int), names, tail),
            ) by {
            assert(views(codes) + tail =~= tail);
            let whole = woven(*file, 1, src@, names, tail);
            if whole is Ok {
                assert(buffer@ + whole->Ok_0 =~= whole->Ok_0);
            }
        }
    }
    loop
        invariant_except_break
            forall|tail: Seq<Seq<AwaTism>>|
                woven(*file, 1, src@, names, views(codes) + tail) == prepend(
                    buffer@,
                    #[trigger] woven(*file, number, src@.skip(at as int), names, tail),
                ),
            all == asked(paths) + wanted(*file, number, src@.skip(at as int), names),
        invariant
            0 <= at <= src@.len(),
            names == macros.names@,
            all == wanted(*file, 1, src@, names),
            paths.len() == codes.len(),
            forall|i: int|
                0 <= i < codes.len() ==> call_ensures(
                    *insert,
                    (#[trigger] paths[i],),
                    Ok::<Vec<AwaTism>, Error>(codes[i]),
                ),
            codes.len() > 0 ==> source_code(*file, src@, names) == Err::<Seq<AwaTism>, Grievance>(
                Grievance::Pending,
            ),
            forall|path: Spanned<&[u8]>| call_requires(*insert, (path,)),
        ensures
            woven(*file, 1, src@, names, views(codes)) == Ok::<Seq<AwaTism>, Grievance>(buffer@),
            all == asked(paths),
        decreases src@.len() - at,
    {
        let ghost rest = src@.skip(at as int);
        let ghost before = buffer@;
        let ghost before_paths = asked(paths);
        let ghost given = views(codes);
        let end = line_end(src, at);
        let text = vstd::slice::slice_subrange(src, at, end);
        let line = Spanned::from_line(file.clone(), number, text);
        let ghost part = line_part(text@, line.span, names);
        let ghost more = end < src@.len();
        let ghost next = src@.skip(end + 1);
        let ghost place = line.span;
        proof {
            let first = rest.take(lead_to(rest, 10) as int);
            assert(text@ == first);
            assert(place == line_span(*file, number, first.len()));
            assert(part == line_part(first, line_span(*file, number, first.len()), names));
            assert(more == (lead_to(rest, 10) < rest.len()));
            assert(more ==> behind(rest, 10) == next);
            assert(given + Seq::<Seq<AwaTism>>::empty() =~= given);
            assert(woven(*file, 1, src@, names, given) == prepend(
                before,
                woven(*file, number, rest, names, Seq::empty()),
            ));
        }
        match push_line(&mut buffer, line, macros) {
            Err(e) => {
                proof {
                    assert(wanted(*file, number, rest, names) =~= Seq::<(Seq<u8>, Span)>::empty());
                    assert(all =~= before_paths);
                    assert(assembled(*insert, *file, src@, names, paths, codes, code_of(Err(e))));
                }
                return Err(e);
            },
            Ok(Some(path)) => {
                proof {
                    assert(source_code(*file, src@, names) == Err::<Seq<AwaTism>, Grievance>(
                        Grievance::Pending,
                    ));
                    assert(all[paths.len() as int] == (path.item@, path.span));
                }
                match insert(path) {
                    Ok(mut code) => {
                        proof {
                            paths = paths.push(path);
                            codes = codes.push(code);
                            let now = views(codes);
                            assert(now =~= given + seq![code@]);
                            assert forall|tail: Seq<Seq<AwaTism>>|
                                woven(*file, 1, src@, names, now + tail) == (if more {
                                    prepend(
                                        before + code@,
                                        #[trigger] woven(*file, line_after(number), next, names, tail),
                                    )
                                } else {
                                    Ok(before + code@)
                                }) by {
                                let longer = seq![code@] + tail;
                                assert(now + tail =~= given + longer);
                                assert(longer.skip(1) =~= tail);
                                assert(woven(*file, 1, src@, names, given + longer) == prepend(
                                    before,
                                    woven(*file, number, rest, names, longer),
                                ));
                                if more {
                                    lemma_prepend_twice(
                                        before,
                                        code@,
                                        woven(*file, line_after(number), next, names, tail),
                                    );
                                }
                            }
                            if !more {
                                let none = Seq::<Seq<AwaTism>>::empty();
                                assert(now + none =~= given + seq![code@]);
                                assert(seq![code@].skip(1) =~= none);
                                assert(woven(*file, 1, src@, names, given + seq![code@]) == prepend(
                                    before,
                                    woven(*file, number, rest, names, seq![code@]),
                                ));
                                assert(woven(*file, 1, src@, names, now) == Ok::<Seq<AwaTism>, Grievance>(
                                    before + code@,
                                ));
                            }
                            assert(asked(paths) =~= before_paths + seq![(path.item@, path.span)]);
                            assert(all =~= asked(paths) + (if more {
                                wanted(*file, line_after(number), next, names)
                            } else {
                                Seq::empty()
                            }));
                        }
                        buffer.append(&mut code);
                    },
                    Err(e) => {
                        proof {
                            assert(assembled(*insert, *file, src@, names, paths, codes, code_of(Err(e))));
                        }
                        return Err(e);
                    },
                }
            },
            Ok(None) => {
                proof {
                    let code = part->Ok_0->Code_0;
                    assert forall|tail: Seq<Seq<AwaTism>>|
                        woven(*file, 1, src@, names, given + tail) == (if more {
                            prepend(
                                before + code,
                                #[trigger] woven(*file, line_after(number), next, names, tail),
                            )
                        } else {
                            Ok(before + code)
                        }) by {
                        assert(woven(*file, 1, src@, names, given + tail) == prepend(
                            before,
                            woven(*file, number, rest, names, tail),
                        ));
                        if more {
                            lemma_prepend_twice(
                                before,
                                code,
                                woven(*file, line_after(number), next, names, tail),
                            );
                        }
                    }
                    if !more {
                        assert(woven(*file, 1, src@, names, given) == Ok::<Seq<AwaTism>, Grievance>(
                            before + code,
                        ));
                    }
                    assert(all =~= before_paths + (if more {
                        wanted(*file, line_after(number), next, names)
                    } else {
                        Seq::empty()
                    }));
                }
            },
        }
        if number < usize::MAX {
            number = number + 1;
        }
        if end < src.len() {
            at = end + 1;
        } else {
            proof {
                assert(all =~= asked(paths));
            }
            break;
        }
    }
    proof {
        assert(assembled(*insert, *file, src@, names, paths, codes, code_of(Ok(buffer))));
    }
    Ok(buffer)
}

/// What a result holds, as a value.
pub open spec fn program_of(r: Result<Program, Error>) -> Result<Seq<AwaTism>, Error> {
    match r {
        Ok(program) => Ok(program@),
        Err(e) => Err(e),
    }
}

/// The program of a source.
pub fn load_program<R: Fn(Spanned<&[u8]>) -> Result<Vec<AwaTism>, Error>>(
    file: &String,
    src: &[u8],
    macros: &MacroTable,
    insert: &R,
) -> (r: Result<Program, Error>)
    requires
        forall|path: Spanned<&[u8]>| call_requires(*insert, (path,)),
    ensures
        match source_code(*file, src@, macros.names@) {
            Ok(code) => r matches Ok(program) && program@ == code,
            Err(Grievance::Pending) => true,
            Err(e) => r matches Err(error) && error.grievance() == e,
        },
        exists|paths: Seq<Spanned<&[u8]>>, codes: Seq<Vec<AwaTism>>|
            assembled(*insert, *file, src@, macros.names@, paths, codes, program_of(r)),
{
    match lines(file, src, macros, insert) {
        Ok(awatisms) => {
            let ghost code = awatisms@;
            let program = Program::from_vec(awatisms);
            proof {
                let (paths, codes) = choose|paths: Seq<Spanned<&[u8]>>, codes: Seq<Vec<AwaTism>>|
                    assembled(
                        *insert,
                        *file,
                        src@,
                        macros.names@,
                        paths,
                        codes,
                        Ok::<Seq<AwaTism>, Error>(code),
                    );
                assert(assembled(*insert, *file, src@, macros.names@, paths, codes, program_of(Ok(program))));
            }
            Ok(program)
        },
        Err(e) => {
            proof {
                let (paths, codes) = choose|paths: Seq<Spanned<&[u8]>>, codes: Seq<Vec<AwaTism>>|
                    assembled(
                        *insert,
                        *file,
                        src@,
                        macros.names@,
                        paths,
                        codes,
                        Err::<Seq<AwaTism>, Error>(e),
                    );
                assert(assembled(*insert, *file, src@, macros.names@, paths, codes, program_of(Err(e))));
            }
            Err(e)
        },
    }
}

} // verus!
