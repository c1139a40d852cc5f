//! The forms in which a program comes as a file.
use crate::assembly::parser::{assembled, load_program};
use crate::assembly::{Error as AssemblyError, MacroTable, Spanned};
use crate::awatalk::{awatalk_bits, has_header, load_awatalk, lower};
use crate::awatism::AwaTism;
use crate::bits::{bits_of, BitError};
use crate::codec::{decoded_all, decoded_upto};
use crate::program::Program;
use vstd::prelude::*;
use vstd::string::StringSliceAdditionalSpecFns;

verus! {

/// The form of a source.
#[derive(Debug, Clone, Copy, PartialEq, Eq, Hash, Structural)]
pub enum SourceFormat {
    /// Bits spelled as ` awa` and `wa`.
    AwaTalk,
    /// Assembly text.
    AwaTism,
    /// Bits packed into bytes.
    Binary,
}

/// The form that goes with the bytes of a file name's extension.
pub open spec fn format_of(name: Seq<u8>) -> Option<SourceFormat> {
    if name == seq![97u8, 119, 97] {
        Some(SourceFormat::AwaTalk)  // awa
    } else if name == seq![97u8, 119, 97, 115, 109] {
        Some(SourceFormat::AwaTism)  // awasm
    } else if name == seq![98u8, 105, 110] {
        Some(SourceFormat::Binary)  // bin
    } else {
        None
    }
}

impl SourceFormat {
    /// The form that goes with the extension of a file name: `awa`, `awasm`
    /// or `bin`.
    pub fn from_extension(name: &str) -> (r: Option<Self>)
        ensures
            r == format_of(name.spec_bytes()),
    {
        let b = name.as_bytes();
        if b.len() == 3 && b[0] == 97 && b[1] == 119 && b[2] == 97 {
            assert(b@ =~= seq![97u8, 119, 97]);
            Some(SourceFormat::AwaTalk)
        } else if b.len() == 5 && b[0] == 97 && b[1] == 119 && b[2] == 97 && b[3] == 115 && b[4]
            == 109 {
            assert(b@ =~= seq![97u8, 119, 97, 115, 109]);
            Some(SourceFormat::AwaTism)
        } else if b.len() == 3 && b[0] == 98 && b[1] == 105 && b[2] == 110 {
            assert(b@ =~= seq![98u8, 105, 110]);
            Some(SourceFormat::Binary)
        } else {
            proof {
                if b@ == seq![97u8, 119, 97] {
                    assert(b@[0] == 97 && b@[1] == 119 && b@[2] == 97);
                }
                if b@ == seq![97u8, 119, 97, 115, 109] {
                    assert(b@[0] == 97 && b@[1] == 119 && b@[2] == 97 && b@[3] == 115 && b@[4] == 109);
                }
                if b@ == seq![98u8, 105, 110] {
                    assert(b@[0] == 98 && b@[1] == 105 && b@[2] == 110);
                }
            }
            None
        }
    }
}

/// Why no program could be read from a source.
#[derive(Debug, Clone, PartialEq, Eq)]
pub enum ReadError {
    /// The AwaTalk does not start with `awa`.
    NoHeader,
    BitError(BitError),
    AssemblyError(AssemblyError),
    /// The source holds more bits than a machine word counts.
    TooLong,
}

/// The form of a source: the one that is given; else the one that goes
/// with the extension of its file; else AwaTalk, where it starts with `awa`.
pub open spec fn guessed(
    given: Option<SourceFormat>,
    extension: Option<Seq<u8>>,
    src: Seq<u8>,
) -> Option<SourceFormat> {
    if given is Some {
        given
    } else if extension is Some && format_of(extension->0) is Some {
        format_of(extension->0)
    } else if has_header(src) {
        Some(SourceFormat::AwaTalk)
    } else {
        None
    }
}

/// The form of a source.
pub fn guess(given: Option<SourceFormat>, extension: Option<&str>, src: &[u8]) -> (r: Option<
    SourceFormat,
>)
    ensures
        r == guessed(
            given,
            match extension {
                Some(name) => Some(name.spec_bytes()),
                None => None,
            },
            src@,
        ),
{
    if given.is_some() {
        return given;
    }
    if let Some(name) = extension {
        let found = SourceFormat::from_extension(name);
        if found.is_some() {
            return found;
        }
    }
    if src.len() >= 3 && small(src[0]) == 97 && small(src[1]) == 119 && small(src[2]) == 97 {
        Some(SourceFormat::AwaTalk)
    } else {
        None
    }
}

fn small(c: u8) -> (r: u8)
    ensures
        r == lower(c),
{
    if c >= 65 && c <= 90 {
        c + 32
    } else {
        c
    }
}

/// The bits with as many zero bits behind them as fill the last byte.
pub open spec fn packed(bits: Seq<bool>) -> Seq<bool> {
    bits + Seq::new(((8 - bits.len() % 8) % 8) as nat, |i: int| false)
}

/// The code that a source in AwaTalk spells.
pub open spec fn awatalk_code(src: Seq<u8>) -> Result<Seq<AwaTism>, ReadError> {
    match awatalk_bits(src) {
        None => Err(ReadError::NoHeader),
        Some(bits) => if packed(bits).len() > usize::MAX {
            Err(ReadError::TooLong)
        } else {
            match decoded_upto(packed(bits), 0, bits.len()) {
                Ok(code) => Ok(code),
                Err(e) => Err(ReadError::BitError(e)),
            }
        },
    }
}

/// The code that a source of packed bits spells.
pub open spec fn binary_code(src: Seq<u8>) -> Result<Seq<AwaTism>, ReadError> {
    if 8 * src.len() > usize::MAX {
        Err(ReadError::TooLong)
    } else {
        match decoded_all(bits_of(src)) {
            Ok(code) => Ok(code),
            Err(e) => Err(ReadError::BitError(e)),
        }
    }
}

/// What was read, as a value.
pub open spec fn code_read(r: Result<Program, ReadError>) -> Result<Seq<AwaTism>, ReadError> {
    match r {
        Ok(program) => Ok(program@),
        Err(e) => Err(e),
    }
}

/// What was assembled, as a value.
pub open spec fn code_assembled(r: Result<Program, ReadError>) -> Result<
    Seq<AwaTism>,
    AssemblyError,
> {
    match r {
        Ok(program) => Ok(program@),
        Err(ReadError::AssemblyError(e)) => Err(e),
        Err(_) => Ok(Seq::empty()),
    }
}

/// The program of a source in the form `format`. For assembly text, `file`
/// names the source, and `insert` is asked for the code of each other file
/// that the source wants in its place.
pub fn read_program<R: Fn(Spanned<&[u8]>) -> Result<Vec<AwaTism>, AssemblyError>>(
    format: SourceFormat,
    file: &String,
    src: &[u8],
    macros: &MacroTable,
    insert: &R,
) -> (r: Result<Program, ReadError>)
    requires
        forall|path: Spanned<&[u8]>| call_requires(*insert, (path,)),
    ensures
        match format {
            SourceFormat::AwaTalk => code_read(r) == awatalk_code(src@),
            SourceFormat::Binary => code_read(r) == binary_code(src@),
            SourceFormat::AwaTism => (r is Ok || r matches Err(ReadError::AssemblyError(_)))
                && exists|paths: Seq<Spanned<&[u8]>>, codes: Seq<Vec<AwaTism>>|
                assembled(*insert, *file, src@, macros.names@, paths, codes, code_assembled(r)),
        },
{
    match format {
        SourceFormat::AwaTalk => {
            let (raw, length) = match load_awatalk(src) {
                Ok(loaded) => loaded,
                Err(_) => {
                    return Err(ReadError::NoHeader);
                },
            };
            proof {
                let bits = awatalk_bits(src@)->0;
                let all = bits_of(raw@);
                let count = bits.len() as int;
                let pad = (8 - count % 8) % 8;
                assert(all.len() - count == pad) by {
                    assert(all.len() == 8 * raw@.len());
                    assert((8 * raw@.len()) % 8 == 0);
                }
                assert forall|i: int| 0 <= i < all.len() implies all[i] == packed(bits)[i] by {
                    if i < count {
                        assert(all.take(count)[i] == all[i]);
                    } else {
                        assert(all.skip(count)[i - count] == all[i]);
                    }
                }
                assert(all =~= packed(bits));
            }
            if raw.len() > usize::MAX / 8 {
                return Err(ReadError::TooLong);
            }
            match Program::from_bitbuffer_with_length(raw.as_slice(), length) {
                Ok(program) => Ok(program),
                Err(e) => Err(ReadError::BitError(e)),
            }
        },
        SourceFormat::Binary => {
            if src.len() > usize::MAX / 8 {
                return Err(ReadError::TooLong);
            }
            match Program::from_bitbuffer(src) {
                Ok(program) => Ok(program),
                Err(e) => Err(ReadError::BitError(e)),
            }
        },
        SourceFormat::AwaTism => {
            let r = match load_program(file, src, macros, insert) {
                Ok(program) => Ok(program),
                Err(e) => Err(ReadError::AssemblyError(e)),
            };
            proof {
                let (paths, codes) = choose|paths: Seq<Spanned<&[u8]>>, codes: Seq<Vec<AwaTism>>|
                    assembled(
                        *insert,
                        *file,
                        src@,
                        macros.names@,
                        paths,
                        codes,
                        code_assembled(r),
                    );
                assert(assembled(*insert, *file, src@, macros.names@, paths, codes, code_assembled(r)));
            }
            r
        },
    }
}

} // verus!
