use rusty_awa::assembly::{Error as AssemblyError, MacroTable, Spanned};
use rusty_awa::awatalk::render_awatalk;
use rusty_awa::awatism::AwaTism;
use rusty_awa::bits::BitError;
use rusty_awa::format::{guess, read_program, ReadError, SourceFormat};
use rusty_awa::program::Program;
use rusty_awa::u5::u5;

fn other(path: Spanned<&[u8]>) -> Result<Vec<AwaTism>, AssemblyError> {
    if path.item == b"lib.awasm" {
        Ok(vec![AwaTism::Duplicate])
    } else {
        Err(AssemblyError::IOError { span: path.span })
    }
}

fn read(format: SourceFormat, src: &[u8]) -> Result<Vec<AwaTism>, ReadError> {
    let file = String::from("main");
    let macros = MacroTable::default();
    read_program(format, &file, src, &macros, &other).map(|program| program.iter().to_vec())
}

#[test]
fn the_form_of_a_source_is_guessed() {
    let talk = b"Awa awa";
    assert_eq!(guess(Some(SourceFormat::Binary), Some("awa"), talk), Some(SourceFormat::Binary));
    assert_eq!(guess(None, Some("awa"), b""), Some(SourceFormat::AwaTalk));
    assert_eq!(guess(None, Some("awasm"), talk), Some(SourceFormat::AwaTism));
    assert_eq!(guess(None, Some("bin"), talk), Some(SourceFormat::Binary));
    assert_eq!(guess(None, Some("txt"), talk), Some(SourceFormat::AwaTalk));
    assert_eq!(guess(None, Some("AWA"), b"nop"), None);
    assert_eq!(guess(None, None, b"aWAwa"), Some(SourceFormat::AwaTalk));
    assert_eq!(guess(None, None, b"aw"), None);
    assert_eq!(guess(None, None, b""), None);
    assert_eq!(guess(None, None, b" awa"), None);
}

#[test]
fn a_program_is_read_in_each_form() {
    let code = vec![
        AwaTism::Blow(-3),
        AwaTism::Surround(u5::one()),
        AwaTism::Duplicate,
        AwaTism::Terminate,
    ];
    let program = Program::from_vec(code.clone());
    let (bytes, length) = program.to_bitbuffer();
    assert_eq!(length, 13 + 10 + 5 + 5);
    // The seven zero bits that fill the last byte are padding.
    assert_eq!(bytes.len() * 8 - length, 7);
    assert_eq!(read(SourceFormat::Binary, &bytes), Ok(code.clone()));
    let talk = render_awatalk(&bytes, length);
    assert_eq!(read(SourceFormat::AwaTalk, &talk), Ok(code.clone()));
    let text = b"blo -3\nsrn 1\n!include <lib.awasm>\ntrm";
    assert_eq!(read(SourceFormat::AwaTism, text), Ok(code));
    assert_eq!(read(SourceFormat::AwaTalk, b"wa wa"), Err(ReadError::NoHeader));
    assert_eq!(read(SourceFormat::AwaTalk, b"awa"), Ok(vec![]));
    assert_eq!(read(SourceFormat::Binary, b""), Ok(vec![]));
    assert_eq!(
        read(SourceFormat::Binary, &[0xAF]),
        Err(ReadError::BitError(BitError::UnmatchedDiscriminant { discriminant: 0x15 }))
    );
    match read(SourceFormat::AwaTism, b"!include <none>") {
        Err(ReadError::AssemblyError(AssemblyError::IOError { span })) => {
            assert_eq!((span.line, span.start, span.end), (1, 10, 14))
        }
        _ => panic!("there is no such file"),
    }
    assert!(matches!(
        read(SourceFormat::AwaTism, b"wa"),
        Err(ReadError::AssemblyError(AssemblyError::UnknownIdentifier { .. }))
    ));
}
