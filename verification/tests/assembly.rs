use rusty_awa::assembly::macros::{chr, inserted, str};
use rusty_awa::assembly::parser::{awatism, lines, load_program, push_line};
use rusty_awa::assembly::{
    Complaint, Error, MacroTable, NumberKind, Span, Spanned,
};
use rusty_awa::awascii::AwaSCII;
use rusty_awa::awatism::AwaTism;
use rusty_awa::error::NumberError;
use rusty_awa::format::SourceFormat;
use rusty_awa::u5::u5;

fn piece(text: &str) -> Spanned<&[u8]> {
    Spanned::from_line(String::from("file"), 1, text.as_bytes())
}

fn place(span: &Span) -> (usize, usize, usize) {
    (span.line, span.start, span.end)
}

fn none(_path: Spanned<&[u8]>) -> Result<Vec<AwaTism>, Error> {
    panic!("no other file is asked for")
}

#[test]
fn spans_move_and_shrink() {
    let span = Span::new(String::from("f"), 3, 2, 10);
    assert_eq!(span.len(), 8);
    assert!(!span.is_empty());
    assert_eq!(place(&span.skip(3)), (3, 5, 10));
    assert_eq!(place(&span.skip(8)), (3, 10, 10));
    assert_eq!(place(&span.skip(usize::MAX)), (3, 10, 10));
    assert!(span.skip(9).is_empty());
    assert_eq!(place(&span.truncate(3)), (3, 2, 5));
    assert_eq!(place(&span.truncate(8)), (3, 2, 10));
    assert_eq!(place(&span.truncate(usize::MAX)), (3, 2, 10));
    assert_eq!(span.truncate(0).len(), 0);
    assert_eq!(span.copy().file, "f");
}

#[test]
fn pieces_are_trimmed_and_split() {
    let mut line = piece("  \tblo  5 \r\n");
    assert_eq!(line.len(), 12);
    line.trim_start();
    assert_eq!(line.item, b"blo  5 \r\n");
    assert_eq!(place(&line.span), (1, 3, 12));
    assert_eq!(line.first(), Some(b'b'));
    line.trim_end();
    assert_eq!(line.item, b"blo  5");
    assert_eq!(place(&line.span), (1, 3, 9));
    let (name, rest) = line.split_at_whitespace();
    assert_eq!((name.item, place(&name.span)), (&b"blo"[..], (1, 3, 6)));
    assert_eq!((rest.item, place(&rest.span)), (&b"  5"[..], (1, 6, 9)));
    let (left, right) = line.split_at(4);
    assert_eq!((left.item, right.item), (&b"blo "[..], &b" 5"[..]));
    let mut blank = piece(" \n ");
    blank.trim();
    assert!(blank.is_empty());
    assert_eq!(blank.first(), None);
    let mut empty = piece("");
    empty.trim();
    assert_eq!(empty.item, b"");
}

#[test]
fn pieces_are_split_at_a_character() {
    let line = piece("ab'cd'e");
    let (before, after) = line.split_at_char(b'\'');
    assert_eq!((before.item, after.item), (&b"ab"[..], &b"cd'e"[..]));
    assert_eq!(place(&before.span), (1, 0, 2));
    let (before, after) = line.split_at_char(b'x');
    assert_eq!((before.item, after.item), (&b"ab'cd'e"[..], &b""[..]));
    let (before, after) = line.split_at_char(b'e');
    assert_eq!((before.item, after.item), (&b"ab'cd'"[..], &b""[..]));
}

#[test]
fn numbers_are_parsed() {
    assert_eq!(piece("127").parse(NumberKind::Signed).ok(), Some(127));
    assert_eq!(piece("-128").parse(NumberKind::Signed).ok(), Some(-128));
    assert_eq!(piece("+7").parse(NumberKind::Signed).ok(), Some(7));
    assert_eq!(piece("007").parse(NumberKind::Unsigned).ok(), Some(7));
    assert_eq!(piece("255").parse(NumberKind::Unsigned).ok(), Some(255));
    let fault = |text: &str, kind| match piece(text).parse(kind) {
        Err(Error::ParseError { msg: Complaint::Number(e), span }) => {
            assert_eq!(place(&span), (1, 0, text.len()));
            e
        }
        _ => panic!("a number error is due"),
    };
    assert_eq!(fault("", NumberKind::Signed), NumberError::Empty);
    assert_eq!(fault("-", NumberKind::Signed), NumberError::InvalidDigit);
    assert_eq!(fault("+", NumberKind::Unsigned), NumberError::InvalidDigit);
    assert_eq!(fault("-1", NumberKind::Unsigned), NumberError::InvalidDigit);
    assert_eq!(fault("1x", NumberKind::Signed), NumberError::InvalidDigit);
    assert_eq!(fault("128", NumberKind::Signed), NumberError::PosOverflow);
    assert_eq!(fault("-129", NumberKind::Signed), NumberError::NegOverflow);
    assert_eq!(fault("256", NumberKind::Unsigned), NumberError::PosOverflow);
    assert_eq!(fault("999x", NumberKind::Unsigned), NumberError::PosOverflow);
}

#[test]
fn characters_are_taken_from_the_end() {
    let mut text = piece("w\\n.");
    assert_eq!(text.take_awascii().ok(), Some(AwaSCII::from_ascii(b'.')));
    assert_eq!(text.take_awascii().ok(), Some(AwaSCII::new(63)));
    assert_eq!(text.item, b"w");
    assert_eq!(text.take_awascii().ok(), Some(AwaSCII::new(3)));
    assert!(matches!(text.take_awascii(), Ok(None)));
    let mut bad = piece("ax");
    match bad.take_awascii() {
        Err(Error::ParseError { span, msg }) => {
            assert_eq!(msg, Complaint::InvalidAwaSCII);
            assert_eq!(place(&span), (1, 1, 2));
        }
        _ => panic!("`x` is no AwaSCII character"),
    }
    assert_eq!(bad.item, b"ax");
}

#[test]
fn instructions_are_parsed() {
    let n = u5::new_unchecked;
    let cases = [
        ("nop", AwaTism::NoOp),
        ("prn", AwaTism::Print),
        ("pr1", AwaTism::PrintNum),
        ("red", AwaTism::Read),
        ("r3d", AwaTism::ReadNum),
        ("trm", AwaTism::Terminate),
        ("blo -8", AwaTism::Blow(-8)),
        ("sbm 31", AwaTism::Submerge(n(31))),
        ("pop", AwaTism::Pop),
        ("dpl", AwaTism::Duplicate),
        ("srn\t4", AwaTism::Surround(n(4))),
        ("mrg", AwaTism::Merge),
        ("4dd", AwaTism::Add),
        ("sub", AwaTism::Subtract),
        ("mul", AwaTism::Multiply),
        ("div", AwaTism::Divide),
        ("cnt", AwaTism::Count),
        ("lbl 0", AwaTism::Label(n(0))),
        ("jmp 17 ", AwaTism::Jump(n(17))),
        ("eql", AwaTism::EqualTo),
        ("lss", AwaTism::LessThan),
        ("gr8", AwaTism::GreaterThan),
        ("p0p", AwaTism::DoublePop),
    ];
    for (text, expected) in cases {
        assert_eq!(awatism(piece(text)).ok(), Some(expected), "{}", text);
    }
}

#[test]
fn instructions_that_are_none() {
    match awatism(piece("blow 5")) {
        Err(Error::UnknownIdentifier { span, identifier }) => {
            assert_eq!(identifier, b"blow");
            assert_eq!(place(&span), (1, 0, 4));
        }
        _ => panic!("`blow` is no instruction"),
    }
    assert!(matches!(
        awatism(piece("srn 32")),
        Err(Error::ParseError { msg: Complaint::OutOfBounds(5), .. })
    ));
    assert!(matches!(
        awatism(piece("blo")),
        Err(Error::ParseError { msg: Complaint::Number(NumberError::Empty), .. })
    ));
    assert!(matches!(
        awatism(piece("jmp 256")),
        Err(Error::ParseError { msg: Complaint::Number(NumberError::PosOverflow), .. })
    ));
    assert!(matches!(
        awatism(piece("NOP")),
        Err(Error::UnknownIdentifier { .. })
    ));
}

#[test]
fn macro_for_a_character() {
    let macros = MacroTable::default();
    assert_eq!(chr(piece(" 'a' "), &macros).ok(), Some(vec![AwaTism::Blow(2)]));
    assert_eq!(chr(piece("'\\n'"), &macros).ok(), Some(vec![AwaTism::Blow(63)]));
    let complaint = |text: &str| match chr(piece(text), &macros) {
        Err(Error::SyntaxError { msg, .. }) | Err(Error::ParseError { msg, .. }) => msg,
        _ => panic!("an error is due"),
    };
    assert_eq!(complaint("a'"), Complaint::ExpectedSingleQuote);
    assert_eq!(complaint("a"), Complaint::ExpectedSingleQuote);
    assert_eq!(complaint("'a'b"), Complaint::ExpectedSingleQuote);
    assert_eq!(complaint("''"), Complaint::EmptyCharacter);
    assert_eq!(complaint(""), Complaint::EmptyCharacter);
    assert_eq!(complaint("'x'"), Complaint::InvalidAwaSCII);
}

#[test]
fn macro_for_a_text() {
    let macros = MacroTable::default();
    let n = u5::new_unchecked;
    assert_eq!(str(piece("\"\""), &macros).ok(), Some(vec![]));
    // One character is wrapped into a bubble as well.
    assert_eq!(
        str(piece("\"a\""), &macros).ok(),
        Some(vec![AwaTism::Blow(2), AwaTism::Surround(n(1))])
    );
    assert_eq!(
        str(piece("\"aw\""), &macros).ok(),
        Some(vec![AwaTism::Blow(3), AwaTism::Blow(2), AwaTism::Surround(n(2))])
    );
    let long = format!("\"{}\"", "a".repeat(63));
    let code = str(piece(&long), &macros).ok().unwrap();
    assert_eq!(code.len(), 63 + 5);
    assert_eq!(code[31], AwaTism::Surround(n(31)));
    assert_eq!(code[32], AwaTism::Blow(2));
    assert_eq!(code[63], AwaTism::Surround(n(31)));
    assert_eq!(code[64], AwaTism::Merge);
    assert_eq!(code[65], AwaTism::Blow(2));
    assert_eq!(code[66], AwaTism::Surround(n(1)));
    assert_eq!(code[67], AwaTism::Merge);
    let complaint = |text: &str| match str(piece(text), &macros) {
        Err(Error::SyntaxError { msg, .. }) | Err(Error::ParseError { msg, .. }) => msg,
        _ => panic!("an error is due"),
    };
    assert_eq!(complaint("a\"b\""), Complaint::ExpectedDoubleQuote);
    assert_eq!(complaint("\"a\" b"), Complaint::ExtraContent);
    assert_eq!(complaint("\"a#\""), Complaint::InvalidAwaSCII);
}

#[test]
fn macro_for_another_file() {
    let macros = MacroTable::default();
    let path = inserted(piece(" <lib/io.awasm> "), &macros).ok().unwrap();
    assert_eq!(path.item, b"lib/io.awasm");
    assert_eq!(place(&path.span), (1, 2, 14));
    assert!(matches!(
        inserted(piece("lib"), &macros),
        Err(Error::SyntaxError { msg: Complaint::ExpectedLeftAngleBracket, .. })
    ));
}

#[test]
fn lines_are_assembled() {
    let macros = MacroTable::default();
    let file = String::from("main.awasm");
    let source = b"; counts down\n  blo 3 \n\n!chr 'a'\n\t; done\ntrm";
    let code = lines(&file, source, &macros, &none).ok().unwrap();
    assert_eq!(code, vec![AwaTism::Blow(3), AwaTism::Blow(2), AwaTism::Terminate]);
    assert_eq!(lines(&file, b"", &macros, &none).ok(), Some(vec![]));
    let program = load_program(&file, b"lbl 4\nnop\n", &macros, &none).ok().unwrap();
    assert_eq!(program.len(), 2);
    assert_eq!(program.labels()[4], Some(1));
    match lines(&file, b"nop\n  bla\nnop", &macros, &none) {
        Err(Error::UnknownIdentifier { span, identifier }) => {
            assert_eq!(identifier, b"bla");
            assert_eq!((span.file.as_str(), place(&span)), ("main.awasm", (2, 2, 5)));
        }
        _ => panic!("`bla` is no instruction"),
    }
    match lines(&file, b"!nope 1", &macros, &none) {
        Err(Error::UnknownIdentifier { identifier, .. }) => assert_eq!(identifier, b"!nope"),
        _ => panic!("`nope` is no macro"),
    }
}

#[test]
fn other_files_are_asked_for() {
    let macros = MacroTable::default();
    let file = String::from("main.awasm");
    let other = |path: Spanned<&[u8]>| -> Result<Vec<AwaTism>, Error> {
        assert_eq!(path.item, b"lib.awasm");
        Ok(vec![AwaTism::Pop, AwaTism::Merge])
    };
    let code = lines(&file, b"nop\n!include <lib.awasm>\ntrm", &macros, &other);
    assert_eq!(
        code.ok(),
        Some(vec![AwaTism::NoOp, AwaTism::Pop, AwaTism::Merge, AwaTism::Terminate])
    );
    let mut buffer = vec![AwaTism::NoOp];
    let asked = push_line(&mut buffer, piece("!include <a>"), &macros).ok().unwrap();
    assert_eq!(asked.map(|path| path.item), Some(&b"a"[..]));
    assert_eq!(buffer, vec![AwaTism::NoOp]);
    assert!(push_line(&mut buffer, piece(" dpl"), &macros).ok().unwrap().is_none());
    assert_eq!(buffer, vec![AwaTism::NoOp, AwaTism::Duplicate]);
}

#[test]
fn formats_go_by_extension() {
    assert_eq!(SourceFormat::from_extension("awa"), Some(SourceFormat::AwaTalk));
    assert_eq!(SourceFormat::from_extension("awasm"), Some(SourceFormat::AwaTism));
    assert_eq!(SourceFormat::from_extension("bin"), Some(SourceFormat::Binary));
    assert_eq!(SourceFormat::from_extension("AWA"), None);
    assert_eq!(SourceFormat::from_extension(""), None);
    assert_eq!(SourceFormat::from_extension("awas"), None);
}

#[test]
fn a_place_is_written_as_file_line_and_bytes() {
    let span = Span::new("dir/a.awasm".to_string(), 12, 0, 7);
    assert_eq!(span.text(), b"dir/a.awasm:12:0..7");
    assert_eq!(span.skip(3).text(), b"dir/a.awasm:12:3..7");
    assert_eq!(span.truncate(2).text(), b"dir/a.awasm:12:0..2");
    let odd = Span::new("\u{e9}".to_string(), 0, 5, 5);
    assert_eq!(odd.text(), "\u{e9}:0:5..5".as_bytes());
}

#[test]
fn other_files_stand_in_their_places() {
    let macros = MacroTable::default();
    let file = String::from("main.awasm");
    let other = |path: Spanned<&[u8]>| -> Result<Vec<AwaTism>, Error> {
        match path.item {
            b"a" => Ok(vec![AwaTism::Pop]),
            b"b" => Ok(vec![AwaTism::Merge, AwaTism::Count]),
            _ => Err(Error::IOError { span: path.span }),
        }
    };
    let code = lines(&file, b"!include <b>\nnop\n!include <a>\n!include <b>", &macros, &other);
    assert_eq!(
        code.ok(),
        Some(vec![
            AwaTism::Merge,
            AwaTism::Count,
            AwaTism::NoOp,
            AwaTism::Pop,
            AwaTism::Merge,
            AwaTism::Count
        ])
    );
    // The first file that cannot be had ends it, with the place of its path.
    match lines(&file, b"!include <a>\n !include <c>\nbla", &macros, &other) {
        Err(Error::IOError { span }) => assert_eq!(place(&span), (2, 11, 12)),
        _ => panic!("there is no file `c`"),
    }
    // A fault of the source behind a file that was had.
    match lines(&file, b"!include <a>\nbla\n!include <c>", &macros, &other) {
        Err(Error::UnknownIdentifier { identifier, .. }) => assert_eq!(identifier, b"bla"),
        _ => panic!("`bla` is no instruction"),
    }
    let program = load_program(&file, b"lbl 1\n!include <b>", &macros, &other).ok().unwrap();
    assert_eq!(program.len(), 3);
    assert_eq!(program.get(2), Some(&AwaTism::Count));
}

#[test]
fn what_is_no_text_is_an_error_of_the_encoding() {
    let macros = MacroTable::default();
    let at = |start: usize, end: usize| Span::new("test.awasm".to_string(), 1, start, end);
    let line = |bytes: &'static [u8]| Spanned::from_line("test.awasm".to_string(), 1, bytes);
    assert_eq!(
        line(b"\xff").parse(NumberKind::Signed),
        Err(Error::EncodingError { span: at(0, 1) })
    );
    assert_eq!(
        line(b"1\xc3").parse(NumberKind::Unsigned),
        Err(Error::EncodingError { span: at(0, 2) })
    );
    // Text in UTF-8 that is no number is no error of the encoding.
    assert_eq!(
        line("\u{e9}".as_bytes()).parse(NumberKind::Signed),
        Err(Error::ParseError { span: at(0, 2), msg: Complaint::Number(NumberError::InvalidDigit) })
    );
    assert_eq!(line(b"12").parse(NumberKind::Signed), Ok(12));
    // The name of an instruction, and its number.
    assert_eq!(awatism(line(b"n\xffp 1")), Err(Error::EncodingError { span: at(0, 3) }));
    assert_eq!(awatism(line(b"blo  \xfe ")), Err(Error::EncodingError { span: at(5, 6) }));
    assert_eq!(
        awatism(line("n\u{f6}p".as_bytes())),
        Err(Error::UnknownIdentifier { span: at(0, 4), identifier: "n\u{f6}p".as_bytes().to_vec() })
    );
    // The path of another file.
    assert_eq!(
        inserted(line(b"<li\xffb> "), &macros).err(),
        Some(Error::EncodingError { span: at(1, 5) })
    );
    // The name of a macro.
    let mut buffer = Vec::new();
    assert_eq!(
        push_line(&mut buffer, line(b"  !c\x80r 'a'"), &macros).err(),
        Some(Error::EncodingError { span: at(3, 6) })
    );
    assert_eq!(
        lines(&"test.awasm".to_string(), b"nop\nblo \xff\n", &macros, &none).err(),
        Some(Error::EncodingError { span: Span::new("test.awasm".to_string(), 2, 4, 5) })
    );
}

#[test]
fn errors_name_the_place_of_what_is_wrong() {
    let macros = MacroTable::default();
    let at = |start: usize, end: usize| Span::new("test.awasm".to_string(), 1, start, end);
    let line = |bytes: &'static [u8]| Spanned::from_line("test.awasm".to_string(), 1, bytes);
    let number = |kind| Complaint::Number(kind);
    assert_eq!(
        awatism(line(b"bla 1")),
        Err(Error::UnknownIdentifier { span: at(0, 3), identifier: b"bla".to_vec() })
    );
    assert_eq!(
        awatism(line(b"blo   300  ")),
        Err(Error::ParseError { span: at(6, 9), msg: number(NumberError::PosOverflow) })
    );
    assert_eq!(
        awatism(line(b"sbm 32")),
        Err(Error::ParseError { span: at(4, 6), msg: Complaint::OutOfBounds(5) })
    );
    assert_eq!(
        awatism(line(b"lbl")),
        Err(Error::ParseError { span: at(3, 3), msg: number(NumberError::Empty) })
    );
    assert_eq!(
        chr(line(b" x'a'"), &macros),
        Err(Error::SyntaxError { span: at(1, 2), msg: Complaint::ExpectedSingleQuote })
    );
    assert_eq!(
        chr(line(b"'a' x "), &macros),
        Err(Error::SyntaxError { span: at(3, 5), msg: Complaint::ExpectedSingleQuote })
    );
    assert_eq!(
        chr(line(b"''"), &macros),
        Err(Error::SyntaxError { span: at(1, 1), msg: Complaint::EmptyCharacter })
    );
    assert_eq!(
        chr(line(b"'a#'"), &macros),
        Err(Error::ParseError { span: at(2, 3), msg: Complaint::InvalidAwaSCII })
    );
    assert_eq!(
        str(line(b"\"ab#d\""), &macros),
        Err(Error::ParseError { span: at(3, 4), msg: Complaint::InvalidAwaSCII })
    );
    assert_eq!(
        str(line(b"\"a\" b"), &macros),
        Err(Error::SyntaxError { span: at(3, 5), msg: Complaint::ExtraContent })
    );
    assert_eq!(
        inserted(line(b"lib <a>"), &macros).err(),
        Some(Error::SyntaxError { span: at(0, 4), msg: Complaint::ExpectedLeftAngleBracket })
    );
    let path = inserted(line(b"  <lib/a.awasm> "), &macros).ok().unwrap();
    assert_eq!((path.item, path.span), (&b"lib/a.awasm"[..], at(3, 14)));
    let mut buffer = Vec::new();
    assert_eq!(
        push_line(&mut buffer, line(b" !nope 1"), &macros).err(),
        Some(Error::UnknownIdentifier { span: at(2, 6), identifier: b"!nope".to_vec() })
    );
    assert_eq!(
        push_line(&mut buffer, line(b" !chr  a"), &macros).err(),
        Some(Error::SyntaxError { span: at(7, 8), msg: Complaint::ExpectedSingleQuote })
    );
    assert_eq!(
        lines(&"test.awasm".to_string(), b"nop\n\n  srn 40\n", &macros, &none).err(),
        Some(Error::ParseError {
            span: Span::new("test.awasm".to_string(), 3, 6, 8),
            msg: Complaint::OutOfBounds(5)
        })
    );
}
