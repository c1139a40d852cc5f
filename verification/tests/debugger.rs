use rusty_awa::abyss::Abyss as Store;
use rusty_awa::assembly::parser::lines;
use rusty_awa::assembly::{Error as AssemblyError, MacroTable, Spanned};
use rusty_awa::awatism::AwaTism;
use rusty_awa::debugger::command::{parse_command, strip, Command, Refusal};
use rusty_awa::debugger::widgets::{
    AbyssDisplay, Direction, MirrorIO, ProgramWindow, Screen, Tab,
};
use rusty_awa::debugger::{Debugger, Error, Key, Mode, Reaction};
use rusty_awa::error::NumberError;
use rusty_awa::interpreter::Error as RuntimeError;
use rusty_awa::linked::Abyss;
use rusty_awa::program::Program;
use rusty_awa::text::{count_digits, parse_integer};
use rusty_awa::u5::u5;

fn program_of(source: &str) -> Program {
    let file = String::from("test.awasm");
    let macros = MacroTable::default();
    let none = |_path: Spanned<&[u8]>| -> Result<Vec<AwaTism>, AssemblyError> { Ok(Vec::new()) };
    match lines(&file, source.as_bytes(), &macros, &none) {
        Ok(code) => Program::from_vec(code),
        Err(_) => panic!("the source does not assemble"),
    }
}

fn shown(mirror: &MirrorIO) -> Vec<String> {
    mirror
        .lines
        .iter()
        .map(|line| String::from_utf8(line.clone()).unwrap())
        .collect()
}

fn abyss_of<A: Store>(debugger: &Debugger<A>) -> String {
    String::from_utf8(debugger.interpreter.abyss().render()).unwrap()
}

#[test]
fn white_space_is_stripped_as_the_standard_library_trims_it() {
    let mut spaces = Vec::new();
    let codes = (0..=0xFFFFu32).chain((0x10000..=0x10FFFFu32).step_by(997));
    for code in codes {
        let Some(character) = char::from_u32(code) else {
            continue;
        };
        let text = character.to_string();
        assert_eq!(strip(text.as_bytes()), text.trim().as_bytes());
        if character.is_whitespace() {
            spaces.push(character);
        }
    }
    assert_eq!(spaces.len(), 25);
    for &front in &spaces {
        for &back in &spaces {
            let text = format!("{front}{back} a{back}b\u{e9}{front}{back}{back}");
            assert_eq!(strip(text.as_bytes()), "a\u{a0}b\u{e9}".replace('\u{a0}', &back.to_string()).as_bytes());
            assert_eq!(strip(text.as_bytes()), text.trim().as_bytes());
        }
    }
    assert_eq!(strip(b""), b"");
    assert_eq!(strip(b" \t\r\n"), b"");
    assert_eq!(strip(b"\x0b12\x0c"), b"12");
    assert_eq!(strip("\u{3000}x y\u{2003}".as_bytes()), b"x y");
    // Bytes that only look like the start or the end of white space stay.
    assert_eq!(strip(b"\xe2\x80"), b"\xe2\x80");
    assert_eq!(strip(b"\xc2"), b"\xc2");
    assert_eq!(strip(b"\x80\x80 "), b"\x80\x80");
}

#[test]
fn integers_are_parsed_as_the_standard_library_parses_them() {
    let texts = [
        "", "+", "-", "0", "7", "+7", "-7", "007", "-0", "+-1", "1 ", " 1", "1_000", "12a", "a12",
        "255", "256", "-128", "-129", "127", "128", "65535", "65536", "18446744073709551615",
        "18446744073709551616", "9223372036854775807", "9223372036854775808",
        "-9223372036854775808", "-9223372036854775809", "99999999999999999999999999x",
        "-99999999999999999999999999x", "x99999999999999999999999999",
    ];
    let kind = |error: &std::num::ParseIntError| match error.kind() {
        std::num::IntErrorKind::Empty => NumberError::Empty,
        std::num::IntErrorKind::InvalidDigit => NumberError::InvalidDigit,
        std::num::IntErrorKind::PosOverflow => NumberError::PosOverflow,
        std::num::IntErrorKind::NegOverflow => NumberError::NegOverflow,
        _ => panic!("no other kind is known for these types"),
    };
    for text in texts {
        assert_eq!(
            parse_integer(text.as_bytes(), 0, u64::MAX as i128),
            text.parse::<u64>().map(|v| v as i128).map_err(|e| kind(&e)),
            "{text:?} as u64"
        );
        assert_eq!(
            parse_integer(text.as_bytes(), i64::MIN as i128, i64::MAX as i128),
            text.parse::<i64>().map(|v| v as i128).map_err(|e| kind(&e)),
            "{text:?} as i64"
        );
        assert_eq!(
            parse_integer(text.as_bytes(), 0, 255),
            text.parse::<u8>().map(|v| v as i128).map_err(|e| kind(&e)),
            "{text:?} as u8"
        );
        assert_eq!(
            parse_integer(text.as_bytes(), -128, 127),
            text.parse::<i8>().map(|v| v as i128).map_err(|e| kind(&e)),
            "{text:?} as i8"
        );
    }
}

#[test]
fn commands_are_parsed() {
    assert_eq!(parse_command(b""), Ok(Command::Step));
    assert_eq!(parse_command(b"s"), Ok(Command::Step));
    assert_eq!(parse_command(b"s 5"), Ok(Command::Steps(5)));
    assert_eq!(parse_command(b"s12"), Ok(Command::Steps(12)));
    assert_eq!(parse_command("s\u{a0} +3\t".as_bytes()), Ok(Command::Steps(3)));
    assert_eq!(parse_command(b"s 0"), Ok(Command::Steps(0)));
    assert_eq!(parse_command(b"s "), Err(Refusal::Number(NumberError::Empty)));
    assert_eq!(parse_command(b"sx"), Err(Refusal::Number(NumberError::InvalidDigit)));
    assert_eq!(parse_command(b"s -1"), Err(Refusal::Number(NumberError::InvalidDigit)));
    assert_eq!(parse_command(b"s 1 2"), Err(Refusal::Number(NumberError::InvalidDigit)));
    assert_eq!(
        parse_command(b"s 99999999999999999999999"),
        Err(Refusal::Number(NumberError::PosOverflow))
    );
    assert_eq!(parse_command(b"r"), Ok(Command::Run));
    assert_eq!(parse_command(b"r "), Err(Refusal::Unknown));
    assert_eq!(parse_command(b"r 3"), Err(Refusal::Unknown));
    assert_eq!(parse_command(b"b"), Ok(Command::Toggle));
    assert_eq!(parse_command(b"b 3"), Ok(Command::ToggleLine(3)));
    assert_eq!(parse_command(b"b 0"), Ok(Command::ToggleLine(0)));
    assert_eq!(parse_command(b"b +2"), Ok(Command::ToggleBy(2)));
    assert_eq!(parse_command(b"b-1"), Ok(Command::ToggleBy(-1)));
    assert_eq!(parse_command(b"b +"), Err(Refusal::Number(NumberError::InvalidDigit)));
    assert_eq!(parse_command(b"b "), Err(Refusal::Number(NumberError::Empty)));
    assert_eq!(
        parse_command(b"b -99999999999999999999999"),
        Err(Refusal::Number(NumberError::NegOverflow))
    );
    assert_eq!(parse_command(b"q"), Ok(Command::Quit));
    assert_eq!(parse_command(b"quit"), Err(Refusal::Unknown));
    assert_eq!(parse_command(b" s"), Err(Refusal::Unknown));
    assert_eq!(parse_command(b"x"), Err(Refusal::Unknown));
    assert_eq!(parse_command("\u{e9}".as_bytes()), Err(Refusal::Unknown));
}

#[test]
fn panels_follow_one_another() {
    assert_eq!(Tab::IO.next(), Tab::Abyss);
    assert_eq!(Tab::Abyss.next(), Tab::Diagnostics);
    assert_eq!(Tab::Diagnostics.next(), Tab::IO);
    for tab in [Tab::IO, Tab::Abyss, Tab::Diagnostics] {
        assert_eq!(tab.next().prev(), tab);
        assert_eq!(tab.prev().prev().prev(), tab);
        assert_eq!(tab.next().next(), tab.prev());
    }
}

#[test]
fn text_is_mirrored_line_by_line() {
    let mut mirror = MirrorIO::new();
    assert!(shown(&mirror).is_empty());
    mirror.scroll(Direction::Forward);
    assert_eq!(mirror.scroll, 0);
    mirror.push(b"ab");
    assert_eq!(shown(&mirror), ["ab"]);
    mirror.push(b"c\nd\n\ne");
    assert_eq!(shown(&mirror), ["abc", "d", "", "e"]);
    mirror.push(b"");
    assert_eq!(shown(&mirror), ["abc", "d", "", "e"]);
    mirror.scroll(Direction::Forward);
    mirror.scroll(Direction::Forward);
    assert_eq!(mirror.scroll, 2);
    mirror.scroll(Direction::Forward);
    mirror.scroll(Direction::Forward);
    assert_eq!(mirror.scroll, 3);
    mirror.scroll(Direction::Backward);
    assert_eq!(mirror.scroll, 2);
    mirror.push_line(b"f");
    assert_eq!(shown(&mirror), ["abc", "d", "", "ef", ""]);
    assert_eq!(mirror.scroll, 0);
    mirror.scroll(Direction::Backward);
    assert_eq!(mirror.scroll, 0);
    let mut other = MirrorIO::default();
    other.push_line(b"");
    assert_eq!(shown(&other), ["", ""]);
    other.push(b"\n");
    assert_eq!(shown(&other), ["", "", ""]);
}

#[test]
fn the_panel_of_the_program_follows_the_place() {
    assert_eq!(count_digits(0), 1);
    assert_eq!(count_digits(9), 1);
    assert_eq!(count_digits(10), 2);
    assert_eq!(count_digits(99), 2);
    assert_eq!(count_digits(100), 3);
    assert_eq!(count_digits(999_999), 6);
    assert_eq!(count_digits(1_000_000), 7);
    assert_eq!(count_digits(usize::MAX), usize::MAX.to_string().len());
    let program = Program::from_vec(vec![AwaTism::NoOp; 12]);
    let mut window = ProgramWindow::new(&program);
    assert_eq!(window.line_digits(), 2);
    assert_eq!(window.min_width(), 11);
    assert_eq!((window.pc(), window.first()), (0, 0));
    assert_eq!(window.program().len(), 12);
    window.set_pc(3);
    assert_eq!((window.pc(), window.first()), (3, 0));
    window.set_pc(9);
    assert_eq!((window.pc(), window.first()), (9, 4));
    for _ in 0..20 {
        window.scroll(Direction::Forward);
    }
    assert_eq!((window.pc(), window.first()), (9, 11));
    window.scroll(Direction::Backward);
    assert_eq!(window.first(), 10);
    let empty = Program::new();
    let mut window = ProgramWindow::new(&empty);
    assert_eq!(window.min_width(), 10);
    window.scroll(Direction::Forward);
    assert_eq!(window.first(), 0);
    let mut display = AbyssDisplay::new();
    display.scroll(Direction::Backward);
    assert_eq!(display.scroll, 0);
    display.scroll(Direction::Forward);
    display.scroll(Direction::Forward);
    assert_eq!(display.scroll, 2);
    display.scroll = u16::MAX;
    display.scroll(Direction::Forward);
    assert_eq!(display.scroll, u16::MAX);
    assert_eq!(AbyssDisplay::default().scroll, 0);
}

#[test]
fn the_screen_scrolls_the_panel_that_is_shown() {
    let program = Program::from_vec(vec![AwaTism::NoOp; 3]);
    let mut screen = Screen::new(&program, Tab::Abyss, 1);
    screen.io.push(b"a\nb\nc");
    screen.scroll(Direction::Forward);
    assert_eq!((screen.io.scroll, screen.abyss.scroll, screen.diagnostics.scroll), (0, 1, 0));
    screen.cycle(Direction::Backward);
    assert_eq!(screen.active_tab, Tab::IO);
    screen.scroll(Direction::Forward);
    assert_eq!((screen.io.scroll, screen.abyss.scroll, screen.diagnostics.scroll), (1, 1, 0));
    screen.cycle(Direction::Backward);
    assert_eq!(screen.active_tab, Tab::Diagnostics);
    screen.scroll(Direction::Forward);
    assert_eq!((screen.io.scroll, screen.abyss.scroll, screen.diagnostics.scroll), (1, 1, 0));
    screen.cycle(Direction::Forward);
    screen.cycle(Direction::Forward);
    assert_eq!(screen.active_tab, Tab::Abyss);
    assert_eq!(screen.scroll_size, 1);
}

#[test]
fn a_program_is_stepped_through() {
    let program = program_of("blo 1\nblo 2\n4dd\npr1\nred\nprn\nblo 7\npr1\ntrm\nnop");
    let mut debugger = Debugger::new(&program, Abyss::new());
    assert_eq!(debugger.mode, Mode::Command);
    assert_eq!(debugger.cursor.pc, Some(0));
    assert_eq!(debugger.execute(b"s"), Ok(()));
    assert_eq!(debugger.cursor.pc, Some(1));
    assert_eq!(abyss_of(&debugger), "1\n");
    assert_eq!(debugger.execute(b""), Ok(()));
    assert_eq!(abyss_of(&debugger), "2\n1\n");
    assert_eq!((debugger.view.program.pc(), debugger.view.program.first()), (2, 0));
    // Two steps more: the sum is made and printed.
    assert_eq!(debugger.execute(b"s 2"), Ok(()));
    assert_eq!(debugger.cursor.pc, Some(4));
    assert_eq!(shown(&debugger.view.io), ["3"]);
    assert_eq!(debugger.view.active_tab, Tab::IO);
    // The program is about to read: the next step only asks for the input.
    assert_eq!(debugger.execute(b"r"), Ok(()));
    assert_eq!(debugger.mode, Mode::Input);
    assert_eq!(debugger.cursor.pc, Some(4));
    assert_eq!(debugger.handle_event(Key::Other, b"a"), Ok(Reaction::Edit));
    assert_eq!(debugger.handle_event(Key::Enter, b"awa"), Ok(Reaction::Reset));
    assert_eq!(debugger.mode, Mode::Command);
    assert_eq!(debugger.cursor.pc, Some(5));
    assert_eq!(shown(&debugger.view.io), ["3awa", ""]);
    assert_eq!(abyss_of(&debugger), "[2, 3, 2]\n");
    // A breakpoint at the line of the second `pr1`, counted from one.
    assert_eq!(debugger.execute(b"b 8"), Ok(()));
    assert!(debugger.breakpoints.contains(&7));
    assert_eq!(debugger.execute(b"r"), Ok(()));
    assert_eq!(debugger.cursor.pc, Some(7));
    assert_eq!(debugger.mode, Mode::Command);
    assert_eq!(shown(&debugger.view.io), ["3awa", "awa"]);
    assert_eq!((debugger.view.program.pc(), debugger.view.program.first()), (7, 2));
    assert_eq!(debugger.execute(b"r"), Ok(()));
    assert_eq!(debugger.cursor.pc, None);
    assert_eq!(debugger.mode, Mode::Done);
    assert_eq!(shown(&debugger.view.io), ["3awa", "awa7"]);
    assert_eq!(debugger.handle_event(Key::Other, b""), Ok(Reaction::Keep));
    assert_eq!(debugger.handle_event(Key::Enter, b""), Ok(Reaction::Keep));
    assert_eq!(debugger.mode, Mode::Close);
}

#[test]
fn breakpoints_are_set_and_lifted() {
    let program = program_of("nop\nnop\nnop\nnop\njmp 0");
    let mut debugger = Debugger::new(&program, Abyss::new());
    assert_eq!(debugger.execute(b"b"), Ok(()));
    assert_eq!(debugger.execute(b"b +2"), Ok(()));
    assert_eq!(debugger.execute(b"b 5"), Ok(()));
    let mut set: Vec<usize> = debugger.breakpoints.iter().copied().collect();
    set.sort();
    assert_eq!(set, [0, 2, 4]);
    assert_eq!(debugger.execute(b"b 1"), Ok(()));
    assert_eq!(debugger.execute(b"b +4"), Ok(()));
    let set: Vec<usize> = debugger.breakpoints.iter().copied().collect();
    assert_eq!(set, [2]);
    assert_eq!(debugger.execute(b"b 0"), Err(Error::InvalidBreakpoint));
    assert_eq!(debugger.execute(b"b 6"), Err(Error::InvalidBreakpoint));
    assert_eq!(debugger.execute(b"b -1"), Err(Error::InvalidBreakpoint));
    assert_eq!(debugger.execute(b"b +5"), Err(Error::InvalidBreakpoint));
    assert_eq!(debugger.execute(b"b x"), Err(Error::ParseError(NumberError::InvalidDigit)));
    assert_eq!(debugger.execute(b"w"), Err(Error::UnknownCommand));
    // Ten steps at most, and fewer where a breakpoint is met.
    assert_eq!(debugger.execute(b"s 10"), Ok(()));
    assert_eq!(debugger.cursor.pc, Some(2));
    assert_eq!(debugger.execute(b"s 1"), Ok(()));
    assert_eq!(debugger.cursor.pc, Some(3));
    assert_eq!(debugger.execute(b"b -1"), Ok(()));
    assert!(debugger.breakpoints.is_empty());
    assert_eq!(debugger.execute(b"s 0"), Ok(()));
    assert_eq!(debugger.cursor.pc, Some(3));
    // The label is missing: the jump fails, and the place stays.
    assert_eq!(debugger.execute(b"s 10"), Err(Error::RuntimeError(RuntimeError::UnknownLabel(u5::zero()))));
    assert_eq!(debugger.cursor.pc, Some(4));
    assert_eq!(debugger.execute(b"q"), Ok(()));
    assert_eq!(debugger.mode, Mode::Close);
}

#[test]
fn keys_go_to_the_panels_and_to_the_line() {
    let program = program_of("pop\nr3d\npr1");
    let mut debugger = Debugger::new(&program, Abyss::new());
    assert_eq!(debugger.handle_event(Key::Tab, b"s"), Ok(Reaction::Keep));
    assert_eq!(debugger.view.active_tab, Tab::Abyss);
    assert_eq!(debugger.handle_event(Key::Control(b'j'), b"s"), Ok(Reaction::Keep));
    assert_eq!(debugger.view.abyss.scroll, 1);
    assert_eq!(debugger.handle_event(Key::Control(b'k'), b"s"), Ok(Reaction::Keep));
    assert_eq!(debugger.view.abyss.scroll, 0);
    assert_eq!(debugger.handle_event(Key::BackTab, b"s"), Ok(Reaction::Keep));
    assert_eq!(debugger.handle_event(Key::BackTab, b"s"), Ok(Reaction::Keep));
    assert_eq!(debugger.view.active_tab, Tab::Diagnostics);
    assert_eq!(debugger.handle_event(Key::Control(b'l'), b"s"), Ok(Reaction::Keep));
    assert_eq!(debugger.view.program.first(), 1);
    assert_eq!(debugger.handle_event(Key::Control(b'h'), b"s"), Ok(Reaction::Keep));
    assert_eq!(debugger.view.program.first(), 0);
    assert_eq!(debugger.handle_event(Key::Control(b'x'), b"s"), Ok(Reaction::Edit));
    assert_eq!(debugger.handle_event(Key::Other, b"s"), Ok(Reaction::Edit));
    // A command that fails is handed back, to be reported.
    let refused = Error::RuntimeError(RuntimeError::NotEnoughBubbles(u5::one()));
    assert_eq!(debugger.handle_event(Key::Enter, b"s"), Ok(Reaction::Refused(refused)));
    assert_eq!(debugger.cursor.pc, Some(0));
    debugger.report(b"expected the abyss to have at least 1 bubbles");
    assert_eq!(
        shown(&debugger.view.diagnostics),
        ["expected the abyss to have at least 1 bubbles", ""]
    );
    assert_eq!(debugger.view.active_tab, Tab::Diagnostics);
    assert_eq!(
        debugger.handle_event(Key::Enter, b"nonsense"),
        Ok(Reaction::Refused(Error::UnknownCommand))
    );
    assert_eq!(debugger.handle_event(Key::Control(b'c'), b""), Ok(Reaction::Keep));
    assert_eq!(debugger.mode, Mode::Close);
    // Input that is no number ends the run with the error.
    let program = program_of("r3d\npr1");
    let mut debugger = Debugger::new(&program, Abyss::new());
    assert_eq!(debugger.handle_event(Key::Enter, b""), Ok(Reaction::Reset));
    assert_eq!(debugger.mode, Mode::Input);
    assert_eq!(
        debugger.handle_event(Key::Enter, b"seven"),
        Err(Error::RuntimeError(RuntimeError::NoNumber))
    );
    assert_eq!(shown(&debugger.view.io), ["seven", ""]);
    assert_eq!(debugger.handle_event(Key::Enter, b"12"), Ok(Reaction::Reset));
    assert_eq!(debugger.handle_event(Key::Enter, b""), Ok(Reaction::Reset));
    assert_eq!(shown(&debugger.view.io), ["seven", "12", "12"]);
    assert_eq!(debugger.handle_event(Key::Enter, b""), Ok(Reaction::Reset));
    assert_eq!(debugger.mode, Mode::Done);
}
