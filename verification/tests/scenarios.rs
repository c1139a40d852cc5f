use rusty_awa::abyss::Abyss as Store;
use rusty_awa::assembly::parser::lines;
use rusty_awa::assembly::{Error as AssemblyError, MacroTable, Spanned};
use rusty_awa::awatism::AwaTism;
use rusty_awa::buffered::Buffered;
use rusty_awa::error::Error as CoreError;
use rusty_awa::interpreter::{Error, Interpreter};
use rusty_awa::iter::Cursor;
use rusty_awa::linked::Abyss;
use rusty_awa::program::Program;
use rusty_awa::u5::u5;

fn assemble(source: &str) -> Program {
    let file = String::from("test.awasm");
    let macros = MacroTable::default();
    let none = |_path: Spanned<&[u8]>| -> Result<Vec<AwaTism>, AssemblyError> { Ok(Vec::new()) };
    match lines(&file, source.as_bytes(), &macros, &none) {
        Ok(code) => Program::from_vec(code),
        Err(_) => panic!("the source does not assemble"),
    }
}

/// Runs a program on the store `abyss`: each `red` or `r3d` takes the next of
/// `input`; returns what was printed, how the run ended, and the store.
fn run_on<A: Store>(abyss: A, program: &Program, input: &[&str]) -> (String, Result<(), Error>, A) {
    let mut interpreter = Interpreter::new(abyss);
    let mut cursor = Cursor::new(program);
    let mut lines = input.iter();
    let mut printed = Vec::new();
    let mut steps = 0;
    let ended = loop {
        steps += 1;
        assert!(steps < 100_000);
        let line = match cursor.current() {
            Some((_, AwaTism::Read)) | Some((_, AwaTism::ReadNum)) => {
                lines.next().copied().unwrap_or("")
            }
            _ => "",
        };
        match cursor.next(&mut interpreter, line.as_bytes()) {
            Ok(true) => printed.extend(interpreter.take_output()),
            Ok(false) => break Ok(()),
            Err(e) => {
                printed.extend(interpreter.take_output());
                break Err(e);
            }
        }
    };
    let text = String::from_utf8(printed).unwrap();
    (text, ended, into_abyss(interpreter))
}

fn into_abyss<A: Store>(interpreter: Interpreter<A>) -> A {
    interpreter.into_abyss()
}

fn run(source: &str, input: &[&str]) -> (String, Result<(), Error>) {
    let program = assemble(source);
    let (text, ended, _) = run_on(Abyss::new(), &program, input);
    let (buffered_text, buffered_ended, _) =
        run_on(Buffered::from_inner(Abyss::new()), &program, input);
    assert_eq!(text, buffered_text);
    assert_eq!(ended, buffered_ended);
    (text, ended)
}

fn chain(source: &str) -> String {
    let program = assemble(source);
    let (_, ended, abyss) = run_on(Abyss::new(), &program, &[]);
    assert_eq!(ended, Ok(()));
    let (_, _, buffered) = run_on(Buffered::from_inner(Abyss::new()), &program, &[]);
    let text = String::from_utf8(abyss.render()).unwrap();
    assert_eq!(text, String::from_utf8(buffered.render()).unwrap());
    text
}

#[test]
fn str_macro_prints_its_text() {
    assert_eq!(run("!str \"A\"\nprn\ntrm", &[]), ("A".to_string(), Ok(())));
    assert_eq!(run("!str \"Hello, World!\"\nprn\ntrm", &[]).0, "Hello, World!");
}

#[test]
fn str_macro_wraps_long_texts_in_chunks() {
    let text = "hello world, this is a longer stretch of words for the nested bubbles";
    assert!(text.len() > 62);
    let source = format!("!str \"{}\"\nprn\ntrm", text);
    assert_eq!(run(&source, &[]), (text.to_string(), Ok(())));
    let exact = "0123456789012345678901234567890";
    assert_eq!(exact.len(), 31);
    let source = format!("!str \"{}\"\ncnt\npr1\nprn", exact);
    assert_eq!(run(&source, &[]).0, format!("31{}", exact));
}

#[test]
fn str_macro_makes_one_bubble_of_any_text() {
    // One character: a bubble that holds one bubble, not a bare number.
    assert_eq!(run("!str \"a\"\ncnt\npr1\nprn", &[]).0, "1a");
    assert_eq!(run("!chr 'a'\ncnt\npr1\npr1", &[]).0, "02");
    let longer = "01234567890123456789012345678901";
    assert_eq!(longer.len(), 32);
    let source = format!("!str \"{}\"\ncnt\npr1\nprn", longer);
    assert_eq!(run(&source, &[]).0, format!("32{}", longer));
    // No character: nothing is blown.
    assert_eq!(run("!str \"\"\ncnt", &[]).1, Err(Error::NotEnoughBubbles(u5::one())));
}

#[test]
fn chr_macro_blows_one_character() {
    assert_eq!(run("!chr 'w'\npr1", &[]).0, "3");
    assert_eq!(run("!chr '\\n'\npr1", &[]).0, "63");
}

#[test]
fn arithmetic_adds() {
    assert_eq!(run("blo 2\nblo 3\n4dd\npr1\ntrm", &[]), ("5".to_string(), Ok(())));
}

#[test]
fn arithmetic_takes_the_top_bubble_first() {
    assert_eq!(run("blo 2\nblo 5\nsub\npr1", &[]).0, "3");
    assert_eq!(run("blo 5\nblo 2\nsub\npr1", &[]).0, "-3");
    assert_eq!(run("blo 6\nblo 7\nmul\npr1", &[]).0, "42");
}

#[test]
fn arithmetic_wraps_round() {
    let mut abyss = Abyss::new();
    abyss.blow(isize::MAX);
    abyss.blow(1);
    let mut interpreter = Interpreter::new(abyss);
    assert!(interpreter.next(AwaTism::Add, b"").is_ok());
    assert!(interpreter.next(AwaTism::PrintNum, b"").is_ok());
    assert_eq!(
        String::from_utf8(interpreter.take_output()).unwrap(),
        isize::MIN.to_string()
    );
}

#[test]
fn duplicate_then_pop() {
    assert_eq!(run("blo 7\ndpl\npop\npr1\ntrm", &[]), ("7".to_string(), Ok(())));
}

#[test]
fn surround_count_print() {
    assert_eq!(
        run("blo 1\nblo 2\nblo 3\nsrn 3\ncnt\npr1\ntrm", &[]),
        ("3".to_string(), Ok(()))
    );
}

#[test]
fn conditional_skip_when_the_test_fails() {
    // The top bubble, 2, is not less than the one below it: `trm` is skipped.
    assert_eq!(
        run("blo 1\nblo 2\nlss\ntrm\nblo 9\npr1\ntrm", &[]),
        ("9".to_string(), Ok(()))
    );
}

#[test]
fn conditional_goes_on_when_the_test_holds() {
    // The top bubble, 2, is greater than the one below it: nothing is skipped.
    assert_eq!(
        run("blo 1\nblo 2\ngr8\nblo 9\npr1\ntrm", &[]),
        ("9".to_string(), Ok(()))
    );
    // The top bubble, 1, is not greater: `blo 9` is skipped, and the
    // bubbles that were compared are still there.
    assert_eq!(
        run("blo 2\nblo 1\ngr8\nblo 9\npr1\npr1\npr1", &[]),
        (
            "12".to_string(),
            Err(Error::NotEnoughBubbles(u5::one()))
        )
    );
}

#[test]
fn comparison_of_a_row_fails() {
    assert_eq!(run("blo 1\nblo 1\nsrn 1\neql\nblo 5\npr1", &[]).0, "1");
    assert_eq!(run("blo 1\nblo 1\neql\nblo 5\npr1", &[]).0, "5");
}

#[test]
fn divide_gives_quotient_then_remainder() {
    // The top bubble is divided by the one below it.
    assert_eq!(run("blo 7\nblo 2\ndiv\npr1\ntrm", &[]), ("0 2".to_string(), Ok(())));
    assert_eq!(run("blo 2\nblo 7\ndiv\npr1\ntrm", &[]), ("3 1".to_string(), Ok(())));
    assert_eq!(run("blo 2\nblo -7\ndiv\npr1\ntrm", &[]).0, "-3 -1");
    assert_eq!(chain("blo 2\nblo 7\ndiv"), "[3, 1]\n");
}

#[test]
fn divide_by_zero_is_an_error_and_changes_nothing() {
    let program = assemble("blo 0\nblo 7\ndiv");
    let (_, ended, abyss) = run_on(Abyss::new(), &program, &[]);
    assert_eq!(ended, Err(Error::Arithmetic));
    assert_eq!(abyss.render(), b"7\n0\n");
    let program = assemble("blo 1\nblo 0\nblo 4\nsrn 3\nblo 8\ndiv");
    let (_, ended, abyss) = run_on(Abyss::new(), &program, &[]);
    assert_eq!(ended, Err(Error::Arithmetic));
    assert_eq!(abyss.render(), b"8\n[4, 0, 1]\n");
}

#[test]
fn divide_spreads_over_rows() {
    assert_eq!(chain("blo 2\nblo 3\nsrn 2\nblo 7\ndiv"), "[[2, 1], [3, 1]]\n");
    assert_eq!(chain("blo 7\nblo 9\nblo 8\nsrn 2\ndiv"), "[[1, 1], [1, 2]]\n");
}

#[test]
fn comparison_skip() {
    assert_eq!(chain("blo 5\nblo 5\neql\nblo 1\nblo 2"), "2\n1\n5\n5\n");
    assert_eq!(chain("blo 5\nblo 6\neql\nblo 1\nblo 2"), "2\n6\n5\n");
}

#[test]
fn splice_pop_and_deep_pop() {
    assert_eq!(chain("blo 1\nblo 2\nblo 3\nsrn 3\npop"), chain("blo 1\nblo 2\nblo 3"));
    assert_eq!(chain("blo 1\nblo 2\nblo 3\nsrn 3\np0p"), "");
    assert_eq!(chain("blo 9\nblo 1\nblo 2\nsrn 2\np0p"), "9\n");
}

#[test]
fn merge_then_count() {
    assert_eq!(chain("blo 1\nblo 2\nmrg\ncnt"), "2\n[2, 1]\n");
    assert_eq!(chain("blo 1\nblo 2\nsrn 2\nblo 3\nmrg\ncnt"), "3\n[3, 2, 1]\n");
    assert_eq!(chain("blo 3\nblo 1\nblo 2\nsrn 2\nmrg\ncnt"), "3\n[2, 1, 3]\n");
    assert_eq!(
        chain("blo 3\nblo 4\nsrn 2\nblo 1\nblo 2\nsrn 2\nmrg\ncnt"),
        "4\n[2, 1, 4, 3]\n"
    );
}

#[test]
fn submerge_moves_the_top_down() {
    assert_eq!(chain("blo 1\nblo 2\nblo 3\nblo 4\nsbm 1"), "3\n4\n2\n1\n");
    assert_eq!(chain("blo 1\nblo 2\nblo 3\nblo 4\nsbm 2"), "3\n2\n4\n1\n");
    assert_eq!(chain("blo 1\nblo 2\nblo 3\nblo 4\nsbm 0"), "3\n2\n1\n4\n");
    assert_eq!(chain("blo 1\nblo 2\nblo 3\nblo 4\nsbm 9"), "3\n2\n1\n4\n");
    assert_eq!(chain("blo 1\nsbm 3"), "1\n");
}

#[test]
fn surround_of_nothing_does_nothing() {
    assert_eq!(chain("blo 1\nsrn 0"), "1\n");
    assert_eq!(chain("srn 0"), "");
}

#[test]
fn duplicate_copies_deeply() {
    assert_eq!(
        chain("blo 1\nblo 2\nsrn 2\nblo 3\nsrn 2\ndpl"),
        "[3, [2, 1]]\n[3, [2, 1]]\n"
    );
    // What is done to the copy leaves the copied bubble as it was.
    assert_eq!(
        chain("blo 1\nblo 2\nsrn 2\nblo 3\nsrn 2\ndpl\nblo 10\n4dd"),
        "[13, [12, 11]]\n[3, [2, 1]]\n"
    );
    assert_eq!(chain("blo 1\nblo 2\nsrn 2\ndpl\npop\np0p"), "1\n[2, 1]\n");
}

#[test]
fn rows_combine_place_by_place() {
    assert_eq!(
        chain("blo 1\nblo 2\nblo 3\nsrn 3\nblo 10\nblo 20\nsrn 2\n4dd"),
        "[23, 12]\n"
    );
    // A row is as long as the shorter of the two that it comes from.
    assert_eq!(
        chain("blo 1\nblo 2\nsrn 2\nblo 5\nsrn 1\nblo 10\nblo 20\nsrn 1\nsrn 2\nsub"),
        "[[15]]\n[2, 1]\n"
    );
    assert_eq!(
        chain("blo 3\nblo 2\nblo 1\nsrn 2\nsrn 2\nblo 30\nblo 20\nsrn 2\nblo 10\nsrn 2\nsub"),
        "[[9, 8], [17, 27]]\n"
    );
}

#[test]
fn not_enough_bubbles() {
    assert_eq!(run("pop", &[]).1, Err(Error::NotEnoughBubbles(u5::one())));
    assert_eq!(run("p0p", &[]).1, Err(Error::NotEnoughBubbles(u5::one())));
    assert_eq!(run("dpl", &[]).1, Err(Error::NotEnoughBubbles(u5::one())));
    assert_eq!(run("cnt", &[]).1, Err(Error::NotEnoughBubbles(u5::one())));
    assert_eq!(run("prn", &[]).1, Err(Error::NotEnoughBubbles(u5::one())));
    assert_eq!(run("pr1", &[]).1, Err(Error::NotEnoughBubbles(u5::one())));
    assert_eq!(run("blo 1\nmrg", &[]).1, Err(Error::NotEnoughBubbles(u5::two())));
    assert_eq!(run("blo 1\n4dd", &[]).1, Err(Error::NotEnoughBubbles(u5::two())));
    assert_eq!(run("blo 1\ndiv", &[]).1, Err(Error::NotEnoughBubbles(u5::two())));
    assert_eq!(run("blo 1\neql", &[]).1, Err(Error::NotEnoughBubbles(u5::two())));
    assert_eq!(
        run("sbm 4", &[]).1,
        Err(Error::NotEnoughBubbles(u5::new_unchecked(4)))
    );
    assert_eq!(
        run("blo 1\nblo 1\nsrn 3", &[]).1,
        Err(Error::NotEnoughBubbles(u5::new_unchecked(3)))
    );
}

#[test]
fn print_needs_awascii_codes() {
    assert_eq!(
        run("blo 64\nprn", &[]),
        (String::new(), Err(Error::CoreError(CoreError::OutOfBounds(6))))
    );
    assert_eq!(
        run("blo -1\nprn", &[]).1,
        Err(Error::CoreError(CoreError::OutOfBounds(6)))
    );
    let mut abyss = Abyss::new();
    abyss.blow(300);
    let mut interpreter = Interpreter::new(abyss);
    assert_eq!(
        interpreter.next(AwaTism::Print, b""),
        Err(Error::CoreError(CoreError::OutOfBounds(6)))
    );
    // The bubble that could not be printed stays.
    assert_eq!(interpreter.abyss().render(), b"300\n");
    assert_eq!(run("blo 0\nblo 63\nblo 1\nsrn 3\nprn", &[]).0, "W\nA");
}

#[test]
fn jumps_and_labels() {
    let source = "blo 3\nlbl 1\nblo 1\nsub\ndpl\nblo 0\nlss\njmp 1\nblo 63\nprn";
    // Counts 3 down to 0: the jump is skipped once 0 is not less than the count.
    assert_eq!(run(source, &[]).0, "\n");
    assert_eq!(
        run("jmp 7", &[]).1,
        Err(Error::UnknownLabel(u5::new_unchecked(7)))
    );
    let (text, ended) = run("jmp 2\nblo 1\npr1\nlbl 2\nblo 2\npr1", &[]);
    assert_eq!((text.as_str(), ended), ("2", Ok(())));
}

#[test]
fn read_takes_a_line() {
    assert_eq!(run("red\nprn", &["awa\n"]).0, "awa\n");
    assert_eq!(run("red\ncnt\npr1", &["aXwQa"]).0, "3");
    // A line without any AwaSCII character is the number zero.
    assert_eq!(run("red\npr1", &["#%"]).0, "0");
    // At the end of the input nothing is put on the chain.
    assert_eq!(
        run("red\npr1", &[""]),
        (String::new(), Err(Error::NotEnoughBubbles(u5::one())))
    );
}

#[test]
fn read_number_takes_the_leading_digits() {
    assert_eq!(run("r3d\npr1", &["42\n"]).0, "42");
    assert_eq!(run("r3d\npr1", &["007x9"]).0, "7");
    assert_eq!(run("r3d\npr1", &["x9"]).1, Err(Error::NoNumber));
    assert_eq!(run("r3d\npr1", &[""]).1, Err(Error::NoNumber));
    assert_eq!(run("r3d\npr1", &["-5"]).1, Err(Error::NoNumber));
}

#[test]
fn terminate_ends_the_run() {
    assert_eq!(run("blo 1\ntrm\npr1", &[]), (String::new(), Ok(())));
    assert_eq!(run("nop\nblo 1\npr1", &[]).0, "1");
}
