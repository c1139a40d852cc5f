use rusty_awa::awatalk::{load_awatalk, render_awatalk, ParseError, StringMatcher};
use rusty_awa::awatism::AwaTism;
use rusty_awa::bits::{BitError, BitReader, BitWriter};
use rusty_awa::error::{Error, NumberError};
use rusty_awa::program::Program;
use rusty_awa::u5::u5;

fn every_instruction() -> Vec<AwaTism> {
    let mut all = vec![
        AwaTism::NoOp,
        AwaTism::Print,
        AwaTism::PrintNum,
        AwaTism::Read,
        AwaTism::ReadNum,
        AwaTism::Terminate,
        AwaTism::Pop,
        AwaTism::Duplicate,
        AwaTism::Merge,
        AwaTism::Add,
        AwaTism::Subtract,
        AwaTism::Multiply,
        AwaTism::Divide,
        AwaTism::Count,
        AwaTism::EqualTo,
        AwaTism::LessThan,
        AwaTism::GreaterThan,
        AwaTism::DoublePop,
    ];
    for v in i8::MIN..=i8::MAX {
        all.push(AwaTism::Blow(v));
    }
    for v in 0..32 {
        let n = u5::new_unchecked(v);
        all.push(AwaTism::Submerge(n));
        all.push(AwaTism::Surround(n));
        all.push(AwaTism::Label(n));
        all.push(AwaTism::Jump(n));
    }
    all
}

#[test]
fn every_instruction_is_read_as_it_was_written() {
    for awatism in every_instruction() {
        let mut writer = BitWriter::new();
        awatism.write(&mut writer);
        let (bytes, length) = writer.finish();
        assert!(length == 5 || length == 10 || length == 13);
        assert_eq!(bytes.len(), (length + 7) / 8);
        let mut reader = BitReader::new(&bytes);
        assert_eq!(AwaTism::read(&mut reader), Ok(awatism));
        assert_eq!(reader.pos(), length);
        let program = Program::from_bitbuffer_with_length(&bytes, length).unwrap();
        assert_eq!(program.iter(), &[awatism]);
    }
}

#[test]
fn zero_bits_at_the_end_are_padding() {
    for awatism in every_instruction() {
        let mut writer = BitWriter::new();
        awatism.write(&mut writer);
        let (bytes, length) = writer.finish();
        // The instruction is read again, be it a `nop`, and nothing else:
        // the zero bits that fill the last byte are padding.
        let program = Program::from_bitbuffer(&bytes).unwrap();
        assert_eq!(program.iter(), &[awatism]);
        if let AwaTism::Label(label) = awatism {
            assert_eq!(program.labels()[label.get() as usize], Some(1));
        }
        assert!(bytes.len() * 8 - length < 8);
    }
    // A `nop` at the end counts where it leaves a byte or more of zero bits.
    let code = vec![AwaTism::NoOp, AwaTism::NoOp, AwaTism::Pop, AwaTism::NoOp];
    let (bytes, length) = Program::from_vec(code.clone()).to_bitbuffer();
    assert_eq!(bytes.len() * 8 - length, 4);
    assert_eq!(Program::from_bitbuffer(&bytes).unwrap().iter(), code.as_slice());
    // Behind three instructions of five bits it cannot be told from padding.
    let code = vec![AwaTism::Pop, AwaTism::Merge, AwaTism::NoOp];
    let (bytes, length) = Program::from_vec(code.clone()).to_bitbuffer();
    assert_eq!(bytes.len() * 8 - length, 1);
    assert_eq!(Program::from_bitbuffer(&bytes).unwrap().iter(), &code[..2]);
    assert_eq!(
        Program::from_bitbuffer_with_length(&bytes, length).unwrap().iter(),
        code.as_slice()
    );
    // Whole bytes of zero bits are no padding: they spell `nop`s.
    assert_eq!(Program::from_bitbuffer(&[0]).unwrap().iter(), &[AwaTism::NoOp]);
    assert_eq!(Program::from_bitbuffer(&[0, 0, 0, 0]).unwrap().iter(), &[AwaTism::NoOp; 5]);
    assert_eq!(
        Program::from_bitbuffer(&[0b0011_1000, 0]).unwrap().iter(),
        &[AwaTism::Pop, AwaTism::NoOp]
    );
}

#[test]
fn bits_are_laid_out_highest_first() {
    let mut writer = BitWriter::new();
    AwaTism::Blow(-2).write(&mut writer);
    AwaTism::Terminate.write(&mut writer);
    let (bytes, length) = writer.finish();
    assert_eq!(length, 18);
    // 00101 11111110 11111, and six zero bits.
    assert_eq!(bytes, vec![0b0010_1111, 0b1111_0111, 0b1100_0000]);
    let mut writer = BitWriter::new();
    AwaTism::Surround(u5::new_unchecked(3)).write(&mut writer);
    assert_eq!(writer.bit_len(), 10);
    assert_eq!(writer.byte_len(), 2);
    assert_eq!(writer.finish().0, vec![0b0100_1000, 0b1100_0000]);
}

#[test]
fn bits_are_read_as_numbers() {
    let bytes = [0b1011_0101u8, 0b0110_1010];
    let mut reader = BitReader::new(&bytes);
    assert_eq!(reader.bits_left(), 16);
    assert_eq!(reader.read_int(3), Ok(0b101));
    assert_eq!(reader.read_int(0), Ok(0));
    assert_eq!(reader.read_int(7), Ok(0b1010101));
    assert_eq!(reader.pos(), 10);
    assert_eq!(
        reader.read_int(7),
        Err(BitError::NotEnoughData { requested: 7, bits_left: 6 })
    );
    assert_eq!(reader.pos(), 10);
    assert_eq!(reader.read_int(6), Ok(0b101010));
    let mut reader = BitReader::new(&bytes);
    assert_eq!(reader.read_int(16), Ok(0b1011_0101_0110_1010));
}

#[test]
fn writer_writes_the_lowest_bits_of_a_number() {
    let mut writer = BitWriter::new();
    writer.write_int(0b1_0110, 3);
    writer.write_bit(true);
    writer.write_int(0xffff, 0);
    writer.write_int(0b1100_0011_1010_0101, 16);
    let (bytes, length) = writer.finish();
    assert_eq!(length, 20);
    assert_eq!(bytes, vec![0b1101_1100, 0b0011_1010, 0b0101_0000]);
}

#[test]
fn decoding_stops_at_what_is_no_instruction() {
    // 10101 is the kind of no instruction.
    assert_eq!(
        Program::from_bitbuffer(&[0b1010_1000]).err(),
        Some(BitError::UnmatchedDiscriminant { discriminant: 0x15 })
    );
    assert_eq!(
        Program::from_bitbuffer_with_length(&[0b1010_1000], 5).err(),
        Some(BitError::UnmatchedDiscriminant { discriminant: 0x15 })
    );
    // `blo` without all of its number: what is left is not zero.
    assert_eq!(
        Program::from_bitbuffer(&[0b0010_1001]).err(),
        Some(BitError::NotEnoughData { requested: 8, bits_left: 3 })
    );
    // `blo` without all of its number: the bits of its kind are no padding.
    assert_eq!(
        Program::from_bitbuffer(&[0b0010_1000]).err(),
        Some(BitError::NotEnoughData { requested: 8, bits_left: 3 })
    );
    // `pop`, and behind it the first bits of a `blo`.
    assert_eq!(
        Program::from_bitbuffer(&[0b0011_1001, 0b0100_0000]).err(),
        Some(BitError::NotEnoughData { requested: 8, bits_left: 6 })
    );
    assert_eq!(
        Program::from_bitbuffer_with_length(&[0b0010_1000], 8).err(),
        Some(BitError::NotEnoughData { requested: 8, bits_left: 3 })
    );
    // Bits that are not zero where no instruction fits any more.
    assert_eq!(
        Program::from_bitbuffer(&[0b0000_0001]).err(),
        Some(BitError::NotEnoughData { requested: 5, bits_left: 3 })
    );
    assert_eq!(Program::from_bitbuffer(&[]).unwrap().len(), 0);
    assert_eq!(Program::from_bitbuffer_with_length(&[0xff], 0).unwrap().len(), 0);
}

#[test]
fn awatalk_spells_bits() {
    let (bytes, length) = load_awatalk(b"awa awa awawawa awa").unwrap();
    assert_eq!(length, 5);
    assert_eq!(bytes, vec![0b0011_0000]);
    // Capital letters count as small ones, and what fits no word counts for nothing.
    let (bytes, length) = load_awatalk(b"AWA  AwA! wa?\nWa aw a wA").unwrap();
    assert_eq!((bytes, length), (vec![0b0110_1000], 5));
    assert_eq!(load_awatalk(b"awa").unwrap(), (vec![], 0));
    assert_eq!(load_awatalk(b"aw"), Err(ParseError::NoHeader));
    assert_eq!(load_awatalk(b" awa awa"), Err(ParseError::NoHeader));
    assert_eq!(load_awatalk(b""), Err(ParseError::NoHeader));
}

#[test]
fn awatalk_of_bits_spells_them_again() {
    let bytes = [0b0010_1111u8, 0b1111_0111, 0b1100_0000];
    let text = render_awatalk(&bytes, 18);
    assert_eq!(
        String::from_utf8(text.clone()).unwrap(),
        "awa awa awawa awawawawawawawawawa awawawawawawa"
    );
    assert_eq!(load_awatalk(&text).unwrap(), (bytes.to_vec(), 18));
    assert_eq!(render_awatalk(&bytes, 0), b"awa");
}

#[test]
fn program_through_awatalk_and_back() {
    let code = every_instruction();
    let program = Program::from_vec(code.clone());
    let (bytes, length) = program.to_bitbuffer();
    let text = render_awatalk(&bytes, length);
    let (read, bits) = load_awatalk(&text).unwrap();
    assert_eq!(bits, length);
    assert_eq!(read, bytes);
    let again = Program::from_bitbuffer_with_length(&read, bits).unwrap();
    assert_eq!(again.iter(), code.as_slice());
}

#[test]
fn matcher_finds_its_word() {
    let mut matcher = StringMatcher::new(b"wa");
    assert!(!matcher.push(b'a'));
    assert!(!matcher.push(b'W'));
    assert!(!matcher.push(b'x'));
    assert!(matcher.push(b'A'));
    matcher.reset();
    assert!(!matcher.push(b'w'));
    assert_eq!(matcher.index, 1);
}

#[test]
fn labels_lead_behind_themselves() {
    let l = |n| AwaTism::Label(u5::new_unchecked(n));
    let mut program = Program::from_vec(vec![l(3), AwaTism::NoOp, l(0), l(3)]);
    assert_eq!(program.len(), 4);
    assert!(!program.is_empty());
    assert_eq!(program.labels().len(), 32);
    assert_eq!(program.labels()[0], Some(3));
    // The last label of a number is the one that counts.
    assert_eq!(program.labels()[3], Some(4));
    assert_eq!(program.labels()[1], None);
    program.push(l(1));
    program.push(AwaTism::Pop);
    program.push(l(0));
    assert_eq!(program.labels()[1], Some(5));
    assert_eq!(program.labels()[0], Some(7));
    assert_eq!(program.get(5), Some(&AwaTism::Pop));
    assert_eq!(program.get(7), None);
    assert_eq!(Program::new().labels(), &[None; 32]);
    assert!(Program::with_capacity(8).is_empty());
}

#[test]
fn five_bit_numbers_come_from_numbers_and_from_text() {
    for n in -3i64..40 {
        let expected = if (0..32).contains(&n) { Some(n as u8) } else { None };
        assert_eq!(u5::from_i64(n).map(|v| v.get()), expected);
        assert_eq!(u5::from_i8(n as i8).map(|v| v.get()), expected);
        if n >= 0 {
            assert_eq!(u5::from_u8(n as u8).map(|v| v.get()), expected);
            assert_eq!(u5::from_u64(n as u64).map(|v| v.get()), expected);
        }
    }
    assert_eq!(u5::from_u64(u64::MAX), None);
    assert_eq!(u5::from_i64(i64::MIN), None);
    assert_eq!(u5::from_u64(256 + 7), None);
    assert_eq!(u5::from_str(b"31"), Ok(u5::max_value()));
    assert_eq!(u5::from_str(b"+0"), Ok(u5::zero()));
    assert_eq!(u5::from_str(b"32"), Err(Error::OutOfBounds(5)));
    assert_eq!(u5::from_str(b"255"), Err(Error::OutOfBounds(5)));
    assert_eq!(u5::from_str(b"256"), Err(Error::ParseError(NumberError::PosOverflow)));
    assert_eq!(u5::from_str(b"-1"), Err(Error::ParseError(NumberError::InvalidDigit)));
    assert_eq!(u5::from_str(b""), Err(Error::ParseError(NumberError::Empty)));
    assert_eq!(u5::from_str(b"1f"), Err(Error::ParseError(NumberError::InvalidDigit)));
}
