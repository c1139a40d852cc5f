use bitbuffer::{BigEndian, BitError as Theirs, BitReadBuffer, BitReadStream, BitWriteStream};
use rusty_awa::awatism::AwaTism;
use rusty_awa::bits::{BitError, BitReader, BitWriter};
use rusty_awa::program::Program;

/// One step of a fixed sequence of numbers that looks random.
fn mix(state: &mut u64) -> u64 {
    *state = state
        .wrapping_mul(6364136223846793005)
        .wrapping_add(1442695040888963407);
    *state >> 33
}

fn same(ours: BitError, theirs: &Theirs) -> bool {
    match (ours, theirs) {
        (
            BitError::TooManyBits { requested, max },
            Theirs::TooManyBits {
                requested: asked,
                max: most,
            },
        ) => requested == *asked && max == *most,
        (
            BitError::NotEnoughData {
                requested,
                bits_left,
            },
            Theirs::NotEnoughData {
                requested: asked,
                bits_left: left,
            },
        ) => requested == *asked && bits_left == *left,
        (
            BitError::IndexOutOfBounds { pos, size },
            Theirs::IndexOutOfBounds {
                pos: place,
                size: length,
            },
        ) => pos == *place && size == *length,
        _ => false,
    }
}

#[test]
fn bits_are_read_as_the_bitbuffer_crate_reads_them() {
    for seed in 0..200u64 {
        let mut state = seed;
        let length = (mix(&mut state) % 24) as usize;
        let bytes: Vec<u8> = (0..length).map(|_| mix(&mut state) as u8).collect();
        let mut ours = BitReader::new(&bytes);
        let mut theirs = BitReadStream::new(BitReadBuffer::new(&bytes, BigEndian));
        for _ in 0..60 {
            let count = (mix(&mut state) % 20) as usize;
            match (ours.read_int(count), theirs.read_int::<u16>(count)) {
                (Ok(a), Ok(b)) => assert_eq!(a, b),
                (Err(a), Err(b)) => assert!(same(a, &b), "{a:?} and {b:?}"),
                (a, b) => panic!("{a:?} and {b:?}"),
            }
            assert_eq!(ours.pos(), theirs.pos());
            assert_eq!(ours.bits_left(), theirs.bits_left());
        }
    }
}

#[test]
fn bits_are_written_as_the_bitbuffer_crate_writes_them() {
    for seed in 0..200u64 {
        let mut state = seed;
        let mut ours = BitWriter::new();
        let mut data = Vec::new();
        let mut theirs = BitWriteStream::new(&mut data, BigEndian);
        let steps = mix(&mut state) % 40;
        for _ in 0..steps {
            let count = (mix(&mut state) % 17) as usize;
            let value = (mix(&mut state) & ((1u64 << count) - 1)) as u16;
            if mix(&mut state) % 4 == 0 {
                let bit = value & 1 == 1;
                ours.write_bit(bit);
                theirs.write_bool(bit).unwrap();
            } else {
                ours.write_int(value, count);
                theirs.write_int(value, count).unwrap();
            }
            assert_eq!(ours.bit_len(), theirs.bit_len());
            assert_eq!(ours.byte_len(), theirs.byte_len());
        }
        let (bytes, length) = ours.finish();
        assert_eq!(length, theirs.bit_len());
        assert_eq!(bytes, data);
    }
}

#[test]
fn instructions_are_packed_as_the_bitbuffer_crate_packs_their_numbers() {
    let code = vec![
        AwaTism::Blow(-7),
        AwaTism::Blow(100),
        AwaTism::Merge,
        AwaTism::Terminate,
    ];
    let mut data = Vec::new();
    let mut theirs = BitWriteStream::new(&mut data, BigEndian);
    theirs.write_int(0x05u8, 5).unwrap();
    theirs.write_int(-7i8, 8).unwrap();
    theirs.write_int(0x05u8, 5).unwrap();
    theirs.write_int(100i8, 8).unwrap();
    theirs.write_int(0x0Au8, 5).unwrap();
    theirs.write_int(0x1Fu8, 5).unwrap();
    let length = theirs.bit_len();
    let (bytes, bits) = Program::from_vec(code.clone()).to_bitbuffer();
    assert_eq!((bytes.as_slice(), bits), (data.as_slice(), length));
    let mut stream = BitReadStream::new(BitReadBuffer::new(&bytes, BigEndian));
    assert_eq!(stream.read_int::<u8>(5).unwrap(), 0x05);
    assert_eq!(stream.read_int::<i8>(8).unwrap(), -7);
    let program = Program::from_bitbuffer_with_length(&data, length).unwrap();
    assert_eq!(program.iter(), code.as_slice());
}
