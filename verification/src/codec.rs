//! Instructions as bits: five bits for the kind, and behind them the number
//! that the instruction carries, if it carries one.
use crate::awatism::AwaTism;
use crate::bits::{
    all_zero, bits_of, bits_to, lemma_bits_len, lemma_bits_number, lemma_limits, limit, number_of,
    set_upto, BitError, BitReader, BitWriter,
};
use crate::program::Program;
use crate::u5::u5;
use vstd::prelude::*;

verus! {

/// The number of the kind of an instruction.
pub open spec fn opcode(awatism: AwaTism) -> nat {
    match awatism {
        AwaTism::NoOp => 0x00,
        AwaTism::Print => 0x01,
        AwaTism::PrintNum => 0x02,
        AwaTism::Read => 0x03,
        AwaTism::ReadNum => 0x04,
        AwaTism::Blow(_) => 0x05,
        AwaTism::Submerge(_) => 0x06,
        AwaTism::Pop => 0x07,
        AwaTism::Duplicate => 0x08,
        AwaTism::Surround(_) => 0x09,
        AwaTism::Merge => 0x0A,
        AwaTism::Add => 0x0B,
        AwaTism::Subtract => 0x0C,
        AwaTism::Multiply => 0x0D,
        AwaTism::Divide => 0x0E,
        AwaTism::Count => 0x0F,
        AwaTism::Label(_) => 0x10,
        AwaTism::Jump(_) => 0x11,
        AwaTism::EqualTo => 0x12,
        AwaTism::LessThan => 0x13,
        AwaTism::GreaterThan => 0x14,
        AwaTism::DoublePop => 0x16,
        AwaTism::Terminate => 0x1F,
    }
}

/// The number of bits behind the kind `code`; `None` where no instruction
/// has that kind.
pub open spec fn width(code: nat) -> Option<nat> {
    if code == 0x05 {
        Some(8)
    } else if code == 0x06 || code == 0x09 || code == 0x10 || code == 0x11 {
        Some(5)
    } else if code <= 0x14 || code == 0x16 || code == 0x1F {
        Some(0)
    } else {
        None
    }
}

/// The number that an instruction carries, as the bits behind its kind
/// spell it; a negative number counts from 256 down.
pub open spec fn carried(awatism: AwaTism) -> nat {
    match awatism {
        AwaTism::Blow(v) => if v >= 0 {
            v as nat
        } else {
            (v + 256) as nat
        },
        AwaTism::Submerge(v) => v@ as nat,
        AwaTism::Surround(v) => v@ as nat,
        AwaTism::Label(v) => v@ as nat,
        AwaTism::Jump(v) => v@ as nat,
        _ => 0,
    }
}

/// The instruction of the kind `code` that carries `arg`.
pub open spec fn built(code: nat, arg: nat) -> AwaTism {
    if code == 0x00 {
        AwaTism::NoOp
    } else if code == 0x01 {
        AwaTism::Print
    } else if code == 0x02 {
        AwaTism::PrintNum
    } else if code == 0x03 {
        AwaTism::Read
    } else if code == 0x04 {
        AwaTism::ReadNum
    } else if code == 0x05 {
        AwaTism::Blow(
            if arg < 128 {
                arg as i8
            } else {
                (arg - 256) as i8
            },
        )
    } else if code == 0x06 {
        AwaTism::Submerge(u5::of(arg as u8))
    } else if code == 0x07 {
        AwaTism::Pop
    } else if code == 0x08 {
        AwaTism::Duplicate
    } else if code == 0x09 {
        AwaTism::Surround(u5::of(arg as u8))
    } else if code == 0x0A {
        AwaTism::Merge
    } else if code == 0x0B {
        AwaTism::Add
    } else if code == 0x0C {
        AwaTism::Subtract
    } else if code == 0x0D {
        AwaTism::Multiply
    } else if code == 0x0E {
        AwaTism::Divide
    } else if code == 0x0F {
        AwaTism::Count
    } else if code == 0x10 {
        AwaTism::Label(u5::of(arg as u8))
    } else if code == 0x11 {
        AwaTism::Jump(u5::of(arg as u8))
    } else if code == 0x12 {
        AwaTism::EqualTo
    } else if code == 0x13 {
        AwaTism::LessThan
    } else if code == 0x14 {
        AwaTism::GreaterThan
    } else if code == 0x16 {
        AwaTism::DoublePop
    } else {
        AwaTism::Terminate
    }
}

/// An instruction as bits.
pub open spec fn encoded(awatism: AwaTism) -> Seq<bool> {
    bits_to(opcode(awatism), 5) + bits_to(carried(awatism), width(opcode(awatism))->0)
}

/// The instruction at the front of the bits, with the number of its bits;
/// or why there is none.
pub open spec fn decoded(bits: Seq<bool>) -> Result<(AwaTism, nat), BitError> {
    if bits.len() < 5 {
        Err(BitError::NotEnoughData { requested: 5, bits_left: bits.len() as usize })
    } else {
        let code = number_of(bits.take(5));
        match width(code) {
            None => Err(BitError::UnmatchedDiscriminant { discriminant: code as usize }),
            Some(w) => if bits.len() < 5 + w {
                Err(
                    BitError::NotEnoughData {
                        requested: w as usize,
                        bits_left: (bits.len() - 5) as usize,
                    },
                )
            } else {
                Ok((built(code, number_of(bits.subrange(5, 5 + w as int))), 5 + w))
            },
        }
    }
}

/// The code `prefix` before the code that `rest` came to, or the error that
/// it came to.
pub open spec fn before(prefix: Seq<AwaTism>, rest: Result<Seq<AwaTism>, BitError>) -> Result<
    Seq<AwaTism>,
    BitError,
> {
    match rest {
        Ok(code) => Ok(prefix + code),
        Err(e) => Err(e),
    }
}

/// The bits are padding: zero bits, and fewer of them than fill a byte.
pub open spec fn is_padding(bits: Seq<bool>) -> bool {
    bits.len() < 8 && all_zero(bits)
}

/// The instructions that the bits spell, one after the other, up to the
/// padding at the end. Whatever else is left, and is no instruction, is an
/// error.
pub open spec fn decoded_all(bits: Seq<bool>) -> Result<Seq<AwaTism>, BitError>
    decreases bits.len(),
{
    if is_padding(bits) {
        Ok(Seq::empty())
    } else {
        match decoded(bits) {
            Ok((awatism, used)) => if 5 <= used <= bits.len() {
                before(seq![awatism], decoded_all(bits.skip(used as int)))
            } else {
                Ok(Seq::empty())
            },
            Err(e) => Err(e),
        }
    }
}

/// The instructions that the bits spell from the place `pos` on, up to the
/// one that reaches the place `length`.
pub open spec fn decoded_upto(bits: Seq<bool>, pos: nat, length: nat) -> Result<
    Seq<AwaTism>,
    BitError,
>
    decreases
            (if length > pos {
                length - pos
            } else {
                0
            }),
{
    if pos >= length || pos > bits.len() {
        Ok(Seq::empty())
    } else {
        match decoded(bits.skip(pos as int)) {
            Ok((awatism, used)) => if used >= 5 {
                before(seq![awatism], decoded_upto(bits, pos + used, length))
            } else {
                Ok(Seq::empty())
            },
            Err(e) => Err(e),
        }
    }
}

/// The bits of all the instructions, one after the other.
pub open spec fn encoded_all(code: Seq<AwaTism>) -> Seq<bool>
    decreases code.len(),
{
    if code.len() == 0 {
        Seq::empty()
    } else {
        encoded(code[0]) + encoded_all(code.skip(1))
    }
}

/// Every instruction of the code carries a number that fits its bits.
pub open spec fn all_valid(code: Seq<AwaTism>) -> bool {
    forall|i: int| 0 <= i < code.len() ==> valid(#[trigger] code[i])
}

/// Bits that are all zero spell zero, and no others do.
pub proof fn lemma_zero_number(bits: Seq<bool>)
    ensures
        all_zero(bits) <==> number_of(bits) == 0,
    decreases bits.len(),
{
    if bits.len() > 0 {
        lemma_zero_number(bits.drop_last());
        if all_zero(bits) {
            assert(!bits[bits.len() - 1]);
            assert forall|i: int| 0 <= i < bits.drop_last().len() implies !#[trigger] bits.drop_last()[i] by {
                assert(!bits[i]);
            }
        }
        if number_of(bits) == 0 {
            assert forall|i: int| 0 <= i < bits.len() implies !#[trigger] bits[i] by {
                if i < bits.len() - 1 {
                    assert(!bits.drop_last()[i]);
                }
            }
        }
    }
}

/// The number that the instruction carries is one of 5 bits, where it is
/// meant to be one.
pub open spec fn valid(awatism: AwaTism) -> bool {
    match awatism {
        AwaTism::Submerge(v) => v@ < 32,
        AwaTism::Surround(v) => v@ < 32,
        AwaTism::Label(v) => v@ < 32,
        AwaTism::Jump(v) => v@ < 32,
        _ => true,
    }
}

/// Every instruction carries a number that fits the bits behind its kind,
/// and is found again from its kind and that number.
pub proof fn lemma_built(awatism: AwaTism)
    requires
        valid(awatism),
    ensures
        opcode(awatism) < 32,
        width(opcode(awatism)) is Some,
        carried(awatism) < limit(width(opcode(awatism))->0),
        built(opcode(awatism), carried(awatism)) == awatism,
{
    lemma_limits();
    match awatism {
        AwaTism::Submerge(v) => {
            u5::lemma_of(v@);
        },
        AwaTism::Surround(v) => {
            u5::lemma_of(v@);
        },
        AwaTism::Label(v) => {
            u5::lemma_of(v@);
        },
        AwaTism::Jump(v) => {
            u5::lemma_of(v@);
        },
        _ => {},
    }
}

/// Law: the bits of an instruction, whatever follows them, spell that
/// instruction again, and as many bits as it has.
pub proof fn lemma_decode_encode(awatism: AwaTism, rest: Seq<bool>)
    requires
        valid(awatism),
    ensures
        decoded(encoded(awatism) + rest) == Ok::<(AwaTism, nat), BitError>(
            (awatism, encoded(awatism).len()),
        ),
        encoded(awatism).len() == 5 + width(opcode(awatism))->0,
{
    let code = opcode(awatism);
    let w = width(code)->0;
    let arg = carried(awatism);
    let bits = encoded(awatism) + rest;
    lemma_built(awatism);
    lemma_limits();
    lemma_bits_number(code, 5);
    lemma_bits_number(arg, w);
    assert(bits.take(5) =~= bits_to(code, 5));
    assert(bits.subrange(5, 5 + w as int) =~= bits_to(arg, w));
}

/// Law: the bits of a code, read up to their end, spell that code again,
/// whatever stands before and behind them.
pub proof fn lemma_decode_encode_all(front: Seq<bool>, code: Seq<AwaTism>, back: Seq<bool>)
    requires
        all_valid(code),
    ensures
        decoded_upto(
            front + encoded_all(code) + back,
            front.len(),
            front.len() + encoded_all(code).len(),
        ) == Ok::<Seq<AwaTism>, BitError>(code),
    decreases code.len(),
{
    let bits = front + encoded_all(code) + back;
    let pos = front.len();
    let length = front.len() + encoded_all(code).len();
    if code.len() == 0 {
        assert(code =~= Seq::<AwaTism>::empty());
    } else {
        let first = encoded(code[0]);
        let later = encoded_all(code.skip(1));
        assert(valid(code[0]));
        assert forall|i: int| 0 <= i < code.skip(1).len() implies valid(#[trigger] code.skip(1)[i]) by {
            assert(valid(code[i + 1]));
        }
        lemma_decode_encode(code[0], later + back);
        assert(encoded_all(code) == first + later);
        assert(bits.skip(pos as int) =~= first + (later + back));
        assert(decoded(bits.skip(pos as int)) == Ok::<(AwaTism, nat), BitError>(
            (code[0], first.len()),
        ));
        lemma_decode_encode_all(front + first, code.skip(1), back);
        assert((front + first) + later + back =~= bits);
        assert((front + first).len() == pos + first.len());
        assert(decoded_upto(bits, pos + first.len(), length) == Ok::<Seq<AwaTism>, BitError>(
            code.skip(1),
        ));
        assert(seq![code[0]] + code.skip(1) =~= code);
    }
}

/// The bits of an instruction that is no `NoOp` are not all zero: its kind
/// is no zero.
pub proof fn lemma_kind_set(awatism: AwaTism)
    requires
        awatism != AwaTism::NoOp,
    ensures
        !all_zero(encoded(awatism)),
{
    let kind = bits_to(opcode(awatism), 5);
    lemma_limits();
    lemma_bits_number(opcode(awatism), 5);
    lemma_zero_number(kind);
    let i = choose|i: int| 0 <= i < kind.len() && kind[i];
    assert(encoded(awatism)[i] == kind[i]);
}

/// The bits of a code that ends in no `NoOp` are not all zero.
pub proof fn lemma_code_set(code: Seq<AwaTism>)
    requires
        code.len() > 0,
        code.last() != AwaTism::NoOp,
    ensures
        !all_zero(encoded_all(code)),
    decreases code.len(),
{
    let first = encoded(code[0]);
    let later = encoded_all(code.skip(1));
    if code.len() == 1 {
        lemma_kind_set(code[0]);
        let i = choose|i: int| 0 <= i < first.len() && first[i];
        assert((first + later)[i] == first[i]);
    } else {
        assert(code.skip(1).last() == code.last());
        lemma_code_set(code.skip(1));
        let i = choose|i: int| 0 <= i < later.len() && later[i];
        assert((first + later)[first.len() + i] == later[i]);
    }
}

/// A code of instructions has five bits or more for each of them.
pub proof fn lemma_code_len(code: Seq<AwaTism>)
    requires
        all_valid(code),
    ensures
        encoded_all(code).len() >= 5 * code.len(),
    decreases code.len(),
{
    if code.len() > 0 {
        let rest = code.skip(1);
        assert(valid(code[0]));
        assert forall|k: int| 0 <= k < rest.len() implies valid(#[trigger] rest[k]) by {
            assert(valid(code[k + 1]));
        }
        lemma_decode_encode(code[0], Seq::empty());
        lemma_code_len(rest);
    }
}

/// Law: the bits of a code with the zero bits behind them that fill the
/// last byte, read without their number, spell that code again. The one
/// code that cannot be told from its padding is left out: a code that ends
/// in a `NoOp` with fewer than three bits of padding behind it, for the
/// `NoOp` and the padding are then fewer than eight zero bits.
pub proof fn lemma_decode_padded(code: Seq<AwaTism>, padding: Seq<bool>)
    requires
        all_valid(code),
        is_padding(padding),
        code.len() > 0 && code.last() == AwaTism::NoOp ==> padding.len() >= 3,
    ensures
        decoded_all(encoded_all(code) + padding) == Ok::<Seq<AwaTism>, BitError>(code),
    decreases code.len(),
{
    let bits = encoded_all(code) + padding;
    if code.len() == 0 {
        assert(bits =~= padding);
        assert(code =~= Seq::<AwaTism>::empty());
    } else {
        let first = encoded(code[0]);
        let rest = code.skip(1);
        let later = encoded_all(rest);
        if code.last() == AwaTism::NoOp {
            lemma_code_len(code);
        } else {
            lemma_code_set(code);
            let i = choose|i: int| 0 <= i < encoded_all(code).len() && encoded_all(code)[i];
            assert(bits[i] == encoded_all(code)[i]);
        }
        assert(!is_padding(bits));
        assert(valid(code[0]));
        assert forall|k: int| 0 <= k < rest.len() implies valid(#[trigger] rest[k]) by {
            assert(valid(code[k + 1]));
        }
        lemma_decode_encode(code[0], later + padding);
        assert(bits =~= first + (later + padding));
        assert(bits.skip(first.len() as int) =~= later + padding);
        if rest.len() > 0 {
            assert(rest.last() == code.last());
        }
        lemma_decode_padded(rest, padding);
        assert(seq![code[0]] + rest =~= code);
    }
}

/// Law: one instruction, written as bits and filled up with zero bits to
/// whole bytes, is read again as that instruction and nothing else, be it a
/// `NoOp`.
pub proof fn lemma_decode_single(awatism: AwaTism, padding: Seq<bool>)
    requires
        valid(awatism),
        is_padding(padding),
        (encoded(awatism).len() + padding.len()) % 8 == 0,
    ensures
        decoded_all(encoded(awatism) + padding) == Ok::<Seq<AwaTism>, BitError>(seq![awatism]),
{
    let code = seq![awatism];
    assert(code[0] == awatism);
    assert(code.skip(1) =~= Seq::<AwaTism>::empty());
    reveal_with_fuel(encoded_all, 2);
    assert(encoded_all(code) =~= encoded(awatism));
    lemma_decode_encode(awatism, Seq::empty());
    lemma_decode_padded(code, padding);
}

impl AwaTism {
    /// Writes the instruction as bits.
    pub fn write(&self, stream: &mut BitWriter)
        requires
            old(stream)@.len() < usize::MAX - 64,
        ensures
            final(stream)@ == old(stream)@ + encoded(*self),
    {
        let ghost start = stream@;
        proof {
            lemma_bits_len(opcode(*self), 5);
        }
        let (code, arg, bits): (u16, u16, usize) = match *self {
            AwaTism::NoOp => (0x00, 0, 0),
            AwaTism::Print => (0x01, 0, 0),
            AwaTism::PrintNum => (0x02, 0, 0),
            AwaTism::Read => (0x03, 0, 0),
            AwaTism::ReadNum => (0x04, 0, 0),
            AwaTism::Blow(v) => (
                0x05,
                if v >= 0 {
                    v as u16
                } else {
                    (v as i16 + 256) as u16
                },
                8,
            ),
            AwaTism::Submerge(v) => (0x06, v.get() as u16, 5),
            AwaTism::Pop => (0x07, 0, 0),
            AwaTism::Duplicate => (0x08, 0, 0),
            AwaTism::Surround(v) => (0x09, v.get() as u16, 5),
            AwaTism::Merge => (0x0A, 0, 0),
            AwaTism::Add => (0x0B, 0, 0),
            AwaTism::Subtract => (0x0C, 0, 0),
            AwaTism::Multiply => (0x0D, 0, 0),
            AwaTism::Divide => (0x0E, 0, 0),
            AwaTism::Count => (0x0F, 0, 0),
            AwaTism::Label(v) => (0x10, v.get() as u16, 5),
            AwaTism::Jump(v) => (0x11, v.get() as u16, 5),
            AwaTism::EqualTo => (0x12, 0, 0),
            AwaTism::LessThan => (0x13, 0, 0),
            AwaTism::GreaterThan => (0x14, 0, 0),
            AwaTism::DoublePop => (0x16, 0, 0),
            AwaTism::Terminate => (0x1F, 0, 0),
        };
        stream.write_int(code, 5);
        stream.write_int(arg, bits);
        proof {
            assert(stream@ =~= start + encoded(*self));
        }
    }

    /// Reads the instruction at the front of the bits. Where there is none,
    /// the bits of its kind are read all the same, unless they are not all
    /// there.
    pub fn read(stream: &mut BitReader) -> (r: Result<AwaTism, BitError>)
        requires
            old(stream).wf(),
        ensures
            final(stream).wf(),
            final(stream).bytes == old(stream).bytes,
            match decoded(old(stream).rest()) {
                Ok((awatism, used)) => r == Ok::<AwaTism, BitError>(awatism) && final(stream).pos
                    == old(stream).pos + used && final(stream).rest() == old(stream).rest().skip(
                    used as int,
                ) && 5 <= used <= old(stream).rest().len(),
                Err(e) => r == Err::<AwaTism, BitError>(e) && final(stream).pos == (
                if old(stream).rest().len() < 5 {
                    old(stream).pos as int
                } else {
                    old(stream).pos + 5
                }),
            },
    {
        let ghost bits = stream.rest();
        proof {
            lemma_limits();
        }
        let code = match stream.read_int(5) {
            Ok(code) => code,
            Err(e) => {
                return Err(e);
            },
        };
        proof {
            if bits.len() >= 13 {
                assert(bits.skip(5).take(8) =~= bits.subrange(5, 13));
                assert(bits.skip(5).skip(8) =~= bits.skip(13));
            }
            if bits.len() >= 10 {
                assert(bits.skip(5).take(5) =~= bits.subrange(5, 10));
                assert(bits.skip(5).skip(5) =~= bits.skip(10));
            }
            assert(bits.skip(5).take(0) =~= bits.subrange(5, 5));
        }
        match code {
            0x00 => Ok(AwaTism::NoOp),
            0x01 => Ok(AwaTism::Print),
            0x02 => Ok(AwaTism::PrintNum),
            0x03 => Ok(AwaTism::Read),
            0x04 => Ok(AwaTism::ReadNum),
            0x05 => match stream.read_int(8) {
                Ok(arg) => Ok(
                    AwaTism::Blow(
                        if arg < 128 {
                            arg as i8
                        } else {
                            (arg as i16 - 256) as i8
                        },
                    ),
                ),
                Err(e) => Err(e),
            },
            0x06 => match stream.read_int(5) {
                Ok(arg) => Ok(AwaTism::Submerge(u5::new_unchecked(arg as u8))),
                Err(e) => Err(e),
            },
            0x07 => Ok(AwaTism::Pop),
            0x08 => Ok(AwaTism::Duplicate),
            0x09 => match stream.read_int(5) {
                Ok(arg) => Ok(AwaTism::Surround(u5::new_unchecked(arg as u8))),
                Err(e) => Err(e),
            },
            0x0A => Ok(AwaTism::Merge),
            0x0B => Ok(AwaTism::Add),
            0x0C => Ok(AwaTism::Subtract),
            0x0D => Ok(AwaTism::Multiply),
            0x0E => Ok(AwaTism::Divide),
            0x0F => Ok(AwaTism::Count),
            0x10 => match stream.read_int(5) {
                Ok(arg) => Ok(AwaTism::Label(u5::new_unchecked(arg as u8))),
                Err(e) => Err(e),
            },
            0x11 => match stream.read_int(5) {
                Ok(arg) => Ok(AwaTism::Jump(u5::new_unchecked(arg as u8))),
                Err(e) => Err(e),
            },
            0x12 => Ok(AwaTism::EqualTo),
            0x13 => Ok(AwaTism::LessThan),
            0x14 => Ok(AwaTism::GreaterThan),
            0x16 => Ok(AwaTism::DoublePop),
            0x1F => Ok(AwaTism::Terminate),
            _ => Err(BitError::UnmatchedDiscriminant { discriminant: code as usize }),
        }
    }
}

/// The bits of a code with one more instruction are the bits of the code
/// and then those of the instruction.
pub proof fn lemma_encoded_push(code: Seq<AwaTism>, awatism: AwaTism)
    ensures
        encoded_all(code.push(awatism)) == encoded_all(code) + encoded(awatism),
    decreases code.len(),
{
    let more = code.push(awatism);
    if code.len() == 0 {
        assert(more.skip(1) =~= Seq::<AwaTism>::empty());
        assert(encoded_all(more) =~= encoded(awatism) + encoded_all(more.skip(1)));
        assert(encoded_all(more) =~= encoded_all(code) + encoded(awatism));
    } else {
        lemma_encoded_push(code.skip(1), awatism);
        assert(more.skip(1) =~= code.skip(1).push(awatism));
        assert(more[0] == code[0]);
        assert(encoded_all(more) =~= encoded_all(code) + encoded(awatism));
    }
}

/// No instruction has more than 13 bits.
pub proof fn lemma_encoded_len(awatism: AwaTism)
    ensures
        5 <= encoded(awatism).len() <= 13,
{
    lemma_bits_len(opcode(awatism), 5);
    lemma_bits_len(carried(awatism), width(opcode(awatism))->0);
}

impl Program {
    /// The program as bits in bytes, and the number of the bits; the last
    /// byte is filled up with zero bits.
    pub fn to_bitbuffer(&self) -> (r: (Vec<u8>, usize))
        requires
            13 * self@.len() + 64 < usize::MAX,
        ensures
            r.1 == encoded_all(self@).len(),
            r.1 <= 8 * r.0@.len() < r.1 + 8,
            bits_of(r.0@).take(r.1 as int) == encoded_all(self@),
            all_zero(bits_of(r.0@).skip(r.1 as int)),
    {
        let mut writer = BitWriter::new();
        let code = self.iter();
        let mut i: usize = 0;
        proof {
            assert(code@.take(0) =~= Seq::<AwaTism>::empty());
        }
        while i < code.len()
            invariant
                0 <= i <= code@.len(),
                13 * code@.len() + 64 < usize::MAX,
                writer@ == encoded_all(code@.take(i as int)),
                writer@.len() <= 13 * i,
            decreases code@.len() - i,
        {
            proof {
                lemma_encoded_push(code@.take(i as int), code@[i as int]);
                lemma_encoded_len(code@[i as int]);
                assert(code@.take(i as int).push(code@[i as int]) =~= code@.take(i + 1));
            }
            code[i].write(&mut writer);
            i = i + 1;
        }
        proof {
            assert(code@.take(code@.len() as int) =~= code@);
        }
        writer.finish()
    }

    /// The program that the bytes hold as bits. Fewer than eight zero bits
    /// at the end are padding; whatever else is left, and is no instruction,
    /// is an error.
    pub fn from_bitbuffer(buffer: &[u8]) -> (r: Result<Self, BitError>)
        requires
            8 * buffer@.len() <= usize::MAX,
        ensures
            match decoded_all(bits_of(buffer@)) {
                Ok(code) => r matches Ok(program) && program@ == code,
                Err(e) => r matches Err(error) && error == e,
            },
    {
        let mut stream = BitReader::new(buffer);
        let mut program = Program::new();
        let end = set_upto(buffer);
        let ghost all = bits_of(buffer@);
        let ghost whole = decoded_all(all);
        proof {
            assert(Seq::<AwaTism>::empty() + Seq::<AwaTism>::empty() =~= Seq::<AwaTism>::empty());
            if whole is Ok {
                assert(program@ + whole->Ok_0 =~= whole->Ok_0);
            }
        }
        loop
            invariant
                stream.wf(),
                stream.bytes@ == buffer@,
                all == bits_of(buffer@),
                end <= all.len(),
                all_zero(all.skip(end as int)),
                end > 0 ==> all[end - 1],
                whole == decoded_all(all),
                whole == before(program@, decoded_all(stream.rest())),
            decreases stream.rest().len(),
        {
            let ghost bits = stream.rest();
            let ghost so_far = program@;
            let pos = stream.pos();
            if stream.bits_left() < 8 && pos >= end {
                proof {
                    assert forall|i: int| 0 <= i < bits.len() implies !#[trigger] bits[i] by {
                        assert(all.skip(end as int)[pos + i - end] == bits[i]);
                    }
                    assert(so_far + Seq::<AwaTism>::empty() =~= so_far);
                }
                return Ok(program);
            }
            proof {
                if pos < end {
                    assert(bits[end - 1 - pos] == all[end - 1]);
                }
                assert(!is_padding(bits));
            }
            match AwaTism::read(&mut stream) {
                Ok(awatism) => {
                    program.push(awatism);
                    proof {
                        let later = decoded_all(stream.rest());
                        if later is Ok {
                            assert(so_far + (seq![awatism] + later->Ok_0) =~= program@ + later->Ok_0);
                        }
                    }
                },
                Err(error) => {
                    return Err(error);
                },
            }
        }
    }

    /// The program that the first `length` bits of the bytes hold.
    pub fn from_bitbuffer_with_length(buffer: &[u8], length: usize) -> (r: Result<Self, BitError>)
        requires
            8 * buffer@.len() <= usize::MAX,
        ensures
            match decoded_upto(bits_of(buffer@), 0, length as nat) {
                Ok(code) => r matches Ok(program) && program@ == code,
                Err(e) => r matches Err(error) && error == e,
            },
    {
        let mut stream = BitReader::new(buffer);
        let mut program = Program::with_capacity(length / 13);
        let ghost all = bits_of(buffer@);
        let ghost whole = decoded_upto(all, 0, length as nat);
        proof {
            if whole is Ok {
                assert(program@ + whole->Ok_0 =~= whole->Ok_0);
            }
        }
        while stream.pos() < length
            invariant
                stream.wf(),
                stream.bytes@ == buffer@,
                all == bits_of(buffer@),
                whole == decoded_upto(all, 0, length as nat),
                whole == before(program@, decoded_upto(all, stream.pos as nat, length as nat)),
            decreases
                    (if length > stream.pos {
                        length - stream.pos
                    } else {
                        0
                    }),
        {
            let ghost so_far = program@;
            let ghost pos = stream.pos;
            let ghost rest = stream.rest();
            proof {
                assert(rest == all.skip(pos as int));
            }
            match AwaTism::read(&mut stream) {
                Ok(awatism) => {
                    program.push(awatism);
                    proof {
                        let later = decoded_upto(all, stream.pos as nat, length as nat);
                        if later is Ok {
                            assert(so_far + (seq![awatism] + later->Ok_0) =~= program@ + later->Ok_0);
                        }
                    }
                },
                Err(error) => {
                    proof {
                        assert(decoded(rest) == Err::<(AwaTism, nat), BitError>(error));
                        assert(decoded_upto(all, pos as nat, length as nat) == Err::<
                            Seq<AwaTism>,
                            BitError,
                        >(error));
                    }
                    return Err(error);
                },
            }
        }
        proof {
            assert(program@ + Seq::<AwaTism>::empty() =~= program@);
        }
        Ok(program)
    }
}

} // verus!
