//! Bits in bytes: the first bit of a byte is its highest.
use vstd::prelude::*;

verus! {

/// Why bits could not be read.
#[derive(Debug, Clone, Copy, PartialEq, Eq, Hash, Structural)]
pub enum BitError {
    /// More bits were asked for than the number can hold.
    TooManyBits { requested: usize, max: usize },
    /// Fewer bits are left than were asked for.
    NotEnoughData { requested: usize, bits_left: usize },
    /// The place lies behind the end.
    IndexOutOfBounds { pos: usize, size: usize },
    /// No instruction has this number.
    UnmatchedDiscriminant { discriminant: usize },
}

/// The bit at place `at` of a byte, its highest bit being at place 0.
pub open spec fn bit_of(byte: u8, at: int) -> bool {
    (byte >> ((7 - at) as u8)) & 1 == 1
}

/// The bits of the bytes.
pub open spec fn bits_of(bytes: Seq<u8>) -> Seq<bool> {
    Seq::new(8 * bytes.len(), |i: int| bit_of(bytes[i / 8], i % 8))
}

/// The number that the bits spell, the highest bit first.
pub open spec fn number_of(bits: Seq<bool>) -> nat
    decreases bits.len(),
{
    if bits.len() == 0 {
        0
    } else {
        2 * number_of(bits.drop_last()) + (if bits.last() {
            1nat
        } else {
            0nat
        })
    }
}

/// The `count` lowest bits of a number, the highest of them first.
pub open spec fn bits_to(value: nat, count: nat) -> Seq<bool>
    decreases count,
{
    if count == 0 {
        Seq::empty()
    } else {
        bits_to(value / 2, (count - 1) as nat).push(value % 2 == 1)
    }
}

/// The number above all numbers of `count` bits.
pub open spec fn limit(count: nat) -> nat
    decreases count,
{
    if count == 0 {
        1
    } else {
        2 * limit((count - 1) as nat)
    }
}

/// All the bits are zero.
pub open spec fn all_zero(bits: Seq<bool>) -> bool {
    forall|i: int| 0 <= i < bits.len() ==> !#[trigger] bits[i]
}

/// Bits spell a number below the limit of their count.
pub proof fn lemma_number_bound(bits: Seq<bool>)
    ensures
        number_of(bits) < limit(bits.len()),
    decreases bits.len(),
{
    if bits.len() > 0 {
        lemma_number_bound(bits.drop_last());
    }
}

/// A number below the limit of `count` bits is spelled by its `count`
/// lowest bits.
pub proof fn lemma_bits_number(value: nat, count: nat)
    requires
        value < limit(count),
    ensures
        bits_to(value, count).len() == count,
        number_of(bits_to(value, count)) == value,
    decreases count,
{
    if count > 0 {
        lemma_bits_number(value / 2, (count - 1) as nat);
        let shorter = bits_to(value / 2, (count - 1) as nat);
        assert(shorter.push(value % 2 == 1).drop_last() =~= shorter);
    } else {
    }
}

/// The bits of `count` bits have that many.
pub proof fn lemma_bits_len(value: nat, count: nat)
    ensures
        bits_to(value, count).len() == count,
    decreases count,
{
    if count > 0 {
        lemma_bits_len(value / 2, (count - 1) as nat);
    }
}

/// The limits of the counts of bits that instructions use.
pub proof fn lemma_limits()
    ensures
        limit(0) == 1,
        limit(1) == 2,
        limit(5) == 32,
        limit(8) == 256,
        limit(16) == 65536,
{
    reveal_with_fuel(limit, 17);
}

/// Reads bits from bytes, from the front on.
pub struct BitReader<'a> {
    pub bytes: &'a [u8],
    pub pos: usize,
}

impl<'a> BitReader<'a> {
    /// The place lies within the bits, which can be counted.
    pub open spec fn wf(&self) -> bool {
        8 * self.bytes@.len() <= usize::MAX && self.pos <= 8 * self.bytes@.len()
    }

    /// The bits that are still to be read.
    pub open spec fn rest(&self) -> Seq<bool> {
        bits_of(self.bytes@).skip(self.pos as int)
    }

    /// A reader at the first bit of the bytes.
    pub fn new(bytes: &'a [u8]) -> (r: Self)
        requires
            8 * bytes@.len() <= usize::MAX,
        ensures
            r.wf(),
            r.bytes@ == bytes@,
            r.pos == 0,
            r.rest() == bits_of(bytes@),
    {
        assert(bits_of(bytes@).skip(0) =~= bits_of(bytes@));
        BitReader { bytes, pos: 0 }
    }

    /// The number of bits that are still to be read.
    pub fn bits_left(&self) -> (r: usize)
        requires
            self.wf(),
        ensures
            r == self.rest().len(),
            r == 8 * self.bytes@.len() - self.pos,
    {
        8 * self.bytes.len() - self.pos
    }

    /// The place of the next bit.
    pub fn pos(&self) -> (r: usize)
        ensures
            r == self.pos,
    {
        self.pos
    }

    /// Reads the next `count` bits as a number. More than 16 bits are too
    /// many for the number; where fewer bits are left than are asked for,
    /// nothing is read.
    pub fn read_int(&mut self, count: usize) -> (r: Result<u16, BitError>)
        requires
            old(self).wf(),
        ensures
            final(self).wf(),
            final(self).bytes == old(self).bytes,
            count > 16 ==> r == Err::<u16, BitError>(
                BitError::TooManyBits { requested: count, max: 16 },
            ) && final(self).pos == old(self).pos,
            count <= 16 && count <= old(self).rest().len() ==> r == Ok::<u16, BitError>(
                number_of(old(self).rest().take(count as int)) as u16,
            ) && final(self).pos == old(self).pos + count && final(self).rest() == old(self).rest().skip(
                count as int,
            ) && number_of(old(self).rest().take(count as int)) < limit(count as nat),
            count <= 16 && count > old(self).rest().len() ==> r == Err::<u16, BitError>(
                BitError::NotEnoughData { requested: count, bits_left: old(self).rest().len() as usize },
            ) && final(self).pos == old(self).pos,
    {
        if count > 16 {
            return Err(BitError::TooManyBits { requested: count, max: 16 });
        }
        let left = self.bits_left();
        if count > left {
            return Err(BitError::NotEnoughData { requested: count, bits_left: left });
        }
        let ghost bits = self.rest();
        let start = self.pos;
        let mut value: u16 = 0;
        let mut i: usize = 0;
        proof {
            assert(bits.take(0) =~= Seq::<bool>::empty());
            lemma_limits();
        }
        while i < count
            invariant
                0 <= i <= count <= 16,
                count <= left,
                left == 8 * self.bytes@.len() - start,
                8 * self.bytes@.len() <= usize::MAX,
                self.bytes == old(self).bytes,
                self.pos == start,
                bits == bits_of(self.bytes@).skip(start as int),
                value == number_of(bits.take(i as int)),
                value < limit(i as nat),
            decreases count - i,
        {
            let at = start + i;
            let byte = self.bytes[at / 8];
            let shift = (7 - at % 8) as u8;
            let one = (byte >> shift) & 1 == 1;
            proof {
                let now = bits.take(i + 1);
                assert(now.drop_last() =~= bits.take(i as int));
                assert(now.last() == bits[i as int]);
                assert(bits[i as int] == bits_of(self.bytes@)[at as int]);
                assert(bits_of(self.bytes@)[at as int] == bit_of(self.bytes@[(at / 8) as int], (at % 8) as int));
                lemma_number_bound(now);
                reveal_with_fuel(limit, 17);
                assert(limit((i + 1) as nat) <= 65536) by {
                    lemma_limit_grows((i + 1) as nat, 16);
                    lemma_limits();
                }
            }
            value = value * 2 + (if one {
                1
            } else {
                0
            });
            i = i + 1;
        }
        self.pos = start + count;
        proof {
            assert(self.rest() =~= bits.skip(count as int));
            lemma_number_bound(bits.take(count as int));
        }
        Ok(value)
    }
}

/// The place behind the last bit of the bytes that is set; zero where no
/// bit is set.
pub fn set_upto(bytes: &[u8]) -> (end: usize)
    requires
        8 * bytes@.len() <= usize::MAX,
    ensures
        end <= bits_of(bytes@).len(),
        all_zero(bits_of(bytes@).skip(end as int)),
        end > 0 ==> bits_of(bytes@)[end - 1],
{
    let ghost bits = bits_of(bytes@);
    let mut end: usize = 8 * bytes.len();
    while end > 0
        invariant
            0 <= end <= bits.len(),
            bits == bits_of(bytes@),
            bits.len() == 8 * bytes@.len(),
            all_zero(bits.skip(end as int)),
        ensures
            end > 0 ==> bits[end - 1],
        decreases end,
    {
        let at = end - 1;
        let byte = bytes[at / 8];
        let shift = (7 - at % 8) as u8;
        let one = (byte >> shift) & 1 == 1;
        proof {
            assert(bits[at as int] == bit_of(bytes@[(at / 8) as int], (at % 8) as int));
            assert(bits[at as int] == one);
        }
        if one {
            break;
        }
        proof {
            assert forall|i: int| 0 <= i < bits.skip(at as int).len() implies !#[trigger] bits.skip(
                at as int,
            )[i] by {
                if i > 0 {
                    assert(bits.skip(end as int)[i - 1] == bits.skip(at as int)[i]);
                }
            }
        }
        end = at;
    }
    end
}

/// More bits have a higher limit.
pub proof fn lemma_limit_grows(a: nat, b: nat)
    requires
        a <= b,
    ensures
        limit(a) <= limit(b),
    decreases b,
{
    if a < b {
        lemma_limit_grows(a, (b - 1) as nat);
    }
}

/// Setting one bit of a byte leaves its other bits as they are.
proof fn lemma_set_bit(x: u8, s: u8, t: u8)
    requires
        s < 8,
        t < 8,
    ensures
        ((x | (1u8 << s)) >> t) & 1 == (if t == s {
            1u8
        } else {
            (x >> t) & 1
        }),
{
    assert(((x | (1u8 << s)) >> t) & 1 == (if t == s {
        1u8
    } else {
        (x >> t) & 1
    })) by (bit_vector)
        requires
            s < 8,
            t < 8,
    ;
}

/// The byte zero has no bit set.
proof fn lemma_zero_byte(t: u8)
    requires
        t < 8,
    ensures
        (0u8 >> t) & 1 == 0,
{
    assert((0u8 >> t) & 1 == 0) by (bit_vector)
        requires
            t < 8,
    ;
}

/// Writes bits into bytes, from the front on; the last byte is filled up
/// with zero bits.
pub struct BitWriter {
    bytes: Vec<u8>,
    bit_len: usize,
}

impl BitWriter {
    #[verifier::type_invariant]
    spec fn wf(self) -> bool {
        &&& self.bit_len <= 8 * self.bytes@.len() < self.bit_len + 8
        &&& forall|i: int|
            self.bit_len <= i < 8 * self.bytes@.len() ==> !#[trigger] bits_of(self.bytes@)[i]
    }

    /// The bits that were written.
    pub closed spec fn view(&self) -> Seq<bool> {
        bits_of(self.bytes@).take(self.bit_len as int)
    }

    /// The bytes that hold the bits.
    pub closed spec fn bytes(&self) -> Seq<u8> {
        self.bytes@
    }

    /// A writer that holds no bits.
    pub fn new() -> (r: Self)
        ensures
            r.view() == Seq::<bool>::empty(),
    {
        let r = BitWriter { bytes: Vec::new(), bit_len: 0 };
        assert(r.view() =~= Seq::<bool>::empty());
        r
    }

    /// The number of bits that were written.
    pub fn bit_len(&self) -> (r: usize)
        ensures
            r == self.view().len(),
    {
        proof {
            use_type_invariant(self);
        }
        self.bit_len
    }

    /// The number of bytes that hold the bits.
    pub fn byte_len(&self) -> (r: usize)
        ensures
            r == self.bytes().len(),
            8 * r < self.view().len() + 8,
            self.view().len() <= 8 * r,
    {
        proof {
            use_type_invariant(self);
        }
        self.bytes.len()
    }

    /// Writes one bit.
    pub fn write_bit(&mut self, bit: bool)
        requires
            old(self).view().len() < usize::MAX - 8,
        ensures
            final(self).view() == old(self).view().push(bit),
    {
        proof {
            use_type_invariant(&*self);
        }
        let mut taken = BitWriter { bytes: Vec::new(), bit_len: 0 };
        proof {
            assert(8 * taken.bytes@.len() == 0);
        }
        std::mem::swap(self, &mut taken);
        let BitWriter { mut bytes, bit_len } = taken;
        let ghost before = bytes@;
        let offset = bit_len % 8;
        if offset == 0 {
            bytes.push(if bit {
                128
            } else {
                0
            });
            proof {
                let now = bytes@;
                assert forall|i: int| 0 <= i < 8 * before.len() implies bits_of(now)[i] == bits_of(
                    before,
                )[i] by {}
                assert forall|t: int| 0 <= t < 8 implies bit_of(now[before.len() as int], t) == (bit
                    && t == 0) by {
                    lemma_zero_byte((7 - t) as u8);
                    lemma_set_bit(0u8, 7, (7 - t) as u8);
                    assert(0u8 | (1u8 << 7u8) == 128u8) by (bit_vector);
                }
            }
        } else {
            let index = bytes.len() - 1;
            let old_byte = bytes[index];
            let shift = (7 - offset) as u8;
            let new_byte = if bit {
                old_byte | (1u8 << shift)
            } else {
                old_byte
            };
            bytes.set(index, new_byte);
            proof {
                let now = bytes@;
                assert forall|t: int| 0 <= t < 8 implies bit_of(new_byte, t) == (if t == offset {
                    bit
                } else {
                    bit_of(old_byte, t)
                }) by {
                    lemma_set_bit(old_byte, shift, (7 - t) as u8);
                    if t == offset {
                        assert(!bits_of(before)[bit_len as int]);
                    }
                }
                assert forall|i: int| 0 <= i < 8 * before.len() && i != bit_len implies bits_of(now)[i]
                    == bits_of(before)[i] by {}
            }
        }
        let ghost now = bytes@;
        proof {
            assert forall|i: int| bit_len + 1 <= i < 8 * now.len() implies !#[trigger] bits_of(now)[i] by {
                if offset != 0 {
                    assert(!bits_of(before)[i]);
                }
            }
            assert(bits_of(now).take(bit_len + 1) =~= bits_of(before).take(bit_len as int).push(bit));
        }
        *self = BitWriter { bytes, bit_len: bit_len + 1 };
    }

    /// Writes the `count` lowest bits of `value`, the highest of them first.
    pub fn write_int(&mut self, value: u16, count: usize)
        requires
            count <= 16,
            old(self).view().len() < usize::MAX - 32,
        ensures
            final(self).view() == old(self).view() + bits_to(value as nat, count as nat),
    {
        let mut i: usize = count;
        let ghost start = self.view();
        proof {
            assert(bits_to(value as nat, count as nat).take(0) =~= Seq::<bool>::empty());
            assert(start + Seq::<bool>::empty() =~= start);
            lemma_bits_len(value as nat, count as nat);
        }
        while i > 0
            invariant
                0 <= i <= count <= 16,
                start.len() < usize::MAX - 32,
                bits_to(value as nat, count as nat).len() == count,
                self.view() == start + bits_to(value as nat, count as nat).take(count - i),
            decreases i,
        {
            i = i - 1;
            let bit = (value >> (i as u16)) & 1 == 1;
            proof {
                let all = bits_to(value as nat, count as nat);
                lemma_bit_at(value, count, (count - 1 - i) as int);
                assert(all.take(count - i) =~= all.take(count - i - 1).push(all[count - i - 1]));
                assert((start + all.take(count - i - 1)).push(bit) =~= start + all.take(count - i));
            }
            self.write_bit(bit);
        }
        proof {
            let all = bits_to(value as nat, count as nat);
            assert(all.take(count as int) =~= all);
        }
    }

    /// The bytes that hold the bits, with the number of bits.
    pub fn finish(self) -> (r: (Vec<u8>, usize))
        ensures
            r.1 == self.view().len(),
            r.0@ == self.bytes(),
            r.1 <= 8 * r.0@.len() < r.1 + 8,
            bits_of(r.0@).take(r.1 as int) == self.view(),
            all_zero(bits_of(r.0@).skip(r.1 as int)),
    {
        proof {
            use_type_invariant(&self);
            assert(all_zero(bits_of(self.bytes@).skip(self.bit_len as int)));
        }
        (self.bytes, self.bit_len)
    }
}

/// The bit of a number that a shift brings to the lowest place is the bit of
/// its bits at the place counted from the other end.
proof fn lemma_bit_at(value: u16, count: usize, at: int)
    requires
        count <= 16,
        0 <= at < count,
    ensures
        bits_to(value as nat, count as nat).len() == count,
        bits_to(value as nat, count as nat)[at] == ((value >> ((count - 1 - at) as u16)) & 1 == 1),
    decreases count,
{
    lemma_bits_len(value as nat, count as nat);
    let half = value / 2;
    lemma_bits_len(half as nat, (count - 1) as nat);
    if at == count - 1 {
        assert((value >> 0u16) & 1 == value % 2) by (bit_vector);
    } else {
        lemma_bit_at(half, (count - 1) as usize, at);
        let s = (count - 1 - at) as u16;
        assert(((value / 2) >> ((s - 1) as u16)) & 1 == (value >> s) & 1) by (bit_vector)
            requires
                1 <= s < 16,
        ;
    }
}

} // verus!
