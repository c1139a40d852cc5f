//! AwaTalk: bits spelled as words. A source starts with `awa`; behind it,
//! every ` awa` is a zero bit and every `wa` a one bit, in small or capital
//! letters, and whatever else stands between them counts for nothing.
use crate::awatism::AwaTism;
use crate::bits::{all_zero, bits_of, BitError, BitWriter};
use crate::codec::{all_valid, decoded_upto, encoded_all, lemma_decode_encode_all};
use vstd::prelude::*;

verus! {

/// Why a source is no AwaTalk.
#[derive(Debug, Clone, Copy, PartialEq, Eq, Hash, Structural)]
pub enum ParseError {
    /// The source does not start with `awa`.
    NoHeader,
    /// The bits could not be written.
    BitError(BitError),
}

/// The small letter of an ASCII capital letter, and any other byte as it is.
pub open spec fn lower(c: u8) -> u8 {
    if 65 <= c <= 90 {
        (c + 32) as u8
    } else {
        c
    }
}

/// Two bytes are the same but for the case of an ASCII letter.
pub open spec fn fits(p: u8, c: u8) -> bool {
    lower(p) == lower(c)
}

/// The word of a zero bit: ` awa`.
pub open spec fn zero_word() -> Seq<u8> {
    seq![32u8, 97, 119, 97]
}

/// The word of a one bit: `wa`.
pub open spec fn one_word() -> Seq<u8> {
    seq![119u8, 97]
}

/// The bits that a text spells, read by two matchers of which the one for
/// ` awa` has found `zi` of its bytes and the one for `wa` `oi` of its: each
/// byte of the text first goes to the matcher for ` awa` and, unless that
/// completes its word, to the one for `wa`; a completed word gives its bit
/// and sets both matchers back.
pub open spec fn extract(src: Seq<u8>, zi: int, oi: int) -> Seq<bool>
    decreases src.len(),
{
    if src.len() == 0 {
        Seq::empty()
    } else {
        let c = src[0];
        let rest = src.skip(1);
        let zero_fits = 0 <= zi < 4 && fits(zero_word()[zi], c);
        let one_fits = 0 <= oi < 2 && fits(one_word()[oi], c);
        let zn = if zero_fits {
            zi + 1
        } else {
            zi
        };
        if zero_fits && zn == 4 {
            seq![false] + extract(rest, 0, 0)
        } else if one_fits && oi + 1 == 2 {
            seq![true] + extract(rest, 0, 0)
        } else if one_fits {
            extract(rest, zn, oi + 1)
        } else {
            extract(rest, zn, oi)
        }
    }
}

/// The text starts with `awa`.
pub open spec fn has_header(src: Seq<u8>) -> bool {
    src.len() >= 3 && fits(97, src[0]) && fits(119, src[1]) && fits(97, src[2])
}

/// The bits of an AwaTalk source; `None` where it lacks its header.
pub open spec fn awatalk_bits(src: Seq<u8>) -> Option<Seq<bool>> {
    if has_header(src) {
        Some(extract(src.skip(3), 0, 0))
    } else {
        None
    }
}

/// The words of the bits, one after the other.
pub open spec fn words(bits: Seq<bool>) -> Seq<u8>
    decreases bits.len(),
{
    if bits.len() == 0 {
        Seq::empty()
    } else {
        (if bits[0] {
            one_word()
        } else {
            zero_word()
        }) + words(bits.skip(1))
    }
}

/// The AwaTalk source of the bits.
pub open spec fn rendered(bits: Seq<bool>) -> Seq<u8> {
    seq![97u8, 119, 97] + words(bits)
}

/// The words of bits spell those bits.
pub proof fn lemma_extract_words(bits: Seq<bool>)
    ensures
        extract(words(bits), 0, 0) == bits,
    decreases bits.len(),
{
    if bits.len() > 0 {
        let rest = words(bits.skip(1));
        lemma_extract_words(bits.skip(1));
        if bits[0] {
            let s0 = one_word() + rest;
            let s1 = s0.skip(1);
            assert(s0[0] == 119);
            assert(s1[0] == 97);
            assert(s1.skip(1) =~= rest);
            assert(extract(s1, 0, 1) =~= seq![true] + extract(rest, 0, 0));
            assert(extract(s0, 0, 0) =~= extract(s1, 0, 1));
            assert(seq![true] + bits.skip(1) =~= bits);
        } else {
            let s0 = zero_word() + rest;
            let s1 = s0.skip(1);
            let s2 = s1.skip(1);
            let s3 = s2.skip(1);
            assert(s0[0] == 32);
            assert(s1[0] == 97);
            assert(s2[0] == 119);
            assert(s3[0] == 97);
            assert(s3.skip(1) =~= rest);
            assert(extract(s3, 3, 1) =~= seq![false] + extract(rest, 0, 0));
            assert(extract(s2, 2, 0) =~= extract(s3, 3, 1));
            assert(extract(s1, 1, 0) =~= extract(s2, 2, 0));
            assert(extract(s0, 0, 0) =~= extract(s1, 1, 0));
            assert(seq![false] + bits.skip(1) =~= bits);
        }
    }
}

/// Law: the AwaTalk source of bits spells those bits.
pub proof fn lemma_awatalk_round_trip(bits: Seq<bool>)
    ensures
        awatalk_bits(rendered(bits)) == Some(bits),
{
    let src = rendered(bits);
    assert(src[0] == 97 && src[1] == 119 && src[2] == 97);
    assert(src.skip(3) =~= words(bits));
    lemma_extract_words(bits);
}

/// Law: a code that is written as bits, spelled as AwaTalk, read from the
/// AwaTalk again and decoded up to the number of its bits is the code that
/// it was. `bytes` are any bytes that hold the bits that were read, with
/// whatever padding behind them.
pub proof fn lemma_awatalk_idempotent(code: Seq<AwaTism>, bytes: Seq<u8>)
    requires
        all_valid(code),
        awatalk_bits(rendered(encoded_all(code))) matches Some(bits) ==> bits.len() <= bits_of(
            bytes,
        ).len() && bits_of(bytes).take(bits.len() as int) == bits,
    ensures
        awatalk_bits(rendered(encoded_all(code))) == Some(encoded_all(code)),
        decoded_upto(bits_of(bytes), 0, encoded_all(code).len()) == Ok::<Seq<AwaTism>, BitError>(
            code,
        ),
{
    let bits = encoded_all(code);
    lemma_awatalk_round_trip(bits);
    let all = bits_of(bytes);
    let back = all.skip(bits.len() as int);
    lemma_decode_encode_all(Seq::empty(), code, back);
    assert(Seq::<bool>::empty() + bits + back =~= all);
}

/// The small letter of an ASCII capital letter, and any other byte as it is.
pub fn to_lower(c: u8) -> (r: u8)
    ensures
        r == lower(c),
{
    if c >= 65 && c <= 90 {
        c + 32
    } else {
        c
    }
}

/// Finds the bytes of a word in a text, one after the other, whatever
/// stands between them.
pub struct StringMatcher {
    pub pattern: Vec<u8>,
    pub index: usize,
}

impl StringMatcher {
    /// A matcher of `pattern` that has matched nothing yet.
    pub fn new(pattern: &[u8]) -> (r: Self)
        ensures
            r.pattern@ == pattern@,
            r.index == 0,
    {
        StringMatcher { pattern: vstd::slice::slice_to_vec(pattern), index: 0 }
    }

    /// Takes the byte for the next of the word if it fits, and says whether
    /// the word is complete with it.
    pub fn push(&mut self, char: u8) -> (r: bool)
        requires
            old(self).index < old(self).pattern@.len(),
        ensures
            final(self).pattern == old(self).pattern,
            final(self).index == (if fits(old(self).pattern@[old(self).index as int], char) {
                old(self).index + 1
            } else {
                old(self).index as int
            }),
            r == (fits(old(self).pattern@[old(self).index as int], char) && old(self).index + 1
                == old(self).pattern@.len()),
    {
        let len = self.pattern.len();
        if to_lower(self.pattern[self.index]) == to_lower(char) {
            self.index = self.index + 1;
            return self.index == len;
        }
        false
    }

    /// Starts the match anew.
    pub fn reset(&mut self)
        ensures
            final(self).pattern == old(self).pattern,
            final(self).index == 0,
    {
        self.index = 0;
    }
}

/// The bits of an AwaTalk source, packed into bytes, with their number.
pub fn load_awatalk(src: &[u8]) -> (r: Result<(Vec<u8>, usize), ParseError>)
    ensures
        match awatalk_bits(src@) {
            None => r == Err::<(Vec<u8>, usize), ParseError>(ParseError::NoHeader),
            Some(bits) => r matches Ok((bytes, length)) && length == bits.len() && length <= 8
                * bytes@.len() < length + 8 && bits_of(bytes@).take(length as int) == bits
                && all_zero(bits_of(bytes@).skip(length as int)),
        },
{
    if src.len() < 3 || !(to_lower(src[0]) == 97 && to_lower(src[1]) == 119 && to_lower(src[2])
        == 97) {
        return Err(ParseError::NoHeader);
    }
    let mut writer = BitWriter::new();
    let mut zero_pattern: Vec<u8> = Vec::new();
    zero_pattern.push(32);
    zero_pattern.push(97);
    zero_pattern.push(119);
    zero_pattern.push(97);
    let mut one_pattern: Vec<u8> = Vec::new();
    one_pattern.push(119);
    one_pattern.push(97);
    let mut zero = StringMatcher::new(zero_pattern.as_slice());
    let mut one = StringMatcher::new(one_pattern.as_slice());
    let ghost body = src@.skip(3);
    let ghost whole = extract(body, 0, 0);
    let mut i: usize = 3;
    proof {
        assert(zero.pattern@ =~= zero_word());
        assert(one.pattern@ =~= one_word());
        assert(body.skip(0) =~= body);
        assert(writer@ + whole =~= whole);
    }
    while i < src.len()
        invariant
            3 <= i <= src@.len(),
            body == src@.skip(3),
            zero.pattern@ == zero_word(),
            one.pattern@ == one_word(),
            zero.index < 4,
            one.index < 2,
            2 * writer@.len() + zero.index <= i,
            2 * writer@.len() + one.index <= i,
            whole == writer@ + extract(body.skip(i - 3), zero.index as int, one.index as int),
        decreases src@.len() - i,
    {
        let ghost rest = body.skip(i - 3);
        let ghost written = writer@;
        let char = src[i];
        proof {
            assert(rest[0] == char);
            assert(rest.skip(1) =~= body.skip(i - 2));
        }
        if zero.push(char) {
            writer.write_bit(false);
            zero.reset();
            one.reset();
            proof {
                assert(written + (seq![false] + extract(body.skip(i - 2), 0, 0)) =~= writer@
                    + extract(body.skip(i - 2), 0, 0));
            }
        } else if one.push(char) {
            writer.write_bit(true);
            zero.reset();
            one.reset();
            proof {
                assert(written + (seq![true] + extract(body.skip(i - 2), 0, 0)) =~= writer@
                    + extract(body.skip(i - 2), 0, 0));
            }
        }
        i = i + 1;
    }
    proof {
        assert(body.skip(src@.len() - 3) =~= Seq::<u8>::empty());
        assert(writer@ + Seq::<bool>::empty() =~= writer@);
    }
    let (bytes, length) = writer.finish();
    Ok((bytes, length))
}

/// The AwaTalk source of the first `length` bits of the bytes.
pub fn render_awatalk(bytes: &[u8], length: usize) -> (r: Vec<u8>)
    requires
        length <= 8 * bytes@.len(),
    ensures
        r@ == rendered(bits_of(bytes@).take(length as int)),
{
    let ghost bits = bits_of(bytes@).take(length as int);
    let mut out: Vec<u8> = Vec::new();
    out.push(97);
    out.push(119);
    out.push(97);
    let mut i: usize = length;
    proof {
        assert(bits.skip(length as int) =~= Seq::<bool>::empty());
    }
    let mut tail: Vec<u8> = Vec::new();
    // The words are laid out from the last bit to the first, each word
    // turned round, and the whole is turned round at the end.
    while i > 0
        invariant
            0 <= i <= length,
            length <= 8 * bytes@.len(),
            bits == bits_of(bytes@).take(length as int),
            Seq::new(tail@.len(), |j: int| tail@[tail@.len() - 1 - j]) == words(bits.skip(i as int)),
        decreases i,
    {
        i = i - 1;
        let ghost before = tail@;
        let byte = bytes[i / 8];
        let one = (byte >> ((7 - i % 8) as u8)) & 1 == 1;
        proof {
            assert(bits[i as int] == one);
            assert(bits.skip(i as int)[0] == one);
            assert(bits.skip(i as int).skip(1) =~= bits.skip(i + 1));
        }
        tail.push(97);
        tail.push(119);
        if !one {
            tail.push(97);
            tail.push(32);
        }
        proof {
            let now = tail@;
            let turned = Seq::new(now.len(), |j: int| now[now.len() - 1 - j]);
            let was = Seq::new(before.len(), |j: int| before[before.len() - 1 - j]);
            if one {
                assert(turned =~= one_word() + was);
            } else {
                assert(turned =~= zero_word() + was);
            }
        }
    }
    let mut k = tail.len();
    let ghost turned = Seq::new(tail@.len(), |j: int| tail@[tail@.len() - 1 - j]);
    proof {
        assert(bits.skip(0) =~= bits);
        assert(out@ =~= seq![97u8, 119, 97] + turned.take(0));
    }
    while k > 0
        invariant
            0 <= k <= tail@.len(),
            turned == Seq::new(tail@.len(), |j: int| tail@[tail@.len() - 1 - j]),
            out@ == seq![97u8, 119, 97] + turned.take(tail@.len() - k),
        decreases k,
    {
        k = k - 1;
        out.push(tail[k]);
        proof {
            assert(out@ =~= seq![97u8, 119, 97] + turned.take(tail@.len() - k));
        }
    }
    proof {
        assert(turned.take(tail@.len() as int) =~= turned);
    }
    out
}

} // verus!
