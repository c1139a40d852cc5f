//! The interpreter: what one instruction does to the Abyss and to the output.
use crate::abyss::Abyss;
use crate::abyss::{
    combine_holds, counted, divides, leaves, merged, popped, size, submerged, surrounded,
    text_bubble, Tree, Value,
};
use crate::awascii::{ascii_of, code_of, codes, AwaSCII};
use crate::awatism::AwaTism;
use crate::cast::byte_of_value;
use crate::combine::{combine_fn, computes, lemma_combine_fn, lemma_total};
use crate::error::Error as CoreError;
use crate::text::{decimal_of, leading_number, parse_number_input, push_decimal};
use crate::u5::u5;
use vstd::prelude::*;

verus! {

/// Why an instruction could not be carried out.
#[derive(Debug, Clone, Copy, PartialEq, Eq, Hash, Structural)]
pub enum Error {
    /// The input holds no number.
    NoNumber,
    /// The Abyss holds fewer bubbles than the instruction needs.
    NotEnoughBubbles(u5),
    /// The Abyss is full: it took no new bubble. A store that keeps the
    /// contract of `Abyss` takes every bubble, so this comes only from a
    /// store that was not verified.
    NoSpace,
    /// A value does not fit.
    CoreError(CoreError),
    /// No label of that number is in the program.
    UnknownLabel(u5),
    /// A division has no result: the divisor is zero, or the quotient is no
    /// `Value`.
    Arithmetic,
}

/// Where the program goes on.
#[derive(Debug, Clone, Copy, PartialEq, Eq, Hash, Structural)]
pub enum ContinueAt {
    /// Nowhere: the program is done.
    Halt,
    /// At the next instruction.
    Next,
    /// At the instruction after the next.
    SkipNext,
    /// After the label.
    Label(u5),
}

/// The AwaSCII codes of the bytes of `src` that have one, in order.
pub open spec fn codes_of(src: Seq<u8>) -> Seq<u8>
    decreases src.len(),
{
    if src.len() == 0 {
        Seq::empty()
    } else {
        match code_of(src.last()) {
            Some(c) => codes_of(src.drop_last()).push(c),
            None => codes_of(src.drop_last()),
        }
    }
}

/// Appends the AwaSCII characters of a line of input, skipping what has none.
pub fn parse_awascii_input(src: &[u8], out: &mut Vec<AwaSCII>)
    ensures
        codes(final(out)@) == codes(old(out)@) + codes_of(src@),
{
    let mut i: usize = 0;
    proof {
        assert(src@.take(0) =~= Seq::<u8>::empty());
        assert(codes(out@) =~= codes(old(out)@) + codes_of(src@.take(0)));
    }
    while i < src.len()
        invariant
            0 <= i <= src@.len(),
            codes(out@) == codes(old(out)@) + codes_of(src@.take(i as int)),
        decreases src@.len() - i,
    {
        let ghost before = out@;
        proof {
            assert(src@.take(i + 1).drop_last() =~= src@.take(i as int));
            assert(src@.take(i + 1).last() == src@[i as int]);
        }
        match AwaSCII::from_ascii(src[i]) {
            Some(c) => {
                out.push(c);
                proof {
                    assert(codes(out@) =~= codes(before).push(c@));
                    assert(codes(out@) =~= codes(old(out)@) + codes_of(src@.take(i + 1)));
                }
            },
            None => {},
        }
        i = i + 1;
    }
    proof {
        assert(src@.take(src@.len() as int) =~= src@);
    }
}

/// The sum of two values, wrapping round at the bounds of `Value`.
pub open spec fn sum_of(a: Value, b: Value) -> Value {
    a.wrapping_add(b)
}

/// The difference of two values, wrapping round at the bounds of `Value`.
pub open spec fn difference_of(a: Value, b: Value) -> Value {
    a.wrapping_sub(b)
}

/// The product of two values, wrapping round at the bounds of `Value`.
pub open spec fn product_of(a: Value, b: Value) -> Value {
    a.wrapping_mul(b)
}

/// The quotient of two values, rounded towards zero; zero where the
/// division has no result.
pub open spec fn quotient_of(a: Value, b: Value) -> Value {
    match a.checked_div(b) {
        Some(q) => q,
        None => 0,
    }
}

/// The remainder of the division of two values, with the sign of the
/// dividend; zero where the division has no result.
pub open spec fn remainder_of(a: Value, b: Value) -> Value {
    match a.checked_rem(b) {
        Some(q) => q,
        None => 0,
    }
}

/// The ASCII bytes of the values, each taken as an AwaSCII code.
pub open spec fn glyphs(values: Seq<Value>) -> Seq<u8> {
    Seq::new(values.len(), |i: int| ascii_of(values[i] as u8))
}

/// Every value is an AwaSCII code.
pub open spec fn all_codes(values: Seq<Value>) -> bool {
    forall|i: int| 0 <= i < values.len() ==> 0 <= #[trigger] values[i] < 64
}

/// The values as decimal numbers with one blank between each two.
pub open spec fn numbers(values: Seq<Value>) -> Seq<u8>
    decreases values.len(),
{
    if values.len() == 0 {
        Seq::empty()
    } else if values.len() == 1 {
        decimal_of(values[0] as int)
    } else {
        numbers(values.drop_last()) + seq![32u8] + decimal_of(values.last() as int)
    }
}

/// What an instruction leaves behind: its result, the chain and the output.
pub struct Outcome {
    pub result: Result<ContinueAt, Error>,
    pub chain: Seq<Tree>,
    pub output: Seq<u8>,
}

/// The outcome of an instruction that needs `need` bubbles and finds fewer.
pub open spec fn short_of(need: u5, chain: Seq<Tree>, output: Seq<u8>) -> Outcome {
    Outcome { result: Err(Error::NotEnoughBubbles(need)), chain, output }
}

/// The outcome of an instruction that goes on to the next one.
pub open spec fn goes_on(chain: Seq<Tree>, output: Seq<u8>) -> Outcome {
    Outcome { result: Ok(ContinueAt::Next), chain, output }
}

/// The outcome of a comparison of the top two bubbles.
pub open spec fn compared(
    holds: spec_fn(Value, Value) -> bool,
    chain: Seq<Tree>,
    output: Seq<u8>,
) -> Outcome {
    if chain.len() < 2 {
        short_of(u5::of(2), chain, output)
    } else {
        let passed = match (chain[0], chain[1]) {
            (Tree::Single(a), Tree::Single(b)) => holds(a, b),
            _ => false,
        };
        Outcome {
            result: Ok(
                if passed {
                    ContinueAt::Next
                } else {
                    ContinueAt::SkipNext
                },
            ),
            chain,
            output,
        }
    }
}

/// The outcome of an operation that combines the top two bubbles.
pub open spec fn calculated(
    f: spec_fn(Value, Value) -> Value,
    chain: Seq<Tree>,
    output: Seq<u8>,
) -> Outcome {
    if chain.len() < 2 {
        short_of(u5::of(2), chain, output)
    } else {
        goes_on(seq![combine_fn(f, f, false, chain[0], chain[1])] + chain.skip(2), output)
    }
}

/// What the instruction `awatism` leaves behind where it finds the chain
/// `chain`, the output `output` and, where it reads, the line `input`.
pub open spec fn outcome(
    chain: Seq<Tree>,
    output: Seq<u8>,
    awatism: AwaTism,
    input: Seq<u8>,
) -> Outcome {
    match awatism {
        AwaTism::NoOp => goes_on(chain, output),
        AwaTism::Label(_) => goes_on(chain, output),
        AwaTism::Terminate => Outcome { result: Ok(ContinueAt::Halt), chain, output },
        AwaTism::Jump(label) => Outcome { result: Ok(ContinueAt::Label(label)), chain, output },
        AwaTism::Print => if chain.len() == 0 {
            short_of(u5::of(1), chain, output)
        } else if all_codes(leaves(chain[0])) {
            goes_on(chain.skip(1), output + glyphs(leaves(chain[0])))
        } else {
            Outcome { result: Err(Error::CoreError(CoreError::OutOfBounds(6))), chain, output }
        },
        AwaTism::PrintNum => if chain.len() == 0 {
            short_of(u5::of(1), chain, output)
        } else {
            goes_on(chain.skip(1), output + numbers(leaves(chain[0])))
        },
        AwaTism::Read => if input.len() == 0 {
            goes_on(chain, output)
        } else {
            goes_on(seq![text_bubble(codes_of(input))] + chain, output)
        },
        AwaTism::ReadNum => match leading_number(input) {
            Some(v) => goes_on(seq![Tree::Single(v)] + chain, output),
            None => Outcome { result: Err(Error::NoNumber), chain, output },
        },
        AwaTism::Blow(v) => goes_on(seq![Tree::Single(v as Value)] + chain, output),
        AwaTism::Submerge(distance) => if chain.len() == 0 {
            short_of(distance, chain, output)
        } else {
            goes_on(submerged(chain, distance@ as nat), output)
        },
        AwaTism::Pop => if chain.len() == 0 {
            short_of(u5::of(1), chain, output)
        } else {
            goes_on(popped(chain), output)
        },
        AwaTism::DoublePop => if chain.len() == 0 {
            short_of(u5::of(1), chain, output)
        } else {
            goes_on(chain.skip(1), output)
        },
        AwaTism::Duplicate => if chain.len() == 0 {
            short_of(u5::of(1), chain, output)
        } else {
            goes_on(seq![chain[0]] + chain, output)
        },
        AwaTism::Surround(count) => if count@ > chain.len() {
            short_of(count, chain, output)
        } else {
            goes_on(surrounded(chain, count@ as nat), output)
        },
        AwaTism::Merge => if chain.len() < 2 {
            short_of(u5::of(2), chain, output)
        } else {
            goes_on(merged(chain), output)
        },
        AwaTism::Count => if chain.len() == 0 || size(chain[0]) > isize::MAX {
            short_of(u5::of(1), chain, output)
        } else {
            goes_on(counted(chain), output)
        },
        AwaTism::Add => calculated(|a: Value, b: Value| sum_of(a, b), chain, output),
        AwaTism::Subtract => calculated(|a: Value, b: Value| difference_of(a, b), chain, output),
        AwaTism::Multiply => calculated(|a: Value, b: Value| product_of(a, b), chain, output),
        AwaTism::Divide => if chain.len() < 2 {
            short_of(u5::of(2), chain, output)
        } else if !combine_holds(|a: Value, b: Value| divides(a, b), chain[0], chain[1]) {
            Outcome { result: Err(Error::Arithmetic), chain, output }
        } else {
            goes_on(
                seq![
                    combine_fn(
                        |a: Value, b: Value| quotient_of(a, b),
                        |a: Value, b: Value| remainder_of(a, b),
                        true,
                        chain[0],
                        chain[1],
                    ),
                ] + chain.skip(2),
                output,
            )
        },
        AwaTism::EqualTo => compared(|a: Value, b: Value| a == b, chain, output),
        AwaTism::LessThan => compared(|a: Value, b: Value| a < b, chain, output),
        AwaTism::GreaterThan => compared(|a: Value, b: Value| a > b, chain, output),
    }
}

/// Runs instructions one at a time on an Abyss, and gathers what they print.
pub struct Interpreter<A: Abyss> {
    abyss: A,
    output: Vec<u8>,
}

impl<A: Abyss> Interpreter<A> {
    /// The Abyss is in order.
    pub open spec fn inv(&self) -> bool {
        self.abyss_view().inv()
    }

    /// The Abyss.
    pub closed spec fn abyss_view(&self) -> A {
        self.abyss
    }

    /// What was printed and not yet taken.
    pub closed spec fn pending(&self) -> Seq<u8> {
        self.output@
    }

    /// An interpreter on `abyss` that has printed nothing.
    pub fn new(abyss: A) -> (r: Self)
        requires
            abyss.inv(),
        ensures
            r.inv(),
            r.abyss_view() == abyss,
            r.pending() == Seq::<u8>::empty(),
    {
        Interpreter { abyss, output: Vec::new() }
    }

    /// The Abyss.
    pub fn abyss(&self) -> (r: &A)
        ensures
            *r == self.abyss_view(),
    {
        &self.abyss
    }

    /// The Abyss, which the interpreter gives up.
    pub fn into_abyss(self) -> (r: A)
        requires
            self.inv(),
        ensures
            r == self.abyss_view(),
            r.inv(),
    {
        self.abyss
    }

    /// Hands out what was printed since the last call.
    pub fn take_output(&mut self) -> (r: Vec<u8>)
        ensures
            r@ == old(self).pending(),
            final(self).pending() == Seq::<u8>::empty(),
            final(self).abyss_view() == old(self).abyss_view(),
    {
        let mut out = Vec::new();
        std::mem::swap(&mut self.output, &mut out);
        out
    }

    /// Carries out one instruction. `input` is the line that was read for
    /// it (empty at the end of the input); other instructions than `Read`
    /// and `ReadNum` make no use of it.
    pub fn next(&mut self, awatism: AwaTism, input: &[u8]) -> (r: Result<ContinueAt, Error>)
        requires
            old(self).inv(),
        ensures
            final(self).inv(),
            outcome(old(self).abyss_view().view(), old(self).pending(), awatism, input@) == (Outcome {
                result: r,
                chain: final(self).abyss_view().view(),
                output: final(self).pending(),
            }),
    {
        let ghost chain = self.abyss.view();
        proof {
            u5::lemma_of(1);
            u5::lemma_of(2);
        }
        match awatism {
            AwaTism::NoOp => {},
            AwaTism::Print => {
                let shown = |v: Value| -> (r: Result<u8, CoreError>)
                    ensures
                        0 <= v < 64 ==> r == Ok::<u8, CoreError>(ascii_of(v as u8)),
                        !(0 <= v < 64) ==> r == Err::<u8, CoreError>(CoreError::OutOfBounds(6)),
                    {
                        match byte_of_value(v) {
                            None => Err(CoreError::OutOfBounds(6)),
                            Some(code) => {
                                if code >= 64 {
                                    Err(CoreError::OutOfBounds(6))
                                } else {
                                    Ok(AwaSCII::new_unchecked(code).to_ascii())
                                }
                            },
                        }
                    };
                match self.abyss.consume(shown) {
                    Ok(Some(mut bytes)) => {
                        proof {
                            let values = leaves(chain[0]);
                            assert forall|i: int| 0 <= i < values.len() implies 0 <= #[trigger] values[i]
                                < 64 && bytes@[i] == ascii_of(values[i] as u8) by {
                                assert(call_ensures(shown, (values[i],), Ok::<u8, CoreError>(bytes@[i])));
                            }
                            assert(bytes@ =~= glyphs(values));
                        }
                        self.output.append(&mut bytes);
                    },
                    Ok(None) => {
                        return Err(Error::NotEnoughBubbles(u5::one()));
                    },
                    Err(e) => {
                        proof {
                            let values = leaves(chain[0]);
                            let i = choose|i: int|
                                0 <= i < values.len() && call_ensures(
                                    shown,
                                    (#[trigger] values[i],),
                                    Err::<u8, CoreError>(e),
                                );
                            assert(!(0 <= values[i] < 64));
                        }
                        return Err(Error::CoreError(e));
                    },
                }
            },
            AwaTism::PrintNum => {
                let same = |v: Value| -> (r: Result<Value, CoreError>)
                    ensures
                        r == Ok::<Value, CoreError>(v),
                    { Ok(v) };
                match self.abyss.consume(same) {
                    Ok(Some(values)) => {
                        proof {
                            let wanted = leaves(chain[0]);
                            assert forall|i: int| 0 <= i < wanted.len() implies values@[i] == wanted[i] by {
                                assert(call_ensures(
                                    same,
                                    (wanted[i],),
                                    Ok::<Value, CoreError>(values@[i]),
                                ));
                            }
                            assert(values@ =~= wanted);
                        }
                        let ghost start = self.output@;
                        let mut i: usize = 0;
                        proof {
                            assert(values@.take(0) =~= Seq::<Value>::empty());
                        }
                        while i < values.len()
                            invariant
                                0 <= i <= values@.len(),
                                self.abyss.inv(),
                                self.abyss.view() == chain.skip(1),
                                self.output@ == start + numbers(values@.take(i as int)),
                            decreases values@.len() - i,
                        {
                            proof {
                                assert(values@.take(i + 1).drop_last() =~= values@.take(i as int));
                                assert(values@.take(i + 1).last() == values@[i as int]);
                                assert(values@.take(i + 1)[0] == values@[0]);
                            }
                            if i > 0 {
                                self.output.push(32);
                            }
                            push_decimal(&mut self.output, values[i] as i128);
                            proof {
                                assert(self.output@ =~= start + numbers(values@.take(i + 1)));
                            }
                            i = i + 1;
                        }
                        proof {
                            assert(values@.take(values@.len() as int) =~= values@);
                        }
                    },
                    Ok(None) => {
                        return Err(Error::NotEnoughBubbles(u5::one()));
                    },
                    Err(e) => {
                        proof {
                            let wanted = leaves(chain[0]);
                            let i = choose|i: int|
                                0 <= i < wanted.len() && call_ensures(
                                    same,
                                    (#[trigger] wanted[i],),
                                    Err::<Value, CoreError>(e),
                                );
                        }
                        return Err(Error::CoreError(e));
                    },
                }
            },
            AwaTism::Read => {
                if input.len() > 0 {
                    let mut text: Vec<AwaSCII> = Vec::new();
                    parse_awascii_input(input, &mut text);
                    proof {
                        assert(codes(text@) =~= codes_of(input@));
                    }
                    if self.abyss.blow_awascii(text.as_slice()).is_none() {
                        return Err(Error::NoSpace);
                    }
                }
            },
            AwaTism::ReadNum => {
                let Some(value) = parse_number_input(input) else {
                    return Err(Error::NoNumber);
                };
                if self.abyss.blow(value).is_none() {
                    return Err(Error::NoSpace);
                }
            },
            AwaTism::Terminate => {
                return Ok(ContinueAt::Halt);
            },
            AwaTism::Blow(value) => {
                if self.abyss.blow(value as Value).is_none() {
                    return Err(Error::NoSpace);
                }
            },
            AwaTism::Submerge(distance) => {
                if self.abyss.submerge(distance.get() as usize).is_none() {
                    return Err(Error::NotEnoughBubbles(distance));
                }
            },
            AwaTism::Pop => {
                if self.abyss.pop().is_none() {
                    return Err(Error::NotEnoughBubbles(u5::one()));
                }
            },
            AwaTism::Duplicate => {
                if self.abyss.duplicate().is_none() {
                    return Err(Error::NotEnoughBubbles(u5::one()));
                }
            },
            AwaTism::Surround(count) => {
                if self.abyss.surround(count.get() as usize).is_none() {
                    return Err(Error::NotEnoughBubbles(count));
                }
            },
            AwaTism::Merge => {
                if self.abyss.merge().is_none() {
                    return Err(Error::NotEnoughBubbles(u5::two()));
                }
            },
            AwaTism::Add => {
                let op = |a: Value, b: Value| -> (c: Value)
                    ensures
                        c == sum_of(a, b),
                    { a.wrapping_add(b) };
                let ghost f = |a: Value, b: Value| sum_of(a, b);
                proof {
                    assert(computes(op, f));
                    lemma_total(op, op, false, chain);
                }
                if self.abyss.combine_single(op).is_none() {
                    return Err(Error::NotEnoughBubbles(u5::two()));
                }
                proof {
                    lemma_combine_fn(op, op, f, f, false, chain[0], chain[1], self.abyss.view()[0]);
                    assert(self.abyss.view() =~= seq![combine_fn(f, f, false, chain[0], chain[1])]
                        + chain.skip(2));
                }
            },
            AwaTism::Subtract => {
                let op = |a: Value, b: Value| -> (c: Value)
                    ensures
                        c == difference_of(a, b),
                    { a.wrapping_sub(b) };
                let ghost f = |a: Value, b: Value| difference_of(a, b);
                proof {
                    assert(computes(op, f));
                    lemma_total(op, op, false, chain);
                }
                if self.abyss.combine_single(op).is_none() {
                    return Err(Error::NotEnoughBubbles(u5::two()));
                }
                proof {
                    lemma_combine_fn(op, op, f, f, false, chain[0], chain[1], self.abyss.view()[0]);
                    assert(self.abyss.view() =~= seq![combine_fn(f, f, false, chain[0], chain[1])]
                        + chain.skip(2));
                }
            },
            AwaTism::Multiply => {
                let op = |a: Value, b: Value| -> (c: Value)
                    ensures
                        c == product_of(a, b),
                    { a.wrapping_mul(b) };
                let ghost f = |a: Value, b: Value| product_of(a, b);
                proof {
                    assert(computes(op, f));
                    lemma_total(op, op, false, chain);
                }
                if self.abyss.combine_single(op).is_none() {
                    return Err(Error::NotEnoughBubbles(u5::two()));
                }
                proof {
                    lemma_combine_fn(op, op, f, f, false, chain[0], chain[1], self.abyss.view()[0]);
                    assert(self.abyss.view() =~= seq![combine_fn(f, f, false, chain[0], chain[1])]
                        + chain.skip(2));
                }
            },
            AwaTism::Divide => {
                match self.abyss.can_divide() {
                    None => {
                        return Err(Error::NotEnoughBubbles(u5::two()));
                    },
                    Some(false) => {
                        return Err(Error::Arithmetic);
                    },
                    Some(true) => {},
                }
                let op1 = |a: Value, b: Value| -> (c: Value)
                    ensures
                        c == quotient_of(a, b),
                    {
                        match a.checked_div(b) {
                            Some(q) => q,
                            None => 0,
                        }
                    };
                let op2 = |a: Value, b: Value| -> (c: Value)
                    ensures
                        c == remainder_of(a, b),
                    {
                        match a.checked_rem(b) {
                            Some(q) => q,
                            None => 0,
                        }
                    };
                let ghost f1 = |a: Value, b: Value| quotient_of(a, b);
                let ghost f2 = |a: Value, b: Value| remainder_of(a, b);
                proof {
                    assert(computes(op1, f1));
                    assert(computes(op2, f2));
                    lemma_total(op1, op2, true, chain);
                }
                if self.abyss.combine_double(op1, op2).is_none() {
                    return Err(Error::NotEnoughBubbles(u5::two()));
                }
                proof {
                    lemma_combine_fn(op1, op2, f1, f2, true, chain[0], chain[1], self.abyss.view()[0]);
                    assert(self.abyss.view() =~= seq![combine_fn(f1, f2, true, chain[0], chain[1])]
                        + chain.skip(2));
                }
            },
            AwaTism::Count => {
                if self.abyss.count().is_none() {
                    return Err(Error::NotEnoughBubbles(u5::one()));
                }
            },
            AwaTism::Label(_label) => {},
            AwaTism::Jump(label) => {
                return Ok(ContinueAt::Label(label));
            },
            AwaTism::EqualTo => {
                let holds = |a: &Value, b: &Value| -> (r: bool)
                    ensures
                        r == (*a == *b),
                    { *a == *b };
                match self.abyss.test(holds) {
                    Some(true) => {},
                    Some(false) => {
                        return Ok(ContinueAt::SkipNext);
                    },
                    None => {
                        return Err(Error::NotEnoughBubbles(u5::two()));
                    },
                }
            },
            AwaTism::LessThan => {
                let holds = |a: &Value, b: &Value| -> (r: bool)
                    ensures
                        r == (*a < *b),
                    { *a < *b };
                match self.abyss.test(holds) {
                    Some(true) => {},
                    Some(false) => {
                        return Ok(ContinueAt::SkipNext);
                    },
                    None => {
                        return Err(Error::NotEnoughBubbles(u5::two()));
                    },
                }
            },
            AwaTism::GreaterThan => {
                let holds = |a: &Value, b: &Value| -> (r: bool)
                    ensures
                        r == (*a > *b),
                    { *a > *b };
                match self.abyss.test(holds) {
                    Some(true) => {},
                    Some(false) => {
                        return Ok(ContinueAt::SkipNext);
                    },
                    None => {
                        return Err(Error::NotEnoughBubbles(u5::two()));
                    },
                }
            },
            AwaTism::DoublePop => {
                if self.abyss.double_pop().is_none() {
                    return Err(Error::NotEnoughBubbles(u5::one()));
                }
            },
        }
        Ok(ContinueAt::Next)
    }
}

} // verus!
