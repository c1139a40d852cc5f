//! What holds of the operations on a chain of bubbles, whatever the chain.
use crate::abyss::{counted, merged, parts, popped, size, surrounded, Tree, Value};
use crate::assembly::macros::{after_quoted, closing, emit, quoted, str_code};
use crate::assembly::{behind, behind_span, last_code, lead_to, trimmed, trimmed_span, Span};
use crate::awascii::lemma_code_round_trip;
use crate::awatism::AwaTism;
use crate::interpreter::{outcome, ContinueAt, Error};
use crate::u5::u5;
use vstd::prelude::*;

verus! {

/// The chain with a copy of its top bubble on top.
pub open spec fn duplicated(chain: Seq<Tree>) -> Seq<Tree>
    recommends
        chain.len() > 0,
{
    seq![chain[0]] + chain
}

/// Law: what an instruction does to the copy that `duplicate` put on top
/// leaves the chain below the copy, the copied bubble with it, as it was: be it
/// that the copy is removed, burst, counted or wrapped.
pub proof fn lemma_duplicate_independent(chain: Seq<Tree>)
    requires
        chain.len() > 0,
    ensures
        duplicated(chain).skip(1) == chain,
        popped(duplicated(chain)) == parts_of_burst(chain[0]) + chain,
        counted(duplicated(chain)).skip(2) == chain,
        surrounded(duplicated(chain), 1).skip(1) == chain,
        duplicated(duplicated(chain)).skip(2) == chain,
{
    let copy = duplicated(chain);
    assert(copy.skip(1) =~= chain);
    assert(popped(copy) =~= parts_of_burst(chain[0]) + chain);
    assert(counted(copy).skip(2) =~= chain);
    assert(surrounded(copy, 1).skip(1) =~= chain);
    assert(duplicated(copy).skip(2) =~= chain);
}

/// What a bubble that bursts sets free: nothing for a number, its bubbles
/// for a row.
pub open spec fn parts_of_burst(t: Tree) -> Seq<Tree> {
    match t {
        Tree::Single(_) => Seq::empty(),
        Tree::Double(inner) => inner,
    }
}

/// Law: bubbles that were wrapped into one and then set free by `pop` are
/// the chain that they were; removed by `double_pop`, they are gone, and
/// what was below them is left.
pub proof fn lemma_surround_pop(chain: Seq<Tree>, count: nat)
    requires
        1 <= count <= chain.len(),
    ensures
        popped(surrounded(chain, count)) == chain,
        surrounded(chain, count).skip(1) == chain.skip(count as int),
{
    let wrapped = surrounded(chain, count);
    assert(wrapped[0] == Tree::Double(chain.take(count as int)));
    assert(wrapped.skip(1) =~= chain.skip(count as int));
    assert(popped(wrapped) =~= chain);
}

/// Law: the bubble that `merge` makes of two holds as many bubbles as the
/// two bring into it: a number brings itself, a row the bubbles that it
/// holds. The chain below the two stays as it was.
pub proof fn lemma_merge_count(chain: Seq<Tree>)
    requires
        chain.len() >= 2,
    ensures
        size(merged(chain)[0]) == parts(chain[0]).len() + parts(chain[1]).len(),
        counted(merged(chain))[0] == Tree::Single(
            (parts(chain[0]).len() + parts(chain[1]).len()) as Value,
        ),
        merged(chain).skip(1) == chain.skip(2),
        parts(chain[0]).len() == (if chain[0] is Single {
            1nat
        } else {
            size(chain[0])
        }),
{
    assert(merged(chain).skip(1) =~= chain.skip(2));
}

/// The chain that a stretch of code leaves behind, each of its instructions
/// going on to the next; `None` where one of them fails, or goes elsewhere.
#[verifier::opaque]
pub open spec fn carried_out(code: Seq<AwaTism>, chain: Seq<Tree>) -> Option<Seq<Tree>>
    decreases code.len(),
{
    if code.len() == 0 {
        Some(chain)
    } else {
        let out = outcome(chain, Seq::empty(), code[0], Seq::empty());
        if out.result == Ok::<ContinueAt, Error>(ContinueAt::Next) {
            carried_out(code.skip(1), out.chain)
        } else {
            None
        }
    }
}

/// The characters of a text as bubbles, in reading order; `\n` is one
/// character.
pub open spec fn letters(raw: Seq<u8>) -> Seq<Tree>
    decreases raw.len(),
{
    match last_code(raw) {
        Some((Some(code), width)) => letters(raw.take(raw.len() - width)).push(
            Tree::Single(code as Value),
        ),
        _ => Seq::empty(),
    }
}

/// Code after code is carried out as the one, and then the other.
pub proof fn lemma_carried_join(a: Seq<AwaTism>, b: Seq<AwaTism>, chain: Seq<Tree>)
    ensures
        carried_out(a + b, chain) == (match carried_out(a, chain) {
            Some(mid) => carried_out(b, mid),
            None => None,
        }),
    decreases a.len(),
{
    reveal_with_fuel(carried_out, 2);
    if a.len() == 0 {
        assert(a + b =~= b);
    } else {
        assert((a + b)[0] == a[0]);
        assert((a + b).skip(1) =~= a.skip(1) + b);
        let out = outcome(chain, Seq::empty(), a[0], Seq::empty());
        if out.result == Ok::<ContinueAt, Error>(ContinueAt::Next) {
            lemma_carried_join(a.skip(1), b, out.chain);
        }
    }
}

/// One instruction is carried out as the interpreter carries it out.
proof fn lemma_carried_one(awatism: AwaTism, chain: Seq<Tree>)
    ensures
        carried_out(seq![awatism], chain) == (if outcome(
            chain,
            Seq::empty(),
            awatism,
            Seq::empty(),
        ).result == Ok::<ContinueAt, Error>(ContinueAt::Next) {
            Some(outcome(chain, Seq::empty(), awatism, Seq::empty()).chain)
        } else {
            None
        }),
{
    reveal_with_fuel(carried_out, 2);
    let code = seq![awatism];
    assert(code[0] == awatism);
    assert(code.skip(1) =~= Seq::<AwaTism>::empty());
    let out = outcome(chain, Seq::empty(), awatism, Seq::empty());
    if out.result == Ok::<ContinueAt, Error>(ContinueAt::Next) {
        assert(carried_out(code.skip(1), out.chain) == Some(out.chain));
    }
}

/// No code leaves the chain as it is.
proof fn lemma_carried_none(chain: Seq<Tree>)
    ensures
        carried_out(Seq::empty(), chain) == Some(chain),
{
    reveal_with_fuel(carried_out, 1);
}

/// `Blow` puts its number on top.
proof fn lemma_carried_blow(v: i8, chain: Seq<Tree>)
    ensures
        carried_out(seq![AwaTism::Blow(v)], chain) == Some(seq![Tree::Single(v as Value)] + chain),
{
    lemma_carried_one(AwaTism::Blow(v), chain);
}

/// `Surround` wraps the top bubbles into one.
proof fn lemma_carried_surround(count: u8, chain: Seq<Tree>)
    requires
        0 < count <= chain.len(),
    ensures
        carried_out(seq![AwaTism::Surround(u5::of(count))], chain) == Some(
            seq![Tree::Double(chain.take(count as int))] + chain.skip(count as int),
        ),
{
    u5::lemma_of(count);
    lemma_carried_one(AwaTism::Surround(u5::of(count)), chain);
}

/// `Merge` joins the top two bubbles.
proof fn lemma_carried_merge(chain: Seq<Tree>)
    requires
        chain.len() >= 2,
    ensures
        carried_out(seq![AwaTism::Merge], chain) == Some(
            seq![Tree::Double(parts(chain[0]) + parts(chain[1]))] + chain.skip(2),
        ),
{
    lemma_carried_one(AwaTism::Merge, chain);
}

/// The bubble that was wrapped so far, where one was.
pub open spec fn wrapped_so_far(first: bool, wrapped: Seq<Tree>) -> Seq<Tree> {
    if first {
        Seq::empty()
    } else {
        seq![Tree::Double(wrapped)]
    }
}

/// The code that closes a text wraps the characters that are blown and not
/// yet wrapped, and joins them to what was wrapped before.
proof fn lemma_closing_bubble(
    count: nat,
    first: bool,
    pend: Seq<Tree>,
    wrapped: Seq<Tree>,
    base: Seq<Tree>,
)
    requires
        0 < count <= 31,
        pend.len() == count,
        first ==> wrapped.len() == 0,
    ensures
        carried_out(closing(count, first), pend + wrapped_so_far(first, wrapped) + base) == Some(
            seq![Tree::Double(pend + wrapped)] + base,
        ),
{
    let start = pend + wrapped_so_far(first, wrapped) + base;
    let wrap = AwaTism::Surround(u5::of(count as u8));
    lemma_carried_surround(count as u8, start);
    let bound = seq![Tree::Double(start.take(count as int))] + start.skip(count as int);
    assert(start.take(count as int) =~= pend);
    assert(start.skip(count as int) =~= wrapped_so_far(first, wrapped) + base);
    assert(bound =~= seq![Tree::Double(pend)] + wrapped_so_far(first, wrapped) + base);
    if first {
        assert(closing(count, first) =~= seq![wrap]);
        assert(pend + wrapped =~= pend);
        assert(bound =~= seq![Tree::Double(pend + wrapped)] + base);
    } else {
        assert(closing(count, first) =~= seq![wrap] + seq![AwaTism::Merge]);
        lemma_carried_join(seq![wrap], seq![AwaTism::Merge], start);
        lemma_carried_merge(bound);
        assert(bound[0] == Tree::Double(pend));
        assert(bound[1] == Tree::Double(wrapped));
        assert(bound.skip(2) =~= base);
    }
}

/// What the code of a text comes to, step by step: nothing but the closing
/// code for the empty text; else the last character is blown, and where
/// that makes 31, they are wrapped.
proof fn lemma_emit_step(raw: Seq<u8>, span: Span, count: nat, first: bool)
    requires
        emit(raw, span, count, first) is Ok,
    ensures
        match last_code(raw) {
            None => emit(raw, span, count, first)->Ok_0 == closing(count, first) && letters(raw)
                == Seq::<Tree>::empty(),
            Some((None, _)) => false,
            Some((Some(code), width)) => {
                let rest = raw.take(raw.len() - width);
                let place = span.truncated((raw.len() - width) as usize);
                let blow = seq![AwaTism::Blow(code as i8)];
                &&& 1 <= width <= raw.len()
                &&& (code as i8) as Value == code as Value
                &&& letters(raw) == letters(rest).push(Tree::Single(code as Value))
                &&& if count + 1 == 31 {
                    emit(rest, place, 0, false) is Ok && emit(raw, span, count, first)->Ok_0 == blow
                        + closing(31, first) + emit(rest, place, 0, false)->Ok_0
                } else {
                    emit(rest, place, count + 1, first) is Ok && emit(raw, span, count, first)->Ok_0
                        == blow + emit(rest, place, count + 1, first)->Ok_0
                }
            },
        },
{
    match last_code(raw) {
        Some((Some(code), width)) => {
            if width == 1 {
                lemma_code_round_trip(raw.last());
            }
            let rest = raw.take(raw.len() - width);
            let place = span.truncated((raw.len() - width) as usize);
            let blow = seq![AwaTism::Blow(code as i8)];
            if count + 1 == 31 {
                assert(seq![AwaTism::Blow(code as i8), AwaTism::Surround(u5::of(31))] + (if first {
                    Seq::<AwaTism>::empty()
                } else {
                    seq![AwaTism::Merge]
                }) =~= blow + closing(31, first));
            }
        },
        _ => {},
    }
}

/// The code of a text leaves all of its characters in one bubble: the
/// characters of `raw`, then the `count` characters `pend` that are blown
/// and not yet wrapped, then what was wrapped before.
proof fn lemma_emit_bubble(
    raw: Seq<u8>,
    span: Span,
    count: nat,
    first: bool,
    pend: Seq<Tree>,
    wrapped: Seq<Tree>,
    base: Seq<Tree>,
)
    requires
        emit(raw, span, count, first) is Ok,
        count < 31,
        pend.len() == count,
        first ==> wrapped.len() == 0,
    ensures
        carried_out(
            emit(raw, span, count, first)->Ok_0,
            pend + wrapped_so_far(first, wrapped) + base,
        ) == Some(
            if letters(raw).len() == 0 && count == 0 {
                wrapped_so_far(first, wrapped) + base
            } else {
                seq![Tree::Double(letters(raw) + pend + wrapped)] + base
            },
        ),
    decreases raw.len(),
{
    let start = pend + wrapped_so_far(first, wrapped) + base;
    let whole = emit(raw, span, count, first)->Ok_0;
    lemma_emit_step(raw, span, count, first);
    match last_code(raw) {
        None => {
            if count == 0 {
                assert(closing(count, first) =~= Seq::<AwaTism>::empty());
                assert(start =~= wrapped_so_far(first, wrapped) + base);
                lemma_carried_none(start);
            } else {
                lemma_closing_bubble(count, first, pend, wrapped, base);
                assert(letters(raw) + pend + wrapped =~= pend + wrapped);
            }
        },
        Some((None, _)) => {},
        Some((Some(code), width)) => {
            let rest = raw.take(raw.len() - width);
            let place = span.truncated((raw.len() - width) as usize);
            let blow = seq![AwaTism::Blow(code as i8)];
            let letter = Tree::Single(code as Value);
            let blown = seq![letter] + start;
            let more = seq![letter] + pend;
            lemma_carried_blow(code as i8, start);
            assert(blown =~= more + wrapped_so_far(first, wrapped) + base);
            if count + 1 == 31 {
                let later = emit(rest, place, 0, false)->Ok_0;
                let close = closing(31, first);
                lemma_carried_join(blow + close, later, start);
                lemma_carried_join(blow, close, start);
                lemma_closing_bubble(31, first, more, wrapped, base);
                let mid = seq![Tree::Double(more + wrapped)] + base;
                lemma_emit_bubble(rest, place, 0, false, Seq::empty(), more + wrapped, base);
                assert(Seq::<Tree>::empty() + wrapped_so_far(false, more + wrapped) + base =~= mid);
                assert(letters(rest) + Seq::<Tree>::empty() + (more + wrapped) =~= letters(raw) + pend
                    + wrapped);
            } else {
                let later = emit(rest, place, count + 1, first)->Ok_0;
                lemma_carried_join(blow, later, start);
                lemma_emit_bubble(rest, place, count + 1, first, more, wrapped, base);
                assert(letters(rest) + more + wrapped =~= letters(raw) + pend + wrapped);
            }
        },
    }
}

/// Law: the code of `str "<s>"` puts the text on top of the chain as one
/// bubble of all its characters in reading order, be it one character
/// only. A text without characters leaves the chain as it is.
pub proof fn lemma_str_one_bubble(input: Seq<u8>, span: Span, chain: Seq<Tree>)
    requires
        str_code(input, span) is Ok,
    ensures
        carried_out(str_code(input, span)->Ok_0, chain) == Some(
            if letters(quoted(trimmed(input), 34)).len() == 0 {
                chain
            } else {
                seq![Tree::Double(letters(quoted(trimmed(input), 34)))] + chain
            },
        ),
{
    let text = trimmed(input);
    let raw = quoted(text, 34);
    let none = Seq::<Tree>::empty();
    assert(lead_to(text, 34) == 0 && after_quoted(text, 34).len() == 0);
    let rest = behind(text, 34);
    let place = behind_span(text, 34, trimmed_span(input, span)).truncated(
        lead_to(rest, 34) as usize,
    );
    assert(str_code(input, span) == emit(raw, place, 0, true));
    lemma_emit_bubble(raw, place, 0, true, none, none, chain);
    assert(none + wrapped_so_far(true, none) + chain =~= chain);
    assert(wrapped_so_far(true, none) + chain =~= chain);
    assert(letters(raw) + none + none =~= letters(raw));
}

} // verus!
