//! Reading and writing single slots of the arena.
use crate::arena::{Arena, Index};
use crate::linked::{Bubble, bounded, differ_at, kept, vacant, with_next};
use vstd::prelude::*;

verus! {

/// Reads the bubble in an occupied slot.
pub(super) fn fetch(arena: &Arena<Bubble>, at: Index) -> (b: Bubble)
    requires
        arena.contains(at),
    ensures
        arena@[at.0 as int] == Some(b),
{
    match arena.get(at) {
        Some(b) => *b,
        None => Bubble::Single { value: 0, next: None },
    }
}

/// Puts a bubble into a slot that was empty, or new.
pub(super) fn settle(arena: &mut Arena<Bubble>, b: Bubble) -> (at: Index)
    requires
        old(arena).wf(),
    ensures
        final(arena).wf(),
        kept(old(arena)@, final(arena)@),
        vacant(old(arena)@, at.0),
        at.0 < final(arena)@.len(),
        final(arena)@[at.0 as int] == Some(b),
        bounded(old(arena)@, final(arena)@, Set::empty(), set![at.0]),
{
    arena.insert(b)
}

/// Empties an occupied slot.
pub(super) fn release(arena: &mut Arena<Bubble>, at: Index) -> (b: Bubble)
    requires
        old(arena).wf(),
        old(arena).contains(at),
    ensures
        final(arena).wf(),
        old(arena)@[at.0 as int] == Some(b),
        final(arena)@ == old(arena)@.update(at.0 as int, None),
        differ_at(old(arena)@, final(arena)@, at.0),
        bounded(old(arena)@, final(arena)@, set![at.0], Set::empty()),
{
    match arena.remove(at) {
        Some(b) => b,
        None => Bubble::Single { value: 0, next: None },
    }
}

/// Gives the bubble in an occupied slot another one to follow.
pub(super) fn set_next(arena: &mut Arena<Bubble>, at: Index, next: Option<Index>)
    requires
        old(arena).wf(),
        old(arena).contains(at),
    ensures
        final(arena).wf(),
        final(arena)@ == old(arena)@.update(
            at.0 as int,
            Some(with_next(old(arena)@[at.0 as int]->0, next)),
        ),
        differ_at(old(arena)@, final(arena)@, at.0),
        bounded(old(arena)@, final(arena)@, Set::empty(), Set::empty()),
{
    match arena.get_mut(at) {
        Some(b) => {
            *b.next_mut() = next;
        },
        None => {},
    }
}

/// Puts another bubble into an occupied slot.
pub(super) fn put(arena: &mut Arena<Bubble>, at: Index, b: Bubble)
    requires
        old(arena).wf(),
        old(arena).contains(at),
    ensures
        final(arena).wf(),
        final(arena)@ == old(arena)@.update(at.0 as int, Some(b)),
        differ_at(old(arena)@, final(arena)@, at.0),
        bounded(old(arena)@, final(arena)@, Set::empty(), Set::empty()),
{
    match arena.get_mut(at) {
        Some(slot) => {
            *slot = b;
        },
        None => {},
    }
}

} // verus!
