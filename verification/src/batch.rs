//! Operations on the Abyss made many times over.
use crate::abyss::{merged, popped, submerged, surrounded, Tree};
use vstd::prelude::*;

verus! {

/// The operations that are also made in batches.
pub enum Batched {
    Submerge,
    Pop,
    DoublePop,
    Duplicate,
    Surround,
    Merge,
}

/// What the operation makes of a chain, given `arg` where it takes a
/// number; `None` where it fails, and leaves the chain as it is.
pub open spec fn once(op: Batched, arg: usize, chain: Seq<Tree>) -> Option<Seq<Tree>> {
    match op {
        Batched::Submerge => if chain.len() > 0 {
            Some(submerged(chain, arg as nat))
        } else {
            None
        },
        Batched::Pop => if chain.len() > 0 {
            Some(popped(chain))
        } else {
            None
        },
        Batched::DoublePop => if chain.len() > 0 {
            Some(chain.skip(1))
        } else {
            None
        },
        Batched::Duplicate => if chain.len() > 0 {
            Some(seq![chain[0]] + chain)
        } else {
            None
        },
        Batched::Surround => if arg <= chain.len() {
            Some(surrounded(chain, arg as nat))
        } else {
            None
        },
        Batched::Merge => if chain.len() >= 2 {
            Some(merged(chain))
        } else {
            None
        },
    }
}

/// The operation made `count` times over, up to the first failure: the
/// chain that is left, and whether none failed.
pub open spec fn repeated(op: Batched, count: nat, chain: Seq<Tree>) -> (Seq<Tree>, bool)
    decreases count,
{
    if count == 0 {
        (chain, true)
    } else {
        match once(op, 0, chain) {
            Some(next) => repeated(op, (count - 1) as nat, next),
            None => (chain, false),
        }
    }
}

/// The operation made with each of `args` in turn, up to the first failure:
/// the chain that is left, and whether none failed.
pub open spec fn each(op: Batched, args: Seq<usize>, chain: Seq<Tree>) -> (Seq<Tree>, bool)
    decreases args.len(),
{
    if args.len() == 0 {
        (chain, true)
    } else {
        match once(op, args[0], chain) {
            Some(next) => each(op, args.skip(1), next),
            None => (chain, false),
        }
    }
}

/// Making an operation `a + b` times is making it `a` times and then,
/// where none failed, `b` times more.
pub proof fn lemma_repeated_sum(op: Batched, a: nat, b: nat, chain: Seq<Tree>)
    ensures
        repeated(op, a + b, chain) == (if repeated(op, a, chain).1 {
            repeated(op, b, repeated(op, a, chain).0)
        } else {
            repeated(op, a, chain)
        }),
    decreases a,
{
    if a > 0 {
        match once(op, 0, chain) {
            Some(next) => {
                lemma_repeated_sum(op, (a - 1) as nat, b, next);
                assert((a + b - 1) as nat == (a - 1) as nat + b);
            },
            None => {},
        }
    }
}

/// Bursting bubbles that hold one number each removes them, and so does
/// removing any bubbles, as long as there are bubbles.
pub proof fn lemma_repeated_gone(op: Batched, count: nat, chain: Seq<Tree>)
    requires
        op is DoublePop || (op is Pop && forall|i: int|
            0 <= i < count && i < chain.len() ==> (#[trigger] chain[i]) is Single),
    ensures
        count <= chain.len() ==> repeated(op, count, chain) == (chain.skip(count as int), true),
        count > chain.len() ==> repeated(op, count, chain) == (Seq::<Tree>::empty(), false),
    decreases count,
{
    if count == 0 {
        assert(chain.skip(0) =~= chain);
    } else if chain.len() == 0 {
        assert(chain =~= Seq::<Tree>::empty());
    } else {
        let next = chain.skip(1);
        assert(chain[0] is Single || op is DoublePop);
        assert(once(op, 0, chain) == Some(next));
        assert forall|i: int| 0 <= i < count - 1 && i < next.len() && op is Pop implies (
        #[trigger] next[i]) is Single by {
            assert(next[i] == chain[i + 1]);
        }
        lemma_repeated_gone(op, (count - 1) as nat, next);
        if count <= chain.len() {
            assert(next.skip(count - 1) =~= chain.skip(count as int));
        }
    }
}

/// Copying the top bubble `count` times puts that many copies of it on top.
pub proof fn lemma_repeated_copies(count: nat, chain: Seq<Tree>)
    requires
        chain.len() > 0,
    ensures
        repeated(Batched::Duplicate, count, chain) == (
            Seq::new(count, |i: int| chain[0]) + chain,
            true,
        ),
    decreases count,
{
    if count == 0 {
        assert(Seq::new(0, |i: int| chain[0]) + chain =~= chain);
    } else {
        let next = seq![chain[0]] + chain;
        lemma_repeated_copies((count - 1) as nat, next);
        assert(Seq::new((count - 1) as nat, |i: int| next[0]) + next =~= Seq::new(
            count,
            |i: int| chain[0],
        ) + chain);
    }
}

} // verus!
