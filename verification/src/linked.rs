//! The Abyss as a linked list of bubbles in an arena.
use crate::abyss::{
    Tree, Value, accepted, combine_post, combine_pre, depth, leaves, merged, parts, popped,
    shown_chain, submerged, surrounded, taken, text_bubble,
};
use crate::arena::{Arena, Index};
use crate::awascii::{AwaSCII, codes};
use crate::cast::value_of_len;
use crate::linked::cells::{fetch, put, release, set_next, settle};
use crate::linked::lemmas::{
    lemma_chain_apart, lemma_chain_cleared, lemma_chain_join, lemma_chain_kept, lemma_chain_none,
    lemma_chain_occupied, lemma_chain_one, lemma_chain_pair, lemma_chain_retarget,
    lemma_chain_short, lemma_chain_split, lemma_chain_touched, lemma_flat_chain,
    lemma_node_retarget, lemma_node_slot, lemma_node_wrap, lemma_owned_join, lemma_owned_none,
    lemma_owned_one, lemma_owns_place, lemma_slot, lemma_trees, lemma_trees_join, lemma_trees_part,
    lemma_unfold, lemma_vacant,
};
use crate::linked::walks::{deep_copy, discard, find_count, gather, list, show, zip_divides};
use crate::linked::zip::zip;
use vstd::prelude::*;

mod cells;
mod lemmas;
mod walks;
mod zip;

verus! {

/// What a slot of the arena holds: a number, or the first and last bubble of
/// a row; and the bubble that follows in the chain.
#[derive(Debug, Clone, Copy)]
pub enum Bubble {
    Single { value: Value, next: Option<Index> },
    Double { inner: (Index, Index), next: Option<Index> },
}

/// Where a bubble and all that it holds lie in the arena.
enum Layout {
    Single { at: usize, value: Value },
    Double { at: usize, inner: Seq<Layout> },
}

/// The slot of the bubble itself.
spec fn place(n: Layout) -> usize {
    match n {
        Layout::Single { at, .. } => at,
        Layout::Double { at, .. } => at,
    }
}

/// The bubble as a value.
spec fn tree_of(n: Layout) -> Tree
    decreases n,
{
    match n {
        Layout::Single { value, .. } => Tree::Single(value),
        Layout::Double { inner, .. } => Tree::Double(trees_of(inner)),
    }
}

/// A row of bubbles as values.
#[verifier::opaque]
spec fn trees_of(ns: Seq<Layout>) -> Seq<Tree>
    decreases ns,
{
    Seq::new(
        ns.len(),
        |i: int|
            if 0 <= i < ns.len() {
                tree_of(ns[i])
            } else {
                Tree::Single(0)
            },
    )
}

/// The slots of a bubble and of all that it holds.
spec fn owned(n: Layout) -> Set<usize>
    decreases n,
{
    match n {
        Layout::Single { at, .. } => set![at],
        Layout::Double { at, inner } => owned_all(inner).insert(at),
    }
}

/// The slots of a row of bubbles.
#[verifier::opaque]
spec fn owned_all(ns: Seq<Layout>) -> Set<usize>
    decreases ns,
{
    Set::new(|h: usize| exists|i: int| 0 <= i < ns.len() && owned(#[trigger] ns[i]).contains(h))
}

/// The handle of the bubble that follows place `i` of a row that ends in `end`.
spec fn succ(ns: Seq<Layout>, i: int, end: Option<Index>) -> Option<Index> {
    if i + 1 < ns.len() {
        Some(Index(place(ns[i + 1])))
    } else {
        end
    }
}

/// The handle of the first bubble of a row that ends in `end`.
spec fn head(ns: Seq<Layout>, end: Option<Index>) -> Option<Index> {
    succ(ns, -1, end)
}

/// The arena holds the bubble as laid out, followed by `next`, and no slot
/// serves twice.
spec fn node_ok(m: Seq<Option<Bubble>>, n: Layout, next: Option<Index>) -> bool
    decreases n,
{
    match n {
        Layout::Single { at, value } => at < m.len() && m[at as int] == Some(
            Bubble::Single { value, next },
        ),
        Layout::Double { at, inner } => {
            &&& at < m.len()
            &&& inner.len() > 0
            &&& m[at as int] == Some(
                Bubble::Double {
                    inner: (Index(place(inner[0])), Index(place(inner.last()))),
                    next,
                },
            )
            &&& !owned_all(inner).contains(at)
            &&& chain_ok(m, inner, None)
        },
    }
}

/// The arena holds the row as laid out, each bubble followed by the next and
/// the last by `end`, and no slot serves twice.
#[verifier::opaque]
spec fn chain_ok(m: Seq<Option<Bubble>>, ns: Seq<Layout>, end: Option<Index>) -> bool
    decreases ns,
{
    &&& forall|i: int| 0 <= i < ns.len() ==> node_ok(m, #[trigger] ns[i], succ(ns, i, end))
    &&& forall|i: int, j: int|
        0 <= i < j < ns.len() ==> owned(#[trigger] ns[i]).disjoint(owned(#[trigger] ns[j]))
}

/// The bubble that follows.
pub open spec fn next_of(b: Bubble) -> Option<Index> {
    match b {
        Bubble::Single { next, .. } => next,
        Bubble::Double { next, .. } => next,
    }
}

impl Bubble {
    /// The bubble that follows this one in its chain.
    pub fn next(&self) -> (r: Option<Index>)
        ensures
            r == next_of(*self),
    {
        match self {
            Bubble::Single { next, .. } => *next,
            Bubble::Double { next, .. } => *next,
        }
    }

    /// The link to the bubble that follows, to be changed in place.
    pub fn next_mut(&mut self) -> (r: &mut Option<Index>)
        ensures
            *r == next_of(*old(self)),
            *final(self) == with_next(*old(self), *final(r)),
    {
        match self {
            Bubble::Single { next, .. } => next,
            Bubble::Double { next, .. } => next,
        }
    }
}

/// The bubble with another one to follow it.
pub open spec fn with_next(b: Bubble, next: Option<Index>) -> Bubble {
    match b {
        Bubble::Single { value, .. } => Bubble::Single { value, next },
        Bubble::Double { inner, .. } => Bubble::Double { inner, next },
    }
}

/// Every occupied slot of `m` holds the same in `m2`.
spec fn kept(m: Seq<Option<Bubble>>, m2: Seq<Option<Bubble>>) -> bool {
    &&& m2.len() >= m.len()
    &&& forall|i: int| 0 <= i < m.len() && (#[trigger] m[i]) is Some ==> m2[i] == m[i]
}

/// `m2` is `m` but for the slot `h`.
spec fn differ_at(m: Seq<Option<Bubble>>, m2: Seq<Option<Bubble>>, h: usize) -> bool {
    &&& m2.len() == m.len()
    &&& forall|i: int| 0 <= i < m.len() && i != h ==> #[trigger] m2[i] == m[i]
}

/// The slot `at` holds nothing in `m`, or is not there yet.
spec fn vacant(m: Seq<Option<Bubble>>, at: usize) -> bool {
    at >= m.len() || m[at as int] is None
}

/// The slots of the first `k` bubbles of a row.
spec fn places(ns: Seq<Layout>, k: int) -> Set<int> {
    Set::new(|h: int| exists|i: int| 0 <= i < k && place(#[trigger] ns[i]) == h)
}

/// `m2` is `m` with the slots in `gone` emptied.
spec fn cleared(m: Seq<Option<Bubble>>, m2: Seq<Option<Bubble>>, gone: Set<usize>) -> bool {
    &&& m2.len() == m.len()
    &&& forall|i: int|
        0 <= i < m.len() ==> #[trigger] m2[i] == (if gone.contains(i as usize) {
            None
        } else {
            m[i]
        })
}

/// Every slot that was occupied and is not in `within` holds the same in
/// `m2`.
spec fn touched(m: Seq<Option<Bubble>>, m2: Seq<Option<Bubble>>, within: Set<usize>) -> bool {
    &&& m2.len() >= m.len()
    &&& forall|i: int|
        0 <= i < m.len() && (#[trigger] m[i]) is Some && !within.contains(i as usize) ==> m2[i] == m[i]
}

/// Every occupied slot of `m2` is one of `made`, or was occupied in `m`
/// and is none of `gone`.
spec fn bounded(
    m: Seq<Option<Bubble>>,
    m2: Seq<Option<Bubble>>,
    gone: Set<usize>,
    made: Set<usize>,
) -> bool {
    forall|h: usize|
        h < m2.len() && (#[trigger] m2[h as int]) is Some ==> made.contains(h) || (h < m.len()
            && m[h as int] is Some && !gone.contains(h))
}

/// Every occupied slot is a slot of the row: nothing lies about.
spec fn tight(m: Seq<Option<Bubble>>, ns: Seq<Layout>) -> bool {
    forall|h: usize| h < m.len() && (#[trigger] m[h as int]) is Some ==> owned_all(ns).contains(h)
}

/// Every slot of `n` was a slot of `from`, or vacant.
spec fn drawn(m: Seq<Option<Bubble>>, n: Layout, from: Set<usize>) -> bool {
    forall|h: usize| #[trigger] owned(n).contains(h) ==> from.contains(h) || vacant(m, h)
}

/// Every slot of the row was a slot of `from`, or vacant.
spec fn drawn_all(m: Seq<Option<Bubble>>, ns: Seq<Layout>, from: Set<usize>) -> bool {
    forall|h: usize| #[trigger] owned_all(ns).contains(h) ==> from.contains(h) || vacant(m, h)
}

/// The handles of a bubble and of all that it holds: its own first, then
/// those of the bubbles in it from the front to the back.
spec fn flat(n: Layout) -> Seq<Index>
    decreases n,
{
    match n {
        Layout::Single { at, .. } => seq![Index(at)],
        Layout::Double { at, inner } => seq![Index(at)] + flat_all(inner),
    }
}

/// The handles of a row of bubbles, from the front to the back.
spec fn flat_all(ns: Seq<Layout>) -> Seq<Index>
    decreases ns,
{
    if ns.len() == 0 {
        Seq::empty()
    } else {
        flat_all(ns.drop_last()) + flat(ns.last())
    }
}

/// The Abyss as a linked list of bubbles in an arena.
#[derive(Clone)]
pub struct Abyss {
    arena: Arena<Bubble>,
    top: Option<Index>,
    layout: Ghost<Seq<Layout>>,
}

impl Abyss {
    /// The arena holds the chain as laid out, from the top on, and nothing
    /// else.
    pub closed spec fn wf(&self) -> bool {
        &&& self.arena.wf()
        &&& chain_ok(self.arena@, self.layout@, None)
        &&& self.top == head(self.layout@, None)
        &&& tight(self.arena@, self.layout@)
    }

    /// The chain of bubbles, the top one first.
    pub closed spec fn chain(&self) -> Seq<Tree> {
        trees_of(self.layout@)
    }

    /// An Abyss without bubbles.
    pub fn new() -> (r: Self)
        ensures
            r.wf(),
            r.chain() == Seq::<Tree>::empty(),
    {
        let r = Abyss { arena: Arena::new(), top: None, layout: Ghost(Seq::empty()) };
        proof {
            lemma_chain_none(r.arena@, None);
        }
        r
    }

    /// An Abyss without bubbles, with room for `capacity` of them.
    pub fn with_capacity(capacity: usize) -> (r: Self)
        ensures
            r.wf(),
            r.chain() == Seq::<Tree>::empty(),
    {
        let r = Abyss {
            arena: Arena::with_capacity(capacity),
            top: None,
            layout: Ghost(Seq::empty()),
        };
        proof {
            lemma_chain_none(r.arena@, None);
        }
        r
    }

    /// The handles of all the bubbles that can be reached from the top: each
    /// bubble of the chain with, behind it, the bubbles that it holds.
    pub closed spec fn reachable(&self) -> Seq<Index> {
        flat_all(self.layout@)
    }

    /// Law: no handle can be reached twice from the top, and every handle
    /// that can be reached names an occupied slot of the arena.
    pub proof fn lemma_no_alias(&self)
        requires
            self.wf(),
        ensures
            self.reachable().no_duplicates(),
            forall|i: int|
                0 <= i < self.reachable().len() ==> self.slots().contains(
                    #[trigger] self.reachable()[i],
                ),
    {
        let m = self.arena@;
        let ns = self.layout@;
        lemma_flat_chain(m, ns, None);
        lemma_chain_occupied(m, ns, None);
        assert forall|i: int| 0 <= i < self.reachable().len() implies self.slots().contains(
            #[trigger] self.reachable()[i],
        ) by {
            let h = self.reachable()[i];
            assert(flat_all(ns).contains(Index(h.0)));
        }
    }

    /// Law: nothing lies about in the arena. Every occupied slot holds a
    /// bubble that can be reached from the top, so that what an operation
    /// takes out of the chain is also gone from the arena.
    pub proof fn lemma_no_leak(&self)
        requires
            self.wf(),
        ensures
            forall|h: Index| #[trigger] self.slots().contains(h) ==> self.reachable().contains(h),
    {
        let m = self.arena@;
        let ns = self.layout@;
        lemma_flat_chain(m, ns, None);
        assert forall|h: Index| #[trigger] self.slots().contains(h) implies self.reachable().contains(
            h,
        ) by {
            assert(m[h.0 as int] is Some);
            assert(owned_all(ns).contains(h.0));
            assert(flat_all(ns).contains(Index(h.0)));
        }
    }

    /// The arena that holds the bubbles.
    pub closed spec fn slots(&self) -> Arena<Bubble> {
        self.arena
    }

    /// The arena that holds the bubbles.
    pub fn arena(&self) -> (r: &Arena<Bubble>)
        ensures
            *r == self.slots(),
    {
        &self.arena
    }

    /// Walks the bubbles from the top and lists their handles.
    pub fn handles(&self) -> (r: Vec<Index>)
        requires
            self.wf(),
        ensures
            r@ == self.reachable(),
            r@.no_duplicates(),
    {
        let ghost m = self.arena@;
        let ghost ns = self.layout@;
        let mut out: Vec<Index> = Vec::new();
        let mut cur = self.top;
        let ghost mut k: int = 0;
        proof {
            assert(ns.take(0) =~= Seq::<Layout>::empty());
            self.lemma_no_alias();
        }
        loop
            invariant
                0 <= k <= ns.len(),
                self.arena.wf(),
                m == self.arena@,
                chain_ok(m, ns, None),
                cur == head(ns.skip(k), None),
                out@ == flat_all(ns.take(k)),
            ensures
                out@ == flat_all(ns),
            decreases ns.len() - k,
        {
            let Some(at) = cur else {
                proof {
                    assert(ns.take(k) =~= ns);
                }
                break;
            };
            proof {
                assert(ns.skip(k)[0] == ns[k]);
                lemma_slot(m, ns, None, k);
                assert(ns.take(k + 1).drop_last() =~= ns.take(k));
                assert(ns.take(k + 1).last() == ns[k]);
                if k + 1 < ns.len() {
                    assert(ns.skip(k + 1)[0] == ns[k + 1]);
                }
            }
            let after = fetch(&self.arena, at).next();
            list(&self.arena, at, &mut out, Ghost(ns[k]), Ghost(succ(ns, k, None)));
            proof {
                assert(out@ =~= flat_all(ns.take(k + 1)));
                k = k + 1;
            }
            cur = after;
        }
        out
    }

    /// Walks down the chain from the top, `limit` places at most, and gives
    /// the bubble reached with its place.
    fn move_next(&self, limit: Option<usize>) -> (r: (Index, usize))
        requires
            self.wf(),
            self.layout@.len() > 0,
        ensures
            r.1 < self.layout@.len(),
            r.0 == Index(place(self.layout@[r.1 as int])),
            limit matches Some(l) ==> r.1 == (if l < self.layout@.len() {
                l as int
            } else {
                self.layout@.len() - 1
            }),
            limit is None ==> r.1 == self.layout@.len() - 1,
    {
        let ghost m = self.arena@;
        let ghost ns = self.layout@;
        let mut cur = match self.top {
            Some(first) => first,
            None => Index(0),
        };
        let mut k: usize = 0;
        loop
            invariant
                self.arena.wf(),
                m == self.arena@,
                chain_ok(m, ns, None),
                k < ns.len(),
                cur == Index(place(ns[k as int])),
                limit matches Some(l) ==> k <= l,
            ensures
                k < ns.len(),
                cur == Index(place(ns[k as int])),
                limit matches Some(l) ==> k == (if l < ns.len() {
                    l as int
                } else {
                    ns.len() - 1
                }),
                limit is None ==> k == ns.len() - 1,
            decreases ns.len() - k,
        {
            let stop = match limit {
                Some(l) => k >= l,
                None => false,
            };
            if stop {
                break;
            }
            proof {
                lemma_slot(m, ns, None, k as int);
            }
            match fetch(&self.arena, cur).next() {
                Some(next) => {
                    proof {
                        self.arena.lemma_len_bound();
                        lemma_chain_short(m, ns, None);
                        lemma_slot(m, ns, None, k + 1);
                    }
                    cur = next;
                    k = k + 1;
                },
                None => {
                    break;
                },
            }
        }
        (cur, k)
    }

    /// Combines the top two bubbles into one, with one operation or with two.
    fn combine_with<F1: Fn(Value, Value) -> Value, F2: Fn(Value, Value) -> Value>(
        &mut self,
        op1: &F1,
        op2: &F2,
        pair: bool,
    ) -> (r: Option<()>)
        requires
            old(self).wf(),
            old(self).chain().len() >= 2 ==> combine_pre(
                *op1,
                *op2,
                pair,
                old(self).chain()[0],
                old(self).chain()[1],
            ),
        ensures
            final(self).wf(),
            old(self).chain().len() < 2 ==> r is None && final(self).chain() == old(self).chain(),
            old(self).chain().len() >= 2 ==> {
                &&& r is Some
                &&& final(self).chain().len() == old(self).chain().len() - 1
                &&& combine_post(
                    *op1,
                    *op2,
                    pair,
                    old(self).chain()[0],
                    old(self).chain()[1],
                    final(self).chain()[0],
                )
                &&& final(self).chain().skip(1) == old(self).chain().skip(2)
            },
    {
        let ghost m = self.arena@;
        let ghost ns = self.layout@;
        proof {
            self.arena.lemma_len_bound();
            lemma_trees(ns);
        }
        let Some(l) = self.top else {
            return None;
        };
        proof {
            lemma_slot(m, ns, None, 0);
        }
        let Some(r) = fetch(&self.arena, l).next() else {
            return None;
        };
        let ghost n0 = ns[0];
        let ghost n1 = ns[1];
        let ghost rest = ns.skip(2);
        let ghost both = owned(n0).union(owned(n1));
        proof {
            lemma_slot(m, ns, None, 1);
            lemma_chain_pair(m, ns, None, 0, 1);
            lemma_chain_split(m, ns, 2, None);
            lemma_owned_join(seq![n0], seq![n1]);
            lemma_owned_one(n0);
            lemma_owned_one(n1);
            assert(ns.take(2) =~= seq![n0] + seq![n1]);
            assert(owned_all(rest).disjoint(both));
            lemma_trees_part(ns, 2, ns.len() as int);
            lemma_chain_occupied(m, rest, None);
        }
        let third = fetch(&self.arena, r).next();
        let (out, Ghost(made)) = zip(
            &mut self.arena,
            l,
            r,
            op1,
            op2,
            pair,
            Ghost(n0),
            Ghost(succ(ns, 0, None)),
            Ghost(n1),
            Ghost(succ(ns, 1, None)),
        );
        let ghost m1 = self.arena@;
        proof {
            lemma_node_slot(m1, made, None);
            lemma_chain_touched(m, m1, rest, None, both);
            lemma_owns_place(made);
            assert(owned(made).disjoint(owned_all(rest)));
        }
        set_next(&mut self.arena, out, third);
        self.top = Some(out);
        proof {
            let m2 = self.arena@;
            lemma_node_retarget(m1, m2, made, None, third);
            lemma_chain_apart(m1, m2, rest, None, out.0);
            lemma_chain_one(m2, made, head(rest, None));
            lemma_chain_join(m2, seq![made], rest, None);
            self.layout@ = seq![made] + rest;
            lemma_trees_join(seq![made], rest);
            lemma_trees(seq![made]);
            assert(self.chain().skip(1) =~= old(self).chain().skip(2));
            lemma_owned_join(ns.take(2), rest);
            lemma_owned_join(seq![made], rest);
            lemma_owned_one(made);
            assert(tight(m2, seq![made] + rest)) by {
                assert forall|h: usize| h < m2.len() && (#[trigger] m2[h as int]) is Some implies owned_all(
                    seq![made] + rest,
                ).contains(h) by {
                    assert(m1[h as int] is Some);
                    if !owned(made).contains(h) {
                        assert(m[h as int] is Some);
                        assert(!both.contains(h));
                        assert(owned_all(ns).contains(h));
                    }
                }
            }
        }
        Some(())
    }
}

impl Default for Abyss {
    fn default() -> (r: Self)
        ensures
            r.wf(),
            r.chain() == Seq::<Tree>::empty(),
    {
        Abyss::new()
    }
}

impl crate::abyss::Abyss for Abyss {
    open spec fn inv(&self) -> bool {
        self.wf()
    }

    open spec fn view(&self) -> Seq<Tree> {
        self.chain()
    }

    fn is_empty(&self) -> (r: bool)
    {
        proof {
            lemma_trees(self.layout@);
        }
        self.top.is_none()
    }

    fn blow_awascii(&mut self, awascii: &[AwaSCII]) -> (r: Option<()>)
    {
        let len = awascii.len();
        if len == 0 {
            return self.blow(0);
        }
        let ghost ns = self.layout@;
        let ghost mut row: Seq<Layout> = Seq::empty();
        let mut i = len;
        let mut first: Option<Index> = None;
        let mut last = Index(0);
        proof {
            lemma_chain_none(self.arena@, None);
            lemma_owned_none();
        }
        while i > 0
            invariant
                0 <= i <= len,
                len == awascii@.len(),
                self.arena.wf(),
                self.top == old(self).top,
                self.layout@ == ns,
                chain_ok(self.arena@, ns, None),
                chain_ok(self.arena@, row, None),
                owned_all(row).disjoint(owned_all(ns)),
                bounded(old(self).arena@, self.arena@, Set::empty(), owned_all(row)),
                row.len() == len - i,
                first == head(row, None),
                row.len() > 0 ==> last == Index(place(row.last())),
                trees_of(row) =~= Seq::new(
                    (len - i) as nat,
                    |j: int| Tree::Single(codes(awascii@)[i + j] as Value),
                ),
            decreases i,
        {
            i = i - 1;
            let ghost m = self.arena@;
            let value = awascii[i].code() as Value;
            let at = settle(&mut self.arena, Bubble::Single { value, next: first });
            proof {
                let n = Layout::Single { at: at.0, value };
                let m2 = self.arena@;
                lemma_vacant(m, ns, None, at.0);
                lemma_vacant(m, row, None, at.0);
                lemma_chain_kept(m, m2, ns, None);
                lemma_chain_kept(m, m2, row, None);
                lemma_chain_one(m2, n, head(row, None));
                lemma_chain_join(m2, seq![n], row, None);
                lemma_owned_join(seq![n], row);
                lemma_trees_join(seq![n], row);
                lemma_trees(seq![n]);
                let grown = seq![n] + row;
                assert(grown.last() == if row.len() > 0 {
                    row.last()
                } else {
                    n
                });
                assert(trees_of(grown) =~= Seq::new(
                    (len - i) as nat,
                    |j: int| Tree::Single(codes(awascii@)[i + j] as Value),
                ));
                lemma_owned_one(n);
                assert(bounded(old(self).arena@, m2, Set::empty(), owned_all(grown))) by {
                    assert forall|h: usize| h < m2.len() && (#[trigger] m2[h as int]) is Some implies owned_all(
                        grown,
                    ).contains(h) || (h < old(self).arena@.len() && old(self).arena@[h as int] is Some) by {
                        if h != at.0 {
                            assert(m[h as int] is Some);
                        }
                    }
                }
                row = grown;
            }
            if first.is_none() {
                last = at;
            }
            first = Some(at);
        }
        let Some(front) = first else {
            return Some(());
        };
        let ghost m = self.arena@;
        let at = settle(&mut self.arena, Bubble::Double { inner: (front, last), next: self.top });
        self.top = Some(at);
        proof {
            let m2 = self.arena@;
            let n = Layout::Double { at: at.0, inner: row };
            lemma_vacant(m, ns, None, at.0);
            lemma_vacant(m, row, None, at.0);
            lemma_chain_kept(m, m2, ns, None);
            lemma_chain_kept(m, m2, row, None);
            lemma_node_wrap(m2, at.0, row, head(ns, None));
            lemma_chain_one(m2, n, head(ns, None));
            lemma_unfold(n);
            assert(owned(n).disjoint(owned_all(ns)));
            lemma_chain_join(m2, seq![n], ns, None);
            self.layout@ = seq![n] + ns;
            lemma_trees_join(seq![n], ns);
            lemma_trees(seq![n]);
            assert(trees_of(row) =~= text_bubble(codes(awascii@))->Double_0);
            assert(self.chain() =~= seq![text_bubble(codes(awascii@))] + old(self).chain());
            lemma_owned_join(seq![n], ns);
            lemma_owned_one(n);
            assert(tight(m2, seq![n] + ns)) by {
                assert forall|h: usize| h < m2.len() && (#[trigger] m2[h as int]) is Some implies owned_all(
                    seq![n] + ns,
                ).contains(h) by {
                    if h != at.0 {
                        assert(m[h as int] is Some);
                    }
                }
            }
        }
        Some(())
    }

    fn blow(&mut self, value: Value) -> (r: Option<()>)
    {
        let ghost m = self.arena@;
        let ghost ns = self.layout@;
        let at = settle(&mut self.arena, Bubble::Single { value, next: self.top });
        self.top = Some(at);
        proof {
            let n = Layout::Single { at: at.0, value };
            let m2 = self.arena@;
            lemma_vacant(m, ns, None, at.0);
            lemma_chain_kept(m, m2, ns, None);
            lemma_chain_one(m2, n, head(ns, None));
            lemma_chain_join(m2, seq![n], ns, None);
            self.layout@ = seq![n] + ns;
            lemma_trees_join(seq![n], ns);
            lemma_trees(seq![n]);
            assert(self.chain() =~= seq![Tree::Single(value)] + old(self).chain());
            lemma_owned_join(seq![n], ns);
            lemma_owned_one(n);
            assert(tight(m2, seq![n] + ns));
        }
        Some(())
    }

    fn submerge(&mut self, distance: usize) -> (r: Option<()>)
    {
        let ghost m = self.arena@;
        let ghost ns = self.layout@;
        proof {
            lemma_trees(ns);
        }
        let Some(first) = self.top else {
            return None;
        };
        let limit = if distance == 0 {
            None
        } else {
            Some(distance)
        };
        let (before, k) = self.move_next(limit);
        assert(k == depth(ns.len(), distance as nat));
        if k == 0 {
            assert(submerged(old(self).chain(), distance as nat) =~= old(self).chain());
            return Some(());
        }
        let ghost n0 = ns[0];
        let ghost mid = ns.subrange(1, k + 1);
        let ghost tail = ns.skip(k + 1);
        proof {
            lemma_chain_split(m, ns, 1, None);
            lemma_chain_split(m, ns.skip(1), k as int, None);
            assert(ns.skip(1).take(k as int) =~= mid);
            assert(ns.skip(1).skip(k as int) =~= tail);
            assert(ns.take(1) =~= seq![n0]);
            assert(ns.skip(1) =~= mid + tail);
            lemma_owned_join(mid, tail);
            lemma_slot(m, ns, None, 0);
            lemma_slot(m, mid, head(tail, None), mid.len() - 1);
            assert(mid.last() == ns[k as int]);
            assert(mid[0] == ns[1]);
            lemma_chain_one(m, n0, head(ns.skip(1), None));
            lemma_owns_place(n0);
            assert(owned(n0).disjoint(owned_all(ns.skip(1))));
            assert(!owned_all(ns.skip(1)).contains(first.0));
            assert(!owned_all(mid).contains(first.0));
            assert(!owned_all(tail).contains(first.0));
            assert(owned_all(mid).contains(before.0));
            assert(!owned_all(tail).contains(before.0));
            assert(!owned(n0).contains(before.0));
        }
        let after = fetch(&self.arena, before).next();
        let second = fetch(&self.arena, first).next();
        set_next(&mut self.arena, before, Some(first));
        let ghost m1 = self.arena@;
        set_next(&mut self.arena, first, after);
        self.top = second;
        proof {
            let m2 = self.arena@;
            lemma_chain_retarget(m, m1, mid, head(tail, None), Some(first));
            lemma_chain_apart(m1, m2, mid, Some(first), first.0);
            lemma_chain_apart(m, m1, tail, None, before.0);
            lemma_chain_apart(m1, m2, tail, None, first.0);
            lemma_chain_apart(m, m1, seq![n0], head(ns.skip(1), None), before.0);
            lemma_chain_retarget(m1, m2, seq![n0], head(ns.skip(1), None), head(tail, None));
            lemma_chain_join(m2, seq![n0], tail, None);
            lemma_owned_join(seq![n0], tail);
            lemma_chain_join(m2, mid, seq![n0] + tail, None);
            self.layout@ = mid + (seq![n0] + tail);
            lemma_trees_join(mid, seq![n0] + tail);
            lemma_trees_join(seq![n0], tail);
            lemma_trees(seq![n0]);
            lemma_trees_part(ns, 1, k + 1);
            lemma_trees_part(ns, k + 1, ns.len() as int);
            assert(self.chain() =~= submerged(old(self).chain(), distance as nat));
            lemma_owned_join(ns.take(1), ns.skip(1));
            lemma_owned_one(n0);
            lemma_owned_join(mid, seq![n0] + tail);
            assert(tight(m2, mid + (seq![n0] + tail))) by {
                assert forall|h: usize| h < m2.len() && (#[trigger] m2[h as int]) is Some implies owned_all(
                    mid + (seq![n0] + tail),
                ).contains(h) by {
                    assert(m1[h as int] is Some);
                    assert(m[h as int] is Some);
                    assert(owned_all(ns).contains(h));
                }
            }
        }
        Some(())
    }

    fn pop(&mut self) -> (r: Option<()>)
    {
        let ghost m = self.arena@;
        let ghost ns = self.layout@;
        proof {
            lemma_trees(ns);
        }
        let Some(first) = self.top else {
            return None;
        };
        let ghost rest = ns.skip(1);
        proof {
            lemma_slot(m, ns, None, 0);
            lemma_chain_split(m, ns, 1, None);
            assert(ns.take(1) =~= seq![ns[0]]);
            lemma_chain_one(m, ns[0], head(rest, None));
            lemma_trees_part(ns, 1, ns.len() as int);
            assert(owned(ns[0]).disjoint(owned_all(rest)));
        }
        match release(&mut self.arena, first) {
            Bubble::Single { next, .. } => {
                self.top = next;
                proof {
                    lemma_chain_apart(m, self.arena@, rest, None, first.0);
                    self.layout@ = rest;
                    assert(self.chain() =~= popped(old(self).chain()));
                    lemma_owned_join(ns.take(1), rest);
                    lemma_owned_one(ns[0]);
                    lemma_unfold(ns[0]);
                    assert(tight(self.arena@, rest)) by {
                        assert forall|h: usize|
                            h < self.arena@.len() && (#[trigger] self.arena@[h as int]) is Some implies owned_all(
                            rest,
                        ).contains(h) by {
                            assert(m[h as int] is Some);
                            assert(owned_all(ns).contains(h));
                        }
                    }
                }
            },
            Bubble::Double { inner: (head_at, last_at), next } => {
                let ghost row = ns[0]->Double_inner;
                let ghost m1 = self.arena@;
                proof {
                    lemma_chain_apart(m, m1, row, None, first.0);
                    lemma_chain_apart(m, m1, rest, None, first.0);
                    lemma_slot(m1, row, None, row.len() - 1);
                }
                set_next(&mut self.arena, last_at, next);
                self.top = Some(head_at);
                proof {
                    let m2 = self.arena@;
                    lemma_chain_retarget(m1, m2, row, None, next);
                    lemma_chain_apart(m1, m2, rest, None, last_at.0);
                    lemma_unfold(ns[0]);
                    assert(owned_all(row).disjoint(owned_all(rest)));
                    lemma_chain_join(m2, row, rest, None);
                    self.layout@ = row + rest;
                    lemma_trees_join(row, rest);
                    assert(self.chain() =~= popped(old(self).chain()));
                    lemma_owned_join(ns.take(1), rest);
                    lemma_owned_one(ns[0]);
                    lemma_owned_join(row, rest);
                    assert(tight(m2, row + rest)) by {
                        assert forall|h: usize| h < m2.len() && (#[trigger] m2[h as int]) is Some implies owned_all(
                            row + rest,
                        ).contains(h) by {
                            assert(m1[h as int] is Some);
                            assert(m[h as int] is Some);
                            assert(owned_all(ns).contains(h));
                        }
                    }
                }
            },
        }
        Some(())
    }

    fn double_pop(&mut self) -> (r: Option<()>)
    {
        let ghost m = self.arena@;
        let ghost ns = self.layout@;
        proof {
            lemma_trees(ns);
        }
        let Some(first) = self.top else {
            return None;
        };
        let ghost rest = ns.skip(1);
        proof {
            lemma_slot(m, ns, None, 0);
            lemma_chain_split(m, ns, 1, None);
            assert(ns.take(1) =~= seq![ns[0]]);
            lemma_owned_one(ns[0]);
            lemma_trees_part(ns, 1, ns.len() as int);
        }
        let after = fetch(&self.arena, first).next();
        discard(&mut self.arena, first, Ghost(ns[0]), Ghost(succ(ns, 0, None)));
        self.top = after;
        proof {
            lemma_chain_cleared(m, self.arena@, rest, None, owned(ns[0]));
            self.layout@ = rest;
            lemma_owned_join(ns.take(1), rest);
            assert(tight(self.arena@, rest)) by {
                assert forall|h: usize|
                    h < self.arena@.len() && (#[trigger] self.arena@[h as int]) is Some implies owned_all(
                    rest,
                ).contains(h) by {
                    assert(m[h as int] is Some);
                    assert(owned_all(ns).contains(h));
                }
            }
        }
        Some(())
    }

    fn duplicate(&mut self) -> (r: Option<()>)
    {
        let ghost m = self.arena@;
        let ghost ns = self.layout@;
        proof {
            lemma_trees(ns);
        }
        let Some(first) = self.top else {
            return None;
        };
        proof {
            lemma_slot(m, ns, None, 0);
        }
        let (twin, Ghost(made)) = deep_copy(&mut self.arena, first, Ghost(ns[0]), Ghost(succ(ns, 0, None)));
        let ghost m1 = self.arena@;
        proof {
            lemma_node_slot(m1, made, None);
        }
        set_next(&mut self.arena, twin, Some(first));
        self.top = Some(twin);
        proof {
            let m2 = self.arena@;
            lemma_chain_kept(m, m1, ns, None);
            lemma_chain_occupied(m, ns, None);
            lemma_owns_place(made);
            assert(!owned_all(ns).contains(twin.0));
            lemma_chain_apart(m1, m2, ns, None, twin.0);
            lemma_node_retarget(m1, m2, made, None, Some(first));
            lemma_chain_one(m2, made, head(ns, None));
            assert(owned(made).disjoint(owned_all(ns)));
            lemma_chain_join(m2, seq![made], ns, None);
            self.layout@ = seq![made] + ns;
            lemma_trees_join(seq![made], ns);
            lemma_trees(seq![made]);
            assert(self.chain() =~= seq![old(self).chain()[0]] + old(self).chain());
            lemma_owned_join(seq![made], ns);
            lemma_owned_one(made);
            assert(tight(m2, seq![made] + ns)) by {
                assert forall|h: usize| h < m2.len() && (#[trigger] m2[h as int]) is Some implies owned_all(
                    seq![made] + ns,
                ).contains(h) by {
                    assert(m1[h as int] is Some);
                    if !owned(made).contains(h) {
                        assert(m[h as int] is Some);
                    }
                }
            }
        }
        Some(())
    }

    fn surround(&mut self, count: usize) -> (r: Option<()>)
    {
        if count == 0 {
            return Some(());
        }
        let ghost m = self.arena@;
        let ghost ns = self.layout@;
        proof {
            lemma_trees(ns);
        }
        let Some(first) = self.top else {
            return None;
        };
        let (last, k) = self.move_next(Some(count - 1));
        if k < count - 1 {
            return None;
        }
        let ghost a = ns.take(count as int);
        let ghost b = ns.skip(count as int);
        proof {
            lemma_chain_split(m, ns, count as int, None);
            lemma_slot(m, a, head(b, None), a.len() - 1);
            assert(a.last() == ns[k as int]);
            assert(a[0] == ns[0]);
        }
        let after = fetch(&self.arena, last).next();
        set_next(&mut self.arena, last, None);
        let ghost m1 = self.arena@;
        let at = settle(&mut self.arena, Bubble::Double { inner: (first, last), next: after });
        self.top = Some(at);
        proof {
            let m2 = self.arena@;
            let n = Layout::Double { at: at.0, inner: a };
            lemma_chain_retarget(m, m1, a, head(b, None), None);
            lemma_chain_apart(m, m1, b, None, last.0);
            lemma_vacant(m1, a, None, at.0);
            lemma_vacant(m1, b, None, at.0);
            lemma_chain_kept(m1, m2, a, None);
            lemma_chain_kept(m1, m2, b, None);
            lemma_node_wrap(m2, at.0, a, head(b, None));
            lemma_chain_one(m2, n, head(b, None));
            lemma_unfold(n);
            assert(owned(n).disjoint(owned_all(b)));
            lemma_chain_join(m2, seq![n], b, None);
            self.layout@ = seq![n] + b;
            lemma_trees_join(seq![n], b);
            lemma_trees(seq![n]);
            lemma_trees_part(ns, 0, count as int);
            lemma_trees_part(ns, count as int, ns.len() as int);
            assert(self.chain() =~= surrounded(old(self).chain(), count as nat));
            lemma_owned_join(a, b);
            lemma_owned_join(seq![n], b);
            lemma_owned_one(n);
            assert(tight(m2, seq![n] + b)) by {
                assert forall|h: usize| h < m2.len() && (#[trigger] m2[h as int]) is Some implies owned_all(
                    seq![n] + b,
                ).contains(h) by {
                    if h != at.0 {
                        assert(m1[h as int] is Some);
                        assert(m[h as int] is Some);
                        assert(owned_all(ns).contains(h));
                    }
                }
            }
        }
        Some(())
    }

    fn merge(&mut self) -> (r: Option<()>)
    {
        let ghost m = self.arena@;
        let ghost ns = self.layout@;
        proof {
            lemma_trees(ns);
        }
        let Some(first) = self.top else {
            return None;
        };
        proof {
            lemma_slot(m, ns, None, 0);
        }
        let top = fetch(&self.arena, first);
        let Some(second) = top.next() else {
            return None;
        };
        let ghost n0 = ns[0];
        let ghost n1 = ns[1];
        let ghost rest = ns.skip(2);
        proof {
            lemma_slot(m, ns, None, 1);
            lemma_chain_pair(m, ns, None, 0, 1);
            lemma_chain_split(m, ns, 2, None);
            lemma_owned_join(seq![n0], seq![n1]);
            lemma_owned_one(n0);
            lemma_owned_one(n1);
            assert(ns.take(2) =~= seq![n0] + seq![n1]);
            assert(owned(n0).disjoint(owned_all(rest)));
            assert(owned(n1).disjoint(owned_all(rest)));
            lemma_unfold(n0);
            lemma_unfold(n1);
            lemma_trees_part(ns, 2, ns.len() as int);
        }
        let below = fetch(&self.arena, second);
        match (top, below) {
            (Bubble::Single { .. }, Bubble::Single { .. }) => {
                let r = self.surround(2);
                proof {
                    let chain = old(self).chain();
                    assert(chain[0] is Single && chain[1] is Single);
                    assert(chain.take(2) =~= parts(chain[0]) + parts(chain[1]));
                    assert(surrounded(chain, 2) =~= merged(chain));
                }
                r
            },
            (Bubble::Single { .. }, Bubble::Double { inner: (right_first, right_last), next: third }) => {
                let ghost row = n1->Double_inner;
                set_next(&mut self.arena, first, Some(right_first));
                let ghost m1 = self.arena@;
                put(
                    &mut self.arena,
                    second,
                    Bubble::Double { inner: (first, right_last), next: third },
                );
                self.top = Some(second);
                proof {
                    let m2 = self.arena@;
                    let inner = seq![n0] + row;
                    let n = Layout::Double { at: second.0, inner };
                    lemma_node_retarget(m, m1, n0, Some(second), Some(right_first));
                    lemma_chain_apart(m, m1, row, None, first.0);
                    lemma_chain_apart(m, m1, rest, None, first.0);
                    lemma_chain_one(m1, n0, head(row, None));
                    lemma_chain_join(m1, seq![n0], row, None);
                    lemma_owned_join(seq![n0], row);
                    lemma_chain_apart(m1, m2, inner, None, second.0);
                    lemma_chain_apart(m1, m2, rest, None, second.0);
                    assert(inner[0] == n0);
                    assert(inner.last() == row.last());
                    lemma_node_wrap(m2, second.0, inner, third);
                    lemma_chain_one(m2, n, head(rest, None));
                    lemma_unfold(n);
                    assert(owned(n).disjoint(owned_all(rest)));
                    lemma_chain_join(m2, seq![n], rest, None);
                    self.layout@ = seq![n] + rest;
                    lemma_trees_join(seq![n], rest);
                    lemma_trees(seq![n]);
                    lemma_trees_join(seq![n0], row);
                    lemma_trees(seq![n0]);
                    assert(trees_of(inner) =~= parts(old(self).chain()[0]) + parts(old(self).chain()[1]));
                    assert(self.chain() =~= merged(old(self).chain()));
                    lemma_owned_join(ns.take(2), rest);
                    lemma_owned_join(seq![n], rest);
                    lemma_owned_one(n);
                    assert(tight(m2, seq![n] + rest)) by {
                        assert forall|h: usize| h < m2.len() && (#[trigger] m2[h as int]) is Some implies owned_all(
                            seq![n] + rest,
                        ).contains(h) by {
                            assert(m1[h as int] is Some);
                            assert(m[h as int] is Some);
                            assert(owned_all(ns).contains(h));
                        }
                    }
                }
                Some(())
            },
            (Bubble::Double { inner: (left_first, left_last), .. }, Bubble::Single { next: third, .. }) => {
                let ghost row = n0->Double_inner;
                proof {
                    lemma_slot(m, row, None, row.len() - 1);
                    lemma_chain_one(m, n1, third);
                }
                set_next(&mut self.arena, left_last, Some(second));
                let ghost m1 = self.arena@;
                set_next(&mut self.arena, second, None);
                let ghost m2 = self.arena@;
                put(
                    &mut self.arena,
                    first,
                    Bubble::Double { inner: (left_first, second), next: third },
                );
                proof {
                    let m3 = self.arena@;
                    let inner = row + seq![n1];
                    let n = Layout::Double { at: first.0, inner };
                    lemma_chain_retarget(m, m1, row, None, Some(second));
                    lemma_chain_apart(m, m1, seq![n1], third, left_last.0);
                    lemma_chain_apart(m, m1, rest, None, left_last.0);
                    lemma_chain_apart(m1, m2, row, Some(second), second.0);
                    lemma_chain_retarget(m1, m2, seq![n1], third, None);
                    lemma_chain_apart(m1, m2, rest, None, second.0);
                    lemma_chain_join(m2, row, seq![n1], None);
                    lemma_owned_join(row, seq![n1]);
                    lemma_chain_apart(m2, m3, inner, None, first.0);
                    lemma_chain_apart(m2, m3, rest, None, first.0);
                    assert(inner[0] == row[0]);
                    assert(inner.last() == n1);
                    lemma_node_wrap(m3, first.0, inner, third);
                    lemma_chain_one(m3, n, head(rest, None));
                    lemma_unfold(n);
                    assert(owned(n).disjoint(owned_all(rest)));
                    lemma_chain_join(m3, seq![n], rest, None);
                    self.layout@ = seq![n] + rest;
                    lemma_trees_join(seq![n], rest);
                    lemma_trees(seq![n]);
                    lemma_trees_join(row, seq![n1]);
                    lemma_trees(seq![n1]);
                    assert(trees_of(inner) =~= parts(old(self).chain()[0]) + parts(old(self).chain()[1]));
                    assert(self.chain() =~= merged(old(self).chain()));
                    lemma_owned_join(ns.take(2), rest);
                    lemma_owned_join(seq![n], rest);
                    lemma_owned_one(n);
                    assert(tight(m3, seq![n] + rest)) by {
                        assert forall|h: usize| h < m3.len() && (#[trigger] m3[h as int]) is Some implies owned_all(
                            seq![n] + rest,
                        ).contains(h) by {
                            assert(m2[h as int] is Some);
                            assert(m1[h as int] is Some);
                            assert(m[h as int] is Some);
                            assert(owned_all(ns).contains(h));
                        }
                    }
                }
                Some(())
            },
            (
                Bubble::Double { inner: (left_first, left_last), .. },
                Bubble::Double { inner: (right_first, right_last), next: third },
            ) => {
                let ghost left = n0->Double_inner;
                let ghost right = n1->Double_inner;
                proof {
                    lemma_slot(m, left, None, left.len() - 1);
                }
                release(&mut self.arena, second);
                let ghost m1 = self.arena@;
                set_next(&mut self.arena, left_last, Some(right_first));
                let ghost m2 = self.arena@;
                put(
                    &mut self.arena,
                    first,
                    Bubble::Double { inner: (left_first, right_last), next: third },
                );
                proof {
                    let m3 = self.arena@;
                    let inner = left + right;
                    let n = Layout::Double { at: first.0, inner };
                    lemma_chain_apart(m, m1, left, None, second.0);
                    lemma_chain_apart(m, m1, right, None, second.0);
                    lemma_chain_apart(m, m1, rest, None, second.0);
                    lemma_chain_retarget(m1, m2, left, None, Some(right_first));
                    lemma_chain_apart(m1, m2, right, None, left_last.0);
                    lemma_chain_apart(m1, m2, rest, None, left_last.0);
                    lemma_chain_join(m2, left, right, None);
                    lemma_owned_join(left, right);
                    lemma_chain_apart(m2, m3, inner, None, first.0);
                    lemma_chain_apart(m2, m3, rest, None, first.0);
                    assert(inner[0] == left[0]);
                    assert(inner.last() == right.last());
                    lemma_node_wrap(m3, first.0, inner, third);
                    lemma_chain_one(m3, n, head(rest, None));
                    lemma_unfold(n);
                    assert(owned(n).disjoint(owned_all(rest)));
                    lemma_chain_join(m3, seq![n], rest, None);
                    self.layout@ = seq![n] + rest;
                    lemma_trees_join(seq![n], rest);
                    lemma_trees(seq![n]);
                    lemma_trees_join(left, right);
                    assert(trees_of(inner) =~= parts(old(self).chain()[0]) + parts(old(self).chain()[1]));
                    assert(self.chain() =~= merged(old(self).chain()));
                    lemma_owned_join(ns.take(2), rest);
                    lemma_owned_join(seq![n], rest);
                    lemma_owned_one(n);
                    assert(tight(m3, seq![n] + rest)) by {
                        assert forall|h: usize| h < m3.len() && (#[trigger] m3[h as int]) is Some implies owned_all(
                            seq![n] + rest,
                        ).contains(h) by {
                            assert(m2[h as int] is Some);
                            assert(m1[h as int] is Some);
                            assert(m[h as int] is Some);
                            assert(h != second.0);
                            assert(owned_all(ns).contains(h));
                        }
                    }
                }
                Some(())
            },
        }
    }

    fn count(&mut self) -> (r: Option<()>)
    {
        let ghost m = self.arena@;
        let ghost ns = self.layout@;
        proof {
            lemma_trees(ns);
        }
        let Some(first) = self.top else {
            return None;
        };
        proof {
            lemma_slot(m, ns, None, 0);
            lemma_unfold(ns[0]);
            if ns[0] is Double {
                lemma_trees(ns[0]->Double_inner);
            }
        }
        let n = match fetch(&self.arena, first) {
            Bubble::Single { .. } => 0,
            Bubble::Double { inner: (inner_first, _), .. } => find_count(
                &self.arena,
                inner_first,
                Ghost(ns[0]->Double_inner),
            ),
        };
        let Some(value) = value_of_len(n) else {
            return None;
        };
        self.blow(value)
    }

    fn combine_single<F: Fn(Value, Value) -> Value>(&mut self, op: F) -> (r: Option<()>)
    {
        self.combine_with(&op, &op, false)
    }

    fn combine_double<F1: Fn(Value, Value) -> Value, F2: Fn(Value, Value) -> Value>(
        &mut self,
        op1: F1,
        op2: F2,
    ) -> (r: Option<()>)
    {
        self.combine_with(&op1, &op2, true)
    }

    fn can_divide(&mut self) -> (r: Option<bool>) {
        let ghost m = self.arena@;
        let ghost ns = self.layout@;
        proof {
            lemma_trees(ns);
        }
        let Some(l) = self.top else {
            return None;
        };
        proof {
            lemma_slot(m, ns, None, 0);
        }
        let Some(r) = fetch(&self.arena, l).next() else {
            return None;
        };
        proof {
            lemma_slot(m, ns, None, 1);
        }
        Some(
            zip_divides(
                &self.arena,
                l,
                r,
                Ghost(ns[0]),
                Ghost(succ(ns, 0, None)),
                Ghost(ns[1]),
                Ghost(succ(ns, 1, None)),
            ),
        )
    }

    fn test<F: Fn(&Value, &Value) -> bool>(&mut self, test: F) -> (r: Option<bool>)
    {
        let ghost m = self.arena@;
        let ghost ns = self.layout@;
        proof {
            lemma_trees(ns);
        }
        let Some(first) = self.top else {
            return None;
        };
        proof {
            lemma_slot(m, ns, None, 0);
            lemma_unfold(ns[0]);
        }
        let top = fetch(&self.arena, first);
        let Some(second) = top.next() else {
            return None;
        };
        proof {
            lemma_slot(m, ns, None, 1);
            lemma_unfold(ns[1]);
        }
        let below = fetch(&self.arena, second);
        match (top, below) {
            (Bubble::Single { value: a, .. }, Bubble::Single { value: b, .. }) => Some(test(&a, &b)),
            _ => Some(false),
        }
    }

    fn render(&self) -> (r: Vec<u8>) {
        let ghost m = self.arena@;
        let ghost ns = self.layout@;
        let ghost trees = trees_of(ns);
        let mut out: Vec<u8> = Vec::new();
        let mut cur = self.top;
        let ghost mut k: int = 0;
        proof {
            lemma_trees(ns);
            assert(trees.take(0) =~= Seq::<Tree>::empty());
        }
        loop
            invariant
                0 <= k <= ns.len(),
                self.arena.wf(),
                m == self.arena@,
                chain_ok(m, ns, None),
                trees == trees_of(ns),
                trees.len() == ns.len(),
                cur == head(ns.skip(k), None),
                out@ == shown_chain(trees.take(k)),
            ensures
                out@ == shown_chain(trees),
            decreases ns.len() - k,
        {
            let Some(at) = cur else {
                proof {
                    assert(trees.take(k) =~= trees);
                }
                break;
            };
            proof {
                assert(ns.skip(k)[0] == ns[k]);
                lemma_slot(m, ns, None, k);
                lemma_trees(ns);
                assert(trees.take(k + 1).drop_last() =~= trees.take(k));
                assert(trees.take(k + 1).last() == trees[k]);
                if k + 1 < ns.len() {
                    assert(ns.skip(k + 1)[0] == ns[k + 1]);
                }
            }
            let after = fetch(&self.arena, at).next();
            show(&self.arena, at, &mut out, Ghost(ns[k]), Ghost(succ(ns, k, None)));
            out.push(10);
            proof {
                assert(out@ =~= shown_chain(trees.take(k + 1)));
                k = k + 1;
            }
            cur = after;
        }
        out
    }

    fn consume<T, E, F: Fn(Value) -> Result<T, E>>(&mut self, fun: F) -> (r: Result<
        Option<Vec<T>>,
        E,
    >)
    {
        let ghost m = self.arena@;
        let ghost ns = self.layout@;
        proof {
            lemma_trees(ns);
        }
        let Some(first) = self.top else {
            return Ok(None);
        };
        proof {
            lemma_slot(m, ns, None, 0);
        }
        let mut values: Vec<Value> = Vec::new();
        gather(&self.arena, first, &mut values, Ghost(ns[0]), Ghost(succ(ns, 0, None)));
        let ghost numbers = leaves(old(self).chain()[0]);
        assert(values@ =~= numbers);
        let mut out: Vec<T> = Vec::new();
        let mut i: usize = 0;
        while i < values.len()
            invariant
                0 <= i <= values.len(),
                values@ == numbers,
                out@.len() == i,
                self.wf(),
                self.chain() == old(self).chain(),
                self.chain().len() > 0,
                numbers == leaves(old(self).chain()[0]),
                forall|v: Value| call_requires(fun, (v,)),
                forall|j: int| 0 <= j < i ==> call_ensures(fun, (#[trigger] numbers[j],), Ok::<T, E>(out@[j])),
            decreases values.len() - i,
        {
            match fun(values[i]) {
                Ok(taken) => {
                    out.push(taken);
                },
                Err(e) => {
                    proof {
                        assert forall|j: int| 0 <= j < i implies accepted::<T, E, F>(
                            fun,
                            #[trigger] numbers[j],
                        ) by {
                            assert(call_ensures(fun, (numbers[j],), Ok::<T, E>(out@[j])));
                        }
                        assert(taken(fun, numbers, i as int));
                        assert(call_ensures(fun, (numbers[i as int],), Err::<T, E>(e)));
                    }
                    return Err(e);
                },
            }
            i = i + 1;
        }
        self.double_pop();
        Ok(Some(out))
    }
}

} // verus!
