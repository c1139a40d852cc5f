//! What holds of bubbles laid out in an arena.
use crate::abyss::{Tree, parts};
use crate::arena::Index;
use crate::linked::{
    Bubble, Layout, chain_ok, cleared, differ_at, drawn, drawn_all, flat, flat_all, head, kept,
    next_of, node_ok, owned, owned_all, place, places, succ, touched, tree_of, trees_of, vacant,
    with_next,
};
use vstd::prelude::*;
use vstd::set_lib::set_int_range;

verus! {

/// A bubble lies in the slot it is laid out at.
pub(super) proof fn lemma_owns_place(n: Layout)
    ensures
        owned(n).contains(place(n)),
{
    reveal(chain_ok);
    reveal(owned_all);
    reveal(trees_of);
}

/// What a row owns, each of its bubbles owns a part of.
pub(super) proof fn lemma_owned_part(ns: Seq<Layout>, i: int)
    requires
        0 <= i < ns.len(),
    ensures
        owned(ns[i]).subset_of(owned_all(ns)),
        owned_all(ns).contains(place(ns[i])),
{
    reveal(chain_ok);
    reveal(owned_all);
    reveal(trees_of);
    assert forall|h: usize| owned(ns[i]).contains(h) implies owned_all(ns).contains(h) by {}
    lemma_owns_place(ns[i]);
}

/// Every slot of a bubble that the arena holds is occupied.
pub(super) proof fn lemma_node_occupied(m: Seq<Option<Bubble>>, n: Layout, next: Option<Index>)
    requires
        node_ok(m, n, next),
    ensures
        forall|h: usize| #[trigger] owned(n).contains(h) ==> h < m.len() && m[h as int] is Some,
    decreases n,
{
    reveal(chain_ok);
    reveal(owned_all);
    reveal(trees_of);
    match n {
        Layout::Single { .. } => {},
        Layout::Double { at, inner } => {
            lemma_chain_occupied(m, inner, None);
        },
    }
}

/// Every slot of a row that the arena holds is occupied.
pub(super) proof fn lemma_chain_occupied(m: Seq<Option<Bubble>>, ns: Seq<Layout>, end: Option<Index>)
    requires
        chain_ok(m, ns, end),
    ensures
        forall|h: usize| #[trigger] owned_all(ns).contains(h) ==> h < m.len() && m[h as int] is Some,
    decreases ns,
{
    reveal(chain_ok);
    reveal(owned_all);
    reveal(trees_of);
    assert forall|h: usize| #[trigger] owned_all(ns).contains(h) implies h < m.len() && m[h as int] is Some by {
        let i = choose|i: int| 0 <= i < ns.len() && owned(#[trigger] ns[i]).contains(h);
        assert(node_ok(m, ns[i], succ(ns, i, end)));
        lemma_node_occupied(m, ns[i], succ(ns, i, end));
    }
}

/// A bubble stays what it is while its slots stay what they are.
pub(super) proof fn lemma_node_frame(
    m: Seq<Option<Bubble>>,
    m2: Seq<Option<Bubble>>,
    n: Layout,
    next: Option<Index>,
)
    requires
        node_ok(m, n, next),
        forall|h: usize| #[trigger] owned(n).contains(h) ==> h < m2.len() && m2[h as int] == m[h as int],
    ensures
        node_ok(m2, n, next),
    decreases n,
{
    reveal(chain_ok);
    reveal(owned_all);
    reveal(trees_of);
    lemma_owns_place(n);
    match n {
        Layout::Single { .. } => {},
        Layout::Double { at, inner } => {
            assert forall|h: usize| #[trigger] owned_all(inner).contains(h) implies h < m2.len() && m2[h as int]
                == m[h as int] by {
                assert(owned(n).contains(h));
            }
            lemma_chain_frame(m, m2, inner, None);
        },
    }
}

/// A row stays what it is while its slots stay what they are.
pub(super) proof fn lemma_chain_frame(
    m: Seq<Option<Bubble>>,
    m2: Seq<Option<Bubble>>,
    ns: Seq<Layout>,
    end: Option<Index>,
)
    requires
        chain_ok(m, ns, end),
        forall|h: usize| #[trigger] owned_all(ns).contains(h) ==> h < m2.len() && m2[h as int] == m[h as int],
    ensures
        chain_ok(m2, ns, end),
    decreases ns,
{
    reveal(chain_ok);
    reveal(owned_all);
    reveal(trees_of);
    assert forall|i: int| 0 <= i < ns.len() implies node_ok(m2, #[trigger] ns[i], succ(ns, i, end)) by {
        assert(node_ok(m, ns[i], succ(ns, i, end)));
        lemma_owned_part(ns, i);
        assert forall|h: usize| owned(#[trigger] ns[i]).contains(h) implies h < m2.len() && m2[h as int]
            == m[h as int] by {
            assert(owned_all(ns).contains(h));
        }
        lemma_node_frame(m, m2, ns[i], succ(ns, i, end));
    }
}

/// A bubble whose own slot got another bubble to follow, and whose other
/// slots stayed what they were, is followed by that bubble.
pub(super) proof fn lemma_node_relink(
    m: Seq<Option<Bubble>>,
    m2: Seq<Option<Bubble>>,
    n: Layout,
    next: Option<Index>,
    next2: Option<Index>,
)
    requires
        node_ok(m, n, next),
        place(n) < m2.len(),
        m2[place(n) as int] == Some(with_next(m[place(n) as int]->0, next2)),
        forall|h: usize| #[trigger]
            owned(n).contains(h) && h != place(n) ==> h < m2.len() && m2[h as int] == m[h as int],
    ensures
        node_ok(m2, n, next2),
{
    reveal(chain_ok);
    reveal(owned_all);
    reveal(trees_of);
    match n {
        Layout::Single { .. } => {},
        Layout::Double { at, inner } => {
            assert forall|h: usize| #[trigger] owned_all(inner).contains(h) implies h < m2.len() && m2[h as int]
                == m[h as int] by {
                assert(owned(n).contains(h));
            }
            lemma_chain_frame(m, m2, inner, None);
        },
    }
}

/// A row of one bubble.
pub(super) proof fn lemma_chain_one(m: Seq<Option<Bubble>>, n: Layout, end: Option<Index>)
    requires
        node_ok(m, n, end),
    ensures
        chain_ok(m, seq![n], end),
        owned_all(seq![n]) =~= owned(n),
{
    reveal(chain_ok);
    reveal(owned_all);
    reveal(trees_of);
    let ns = seq![n];
    assert(ns[0] == n);
    assert forall|h: usize| owned(n).contains(h) implies owned_all(ns).contains(h) by {
        assert(owned(ns[0]).contains(h));
    }
}

/// What two rows own, their joined row owns.
pub(super) proof fn lemma_owned_join(a: Seq<Layout>, b: Seq<Layout>)
    ensures
        owned_all(a + b) =~= owned_all(a).union(owned_all(b)),
{
    reveal(chain_ok);
    reveal(owned_all);
    reveal(trees_of);
    let ab = a + b;
    assert forall|h: usize| owned_all(ab).contains(h) implies owned_all(a).contains(h) || owned_all(
        b,
    ).contains(h) by {
        let i = choose|i: int| 0 <= i < ab.len() && owned(#[trigger] ab[i]).contains(h);
        if i < a.len() {
            assert(owned(a[i]).contains(h));
        } else {
            assert(owned(b[i - a.len()]).contains(h));
        }
    }
    assert forall|h: usize| owned_all(a).contains(h) implies owned_all(ab).contains(h) by {
        let i = choose|i: int| 0 <= i < a.len() && owned(#[trigger] a[i]).contains(h);
        assert(owned(ab[i]).contains(h));
    }
    assert forall|h: usize| owned_all(b).contains(h) implies owned_all(ab).contains(h) by {
        let i = choose|i: int| 0 <= i < b.len() && owned(#[trigger] b[i]).contains(h);
        assert(owned(ab[i + a.len()]).contains(h));
    }
}

/// Two rows that share no slot, the first ending where the second begins,
/// make one row.
pub(super) proof fn lemma_chain_join(m: Seq<Option<Bubble>>, a: Seq<Layout>, b: Seq<Layout>, end: Option<Index>)
    requires
        chain_ok(m, a, head(b, end)),
        chain_ok(m, b, end),
        owned_all(a).disjoint(owned_all(b)),
    ensures
        chain_ok(m, a + b, end),
{
    reveal(chain_ok);
    reveal(owned_all);
    reveal(trees_of);
    let ab = a + b;
    assert forall|i: int| 0 <= i < ab.len() implies node_ok(m, #[trigger] ab[i], succ(ab, i, end)) by {
        if i < a.len() {
            assert(node_ok(m, a[i], succ(a, i, head(b, end))));
            assert(ab[i] == a[i]);
            if i + 1 < a.len() {
                assert(ab[i + 1] == a[i + 1]);
            } else if b.len() > 0 {
                assert(ab[i + 1] == b[0]);
            }
        } else {
            let j = i - a.len();
            assert(node_ok(m, b[j], succ(b, j, end)));
            assert(ab[i] == b[j]);
            if j + 1 < b.len() {
                assert(ab[i + 1] == b[j + 1]);
            }
        }
    }
    assert forall|i: int, j: int| 0 <= i < j < ab.len() implies owned(#[trigger] ab[i]).disjoint(owned(#[trigger] ab[j])) by {
        if j < a.len() {
            assert(owned(a[i]).disjoint(owned(a[j])));
        } else if i >= a.len() {
            assert(owned(b[i - a.len()]).disjoint(owned(b[j - a.len()])));
        } else {
            lemma_owned_part(a, i);
            lemma_owned_part(b, j - a.len());
        }
    }
}

/// A row falls into two rows that share no slot, the first ending where the
/// second begins.
pub(super) proof fn lemma_chain_split(m: Seq<Option<Bubble>>, ns: Seq<Layout>, k: int, end: Option<Index>)
    requires
        chain_ok(m, ns, end),
        0 <= k <= ns.len(),
    ensures
        chain_ok(m, ns.take(k), head(ns.skip(k), end)),
        chain_ok(m, ns.skip(k), end),
        owned_all(ns.take(k)).disjoint(owned_all(ns.skip(k))),
        ns.take(k) + ns.skip(k) =~= ns,
{
    reveal(chain_ok);
    reveal(owned_all);
    reveal(trees_of);
    let a = ns.take(k);
    let b = ns.skip(k);
    assert forall|i: int| 0 <= i < a.len() implies node_ok(m, #[trigger] a[i], succ(a, i, head(b, end))) by {
        assert(node_ok(m, ns[i], succ(ns, i, end)));
        if i + 1 < a.len() {
            assert(a[i + 1] == ns[i + 1]);
        } else if b.len() > 0 {
            assert(b[0] == ns[i + 1]);
        }
    }
    assert forall|i: int, j: int| 0 <= i < j < a.len() implies owned(#[trigger] a[i]).disjoint(owned(#[trigger] a[j])) by {
        assert(owned(ns[i]).disjoint(owned(ns[j])));
    }
    assert forall|i: int| 0 <= i < b.len() implies node_ok(m, #[trigger] b[i], succ(b, i, end)) by {
        assert(node_ok(m, ns[i + k], succ(ns, i + k, end)));
        if i + 1 < b.len() {
            assert(b[i + 1] == ns[i + k + 1]);
        }
    }
    assert forall|i: int, j: int| 0 <= i < j < b.len() implies owned(#[trigger] b[i]).disjoint(owned(#[trigger] b[j])) by {
        assert(owned(ns[i + k]).disjoint(owned(ns[j + k])));
    }
    assert forall|h: usize| owned_all(a).contains(h) implies !owned_all(b).contains(h) by {
        let i = choose|i: int| 0 <= i < a.len() && owned(#[trigger] a[i]).contains(h);
        if owned_all(b).contains(h) {
            let j = choose|j: int| 0 <= j < b.len() && owned(#[trigger] b[j]).contains(h);
            assert(owned(ns[i]).disjoint(owned(ns[j + k])));
        }
    }
}

/// A row whose last bubble got another one to follow, and whose other slots
/// stayed what they were, ends in that bubble.
pub(super) proof fn lemma_chain_relink(
    m: Seq<Option<Bubble>>,
    m2: Seq<Option<Bubble>>,
    ns: Seq<Layout>,
    end: Option<Index>,
    end2: Option<Index>,
)
    requires
        chain_ok(m, ns, end),
        ns.len() > 0,
        place(ns.last()) < m2.len(),
        m2[place(ns.last()) as int] == Some(with_next(m[place(ns.last()) as int]->0, end2)),
        forall|h: usize| #[trigger]
            owned_all(ns).contains(h) && h != place(ns.last()) ==> h < m2.len() && m2[h as int]
                == m[h as int],
    ensures
        chain_ok(m2, ns, end2),
{
    reveal(chain_ok);
    reveal(owned_all);
    reveal(trees_of);
    let last = ns.len() - 1;
    lemma_owned_part(ns, last);
    assert forall|i: int| 0 <= i < ns.len() implies node_ok(m2, #[trigger] ns[i], succ(ns, i, end2)) by {
        assert(node_ok(m, ns[i], succ(ns, i, end)));
        lemma_owned_part(ns, i);
        if i == last {
            lemma_node_relink(m, m2, ns[i], end, end2);
        } else {
            assert(owned(ns[i]).disjoint(owned(ns[last])));
            lemma_owns_place(ns[last]);
            lemma_node_frame(m, m2, ns[i], succ(ns, i, end));
        }
    }
}

/// What a row holds at one of its places.
pub(super) proof fn lemma_chain_at(m: Seq<Option<Bubble>>, ns: Seq<Layout>, end: Option<Index>, i: int)
    requires
        chain_ok(m, ns, end),
        0 <= i < ns.len(),
    ensures
        node_ok(m, ns[i], succ(ns, i, end)),
{
    reveal(chain_ok);
}

/// The empty row is in order wherever it ends.
pub(super) proof fn lemma_chain_none(m: Seq<Option<Bubble>>, end: Option<Index>)
    ensures
        chain_ok(m, Seq::<Layout>::empty(), end),
        owned_all(Seq::<Layout>::empty()) =~= Set::<usize>::empty(),
        trees_of(Seq::<Layout>::empty()) =~= Seq::<Tree>::empty(),
{
    reveal(chain_ok);
    reveal(owned_all);
    reveal(trees_of);
}

/// A row as values has a value for each of its bubbles.
pub(super) proof fn lemma_trees(ns: Seq<Layout>)
    ensures
        trees_of(ns).len() == ns.len(),
        forall|i: int| 0 <= i < ns.len() ==> (#[trigger] trees_of(ns)[i]) == tree_of(ns[i]),
{
    reveal(chain_ok);
    reveal(owned_all);
    reveal(trees_of);
}

/// The values of a joined row are the joined values of its parts.
pub(super) proof fn lemma_trees_join(a: Seq<Layout>, b: Seq<Layout>)
    ensures
        trees_of(a + b) =~= trees_of(a) + trees_of(b),
{
    reveal(chain_ok);
    reveal(owned_all);
    reveal(trees_of);
    lemma_trees(a);
    lemma_trees(b);
    lemma_trees(a + b);
}

/// The values of a part of a row are that part of its values.
pub(super) proof fn lemma_trees_part(ns: Seq<Layout>, from: int, to: int)
    requires
        0 <= from <= to <= ns.len(),
    ensures
        trees_of(ns.subrange(from, to)) =~= trees_of(ns).subrange(from, to),
{
    reveal(chain_ok);
    reveal(owned_all);
    reveal(trees_of);
    lemma_trees(ns);
    lemma_trees(ns.subrange(from, to));
}

/// What the slot of a bubble holds.
pub(super) proof fn lemma_node_slot(m: Seq<Option<Bubble>>, n: Layout, next: Option<Index>)
    requires
        node_ok(m, n, next),
    ensures
        place(n) < m.len(),
        m[place(n) as int] is Some,
        next_of(m[place(n) as int]->0) == next,
        with_next(m[place(n) as int]->0, next) == m[place(n) as int]->0,
        n is Single <==> m[place(n) as int]->0 is Single,
        n matches Layout::Single { value, .. } ==> m[place(n) as int]->0->value == value,
        n matches Layout::Double { inner, .. } ==> inner.len() > 0 && m[place(n) as int]->0->inner == (
            Index(place(inner[0])),
            Index(place(inner.last())),
        ) && chain_ok(m, inner, None) && !owned_all(inner).contains(place(n)),
{
    reveal(chain_ok);
    reveal(owned_all);
}

/// A row as one bubble in a slot of its own.
pub(super) proof fn lemma_node_wrap(m: Seq<Option<Bubble>>, at: usize, inner: Seq<Layout>, next: Option<Index>)
    requires
        chain_ok(m, inner, None),
        inner.len() > 0,
        at < m.len(),
        !owned_all(inner).contains(at),
        m[at as int] == Some(
            Bubble::Double { inner: (Index(place(inner[0])), Index(place(inner.last()))), next },
        ),
    ensures
        node_ok(m, Layout::Double { at, inner }, next),
{
    reveal(chain_ok);
    reveal(owned_all);
}

/// What the row holds at place `i`, and what the slot of that bubble holds.
pub(super) proof fn lemma_slot(m: Seq<Option<Bubble>>, ns: Seq<Layout>, end: Option<Index>, i: int)
    requires
        chain_ok(m, ns, end),
        0 <= i < ns.len(),
    ensures
        node_ok(m, ns[i], succ(ns, i, end)),
        place(ns[i]) < m.len(),
        m[place(ns[i]) as int] is Some,
        next_of(m[place(ns[i]) as int]->0) == succ(ns, i, end),
        ns[i] is Single <==> m[place(ns[i]) as int]->0 is Single,
        ns[i] matches Layout::Single { value, .. } ==> m[place(ns[i]) as int]->0->value == value,
        ns[i] matches Layout::Double { inner, .. } ==> inner.len() > 0 && m[place(ns[i]) as int]->0->inner
            == (Index(place(inner[0])), Index(place(inner.last()))) && chain_ok(m, inner, None)
            && !owned_all(inner).contains(place(ns[i])),
        owned_all(ns).contains(place(ns[i])),
        owned(ns[i]).subset_of(owned_all(ns)),
{
    lemma_chain_at(m, ns, end, i);
    lemma_node_slot(m, ns[i], succ(ns, i, end));
    lemma_owned_part(ns, i);
}

/// A row stays what it is while the occupied slots stay what they are.
pub(super) proof fn lemma_chain_kept(
    m: Seq<Option<Bubble>>,
    m2: Seq<Option<Bubble>>,
    ns: Seq<Layout>,
    end: Option<Index>,
)
    requires
        chain_ok(m, ns, end),
        kept(m, m2),
    ensures
        chain_ok(m2, ns, end),
{
    lemma_chain_occupied(m, ns, end);
    lemma_chain_frame(m, m2, ns, end);
}

/// A row stays what it is while a slot that it does not own changes.
pub(super) proof fn lemma_chain_apart(
    m: Seq<Option<Bubble>>,
    m2: Seq<Option<Bubble>>,
    ns: Seq<Layout>,
    end: Option<Index>,
    h: usize,
)
    requires
        chain_ok(m, ns, end),
        differ_at(m, m2, h),
        !owned_all(ns).contains(h),
    ensures
        chain_ok(m2, ns, end),
{
    lemma_chain_occupied(m, ns, end);
    lemma_chain_frame(m, m2, ns, end);
}

/// A row owns no vacant slot.
pub(super) proof fn lemma_vacant(m: Seq<Option<Bubble>>, ns: Seq<Layout>, end: Option<Index>, at: usize)
    requires
        chain_ok(m, ns, end),
        vacant(m, at),
    ensures
        !owned_all(ns).contains(at),
{
    lemma_chain_occupied(m, ns, end);
}

/// A row whose last bubble got `end2` to follow it in place of `end`.
pub(super) proof fn lemma_chain_retarget(
    m: Seq<Option<Bubble>>,
    m2: Seq<Option<Bubble>>,
    ns: Seq<Layout>,
    end: Option<Index>,
    end2: Option<Index>,
)
    requires
        chain_ok(m, ns, end),
        ns.len() > 0,
        m2 == m.update(
            place(ns.last()) as int,
            Some(with_next(m[place(ns.last()) as int]->0, end2)),
        ),
    ensures
        chain_ok(m2, ns, end2),
{
    lemma_slot(m, ns, end, ns.len() - 1);
    lemma_chain_occupied(m, ns, end);
    lemma_chain_relink(m, m2, ns, end, end2);
}

/// A row of one bubble that got `end2` to follow it in place of `end`.
pub(super) proof fn lemma_node_retarget(
    m: Seq<Option<Bubble>>,
    m2: Seq<Option<Bubble>>,
    n: Layout,
    end: Option<Index>,
    end2: Option<Index>,
)
    requires
        node_ok(m, n, end),
        m2 == m.update(place(n) as int, Some(with_next(m[place(n) as int]->0, end2))),
    ensures
        node_ok(m2, n, end2),
{
    lemma_node_occupied(m, n, end);
    lemma_node_relink(m, m2, n, end, end2);
}

/// What a bubble owns and is, by its kind.
pub(super) proof fn lemma_unfold(n: Layout)
    ensures
        n matches Layout::Single { at, value } ==> owned(n) =~= set![at] && tree_of(n) == Tree::Single(
            value,
        ),
        n matches Layout::Double { at, inner } ==> owned(n) =~= owned_all(inner).insert(at) && tree_of(n)
            == Tree::Double(trees_of(inner)) && owned_all(inner).subset_of(owned(n)),
        owned(n).contains(place(n)),
{
    reveal(owned_all);
    reveal(trees_of);
}

/// A row of one bubble owns what the bubble owns.
pub(super) proof fn lemma_owned_one(n: Layout)
    ensures
        owned_all(seq![n]) =~= owned(n),
{
    reveal(owned_all);
    let ns = seq![n];
    assert(ns[0] == n);
    assert forall|h: usize| owned(n).contains(h) implies owned_all(ns).contains(h) by {
        assert(owned(ns[0]).contains(h));
    }
}

/// The first `k` bubbles of a row lie in `k` slots of the arena.
pub(super) proof fn lemma_places(m: Seq<Option<Bubble>>, ns: Seq<Layout>, end: Option<Index>, k: int)
    requires
        chain_ok(m, ns, end),
        0 <= k <= ns.len(),
    ensures
        places(ns, k).finite(),
        places(ns, k).len() == k,
        places(ns, k).subset_of(set_int_range(0, m.len() as int)),
    decreases k,
{
    if k == 0 {
        assert(places(ns, 0) =~= Set::<int>::empty());
    } else {
        lemma_places(m, ns, end, k - 1);
        let h = place(ns[k - 1]) as int;
        lemma_slot(m, ns, end, k - 1);
        assert(!places(ns, k - 1).contains(h)) by {
            if places(ns, k - 1).contains(h) {
                let i = choose|i: int| 0 <= i < k - 1 && place(#[trigger] ns[i]) == h;
                reveal(chain_ok);
                lemma_owns_place(ns[i]);
                lemma_owns_place(ns[k - 1]);
                assert(owned(ns[i]).disjoint(owned(ns[k - 1])));
            }
        }
        assert(places(ns, k) =~= places(ns, k - 1).insert(h)) by {
            assert forall|x: int| places(ns, k).contains(x) implies places(ns, k - 1).insert(h).contains(
                x,
            ) by {
                let i = choose|i: int| 0 <= i < k && place(#[trigger] ns[i]) == x;
                if i < k - 1 {
                    assert(places(ns, k - 1).contains(x));
                }
            }
            assert forall|x: int| places(ns, k - 1).insert(h).contains(x) implies places(ns, k).contains(
                x,
            ) by {
                if x == h {
                    assert(place(ns[k - 1]) == x);
                } else {
                    let i = choose|i: int| 0 <= i < k - 1 && place(#[trigger] ns[i]) == x;
                    assert(place(ns[i]) == x);
                }
            }
        }
    }
}

/// A row has no more bubbles than the arena has slots.
pub(super) proof fn lemma_chain_short(m: Seq<Option<Bubble>>, ns: Seq<Layout>, end: Option<Index>)
    requires
        chain_ok(m, ns, end),
    ensures
        ns.len() <= m.len(),
{
    lemma_places(m, ns, end, ns.len() as int);
    vstd::set_lib::lemma_int_range(0, m.len() as int);
    vstd::set_lib::lemma_len_subset(places(ns, ns.len() as int), set_int_range(0, m.len() as int));
}

/// Two bubbles of a row share no slot.
pub(super) proof fn lemma_chain_pair(m: Seq<Option<Bubble>>, ns: Seq<Layout>, end: Option<Index>, i: int, j: int)
    requires
        chain_ok(m, ns, end),
        0 <= i < j < ns.len(),
    ensures
        owned(ns[i]).disjoint(owned(ns[j])),
{
    reveal(chain_ok);
}

/// A row stays what it is while slots that it does not own are emptied.
pub(super) proof fn lemma_chain_cleared(
    m: Seq<Option<Bubble>>,
    m2: Seq<Option<Bubble>>,
    ns: Seq<Layout>,
    end: Option<Index>,
    gone: Set<usize>,
)
    requires
        chain_ok(m, ns, end),
        cleared(m, m2, gone),
        gone.disjoint(owned_all(ns)),
    ensures
        chain_ok(m2, ns, end),
{
    lemma_chain_occupied(m, ns, end);
    lemma_chain_frame(m, m2, ns, end);
}

/// Slots that were vacant may change while the occupied ones are kept.
pub(super) proof fn lemma_kept_more(
    m: Seq<Option<Bubble>>,
    m1: Seq<Option<Bubble>>,
    m2: Seq<Option<Bubble>>,
    h: usize,
)
    requires
        kept(m, m1),
        differ_at(m1, m2, h),
        vacant(m, h),
    ensures
        kept(m, m2),
{
    assert forall|i: int| 0 <= i < m.len() && (#[trigger] m[i]) is Some implies m2[i] == m[i] by {
        assert(m1[i] == m[i]);
        assert(i != h);
    }
}

/// Keeping the occupied slots twice keeps them.
pub(super) proof fn lemma_kept_twice(m: Seq<Option<Bubble>>, m1: Seq<Option<Bubble>>, m2: Seq<Option<Bubble>>)
    requires
        kept(m, m1),
        kept(m1, m2),
    ensures
        kept(m, m2),
{
    assert forall|i: int| 0 <= i < m.len() && (#[trigger] m[i]) is Some implies m2[i] == m[i] by {
        assert(m1[i] == m[i]);
        assert(m1[i] is Some);
    }
}

/// A bubble stays what it is while the occupied slots stay what they are.
pub(super) proof fn lemma_node_kept(m: Seq<Option<Bubble>>, m2: Seq<Option<Bubble>>, n: Layout, next: Option<Index>)
    requires
        node_ok(m, n, next),
        kept(m, m2),
    ensures
        node_ok(m2, n, next),
{
    lemma_node_occupied(m, n, next);
    lemma_node_frame(m, m2, n, next);
}

/// A bubble stays what it is while a slot that it does not own changes.
pub(super) proof fn lemma_node_apart(
    m: Seq<Option<Bubble>>,
    m2: Seq<Option<Bubble>>,
    n: Layout,
    next: Option<Index>,
    h: usize,
)
    requires
        node_ok(m, n, next),
        differ_at(m, m2, h),
        !owned(n).contains(h),
    ensures
        node_ok(m2, n, next),
{
    lemma_node_occupied(m, n, next);
    lemma_node_frame(m, m2, n, next);
}

/// A bubble stays what it is while only slots that it does not own, and
/// vacant ones, change.
pub(super) proof fn lemma_node_touched(
    m: Seq<Option<Bubble>>,
    m2: Seq<Option<Bubble>>,
    n: Layout,
    next: Option<Index>,
    within: Set<usize>,
)
    requires
        node_ok(m, n, next),
        touched(m, m2, within),
        owned(n).disjoint(within),
        m.len() <= usize::MAX,
    ensures
        node_ok(m2, n, next),
{
    lemma_node_occupied(m, n, next);
    lemma_node_frame(m, m2, n, next);
}

/// A row stays what it is while only slots that it does not own, and vacant
/// ones, change.
pub(super) proof fn lemma_chain_touched(
    m: Seq<Option<Bubble>>,
    m2: Seq<Option<Bubble>>,
    ns: Seq<Layout>,
    end: Option<Index>,
    within: Set<usize>,
)
    requires
        chain_ok(m, ns, end),
        touched(m, m2, within),
        owned_all(ns).disjoint(within),
        m.len() <= usize::MAX,
    ensures
        chain_ok(m2, ns, end),
{
    lemma_chain_occupied(m, ns, end);
    lemma_chain_frame(m, m2, ns, end);
}

/// A row in which one bubble was exchanged for another in the same slot,
/// made of that bubble's slots and of vacant ones.
pub(super) proof fn lemma_chain_replace(
    m: Seq<Option<Bubble>>,
    m2: Seq<Option<Bubble>>,
    ns: Seq<Layout>,
    end: Option<Index>,
    k: int,
    res: Layout,
)
    requires
        chain_ok(m, ns, end),
        0 <= k < ns.len(),
        m.len() <= usize::MAX,
        touched(m, m2, owned(ns[k])),
        node_ok(m2, res, succ(ns, k, end)),
        place(res) == place(ns[k]),
        drawn(m, res, owned(ns[k])),
    ensures
        chain_ok(m2, ns.update(k, res), end),
        drawn_all(m, ns.update(k, res), owned_all(ns)),
        trees_of(ns.update(k, res)) =~= trees_of(ns).update(k, tree_of(res)),
{
    reveal(chain_ok);
    reveal(owned_all);
    let ns2 = ns.update(k, res);
    lemma_chain_occupied(m, ns, end);
    assert forall|i: int| 0 <= i < ns2.len() implies node_ok(m2, #[trigger] ns2[i], succ(ns2, i, end)) by {
        assert(succ(ns2, i, end) == succ(ns, i, end));
        if i != k {
            assert(node_ok(m, ns[i], succ(ns, i, end)));
            if i < k {
                assert(owned(ns[i]).disjoint(owned(ns[k])));
            } else {
                assert(owned(ns[k]).disjoint(owned(ns[i])));
            }
            lemma_owned_part(ns, i);
            lemma_node_touched(m, m2, ns[i], succ(ns, i, end), owned(ns[k]));
        }
    }
    assert forall|i: int, j: int| 0 <= i < j < ns2.len() implies owned(#[trigger] ns2[i]).disjoint(
        owned(#[trigger] ns2[j]),
    ) by {
        assert(owned(ns[i]).disjoint(owned(ns[j])));
        lemma_owned_part(ns, i);
        lemma_owned_part(ns, j);
        if i == k {
            assert forall|h: usize| owned(res).contains(h) implies !owned(ns[j]).contains(h) by {
                if owned(ns[j]).contains(h) {
                    assert(owned_all(ns).contains(h));
                }
            }
        } else if j == k {
            assert forall|h: usize| owned(res).contains(h) implies !owned(ns[i]).contains(h) by {
                if owned(ns[i]).contains(h) {
                    assert(owned_all(ns).contains(h));
                }
            }
        }
    }
    assert forall|h: usize| #[trigger] owned_all(ns2).contains(h) implies owned_all(ns).contains(h)
        || vacant(m, h) by {
        let i = choose|i: int| 0 <= i < ns2.len() && owned(#[trigger] ns2[i]).contains(h);
        if i == k {
            lemma_owned_part(ns, k);
        } else {
            assert(owned(ns[i]).contains(h));
        }
    }
    lemma_trees(ns);
    lemma_trees(ns2);
}

/// Keeps touching within bounds: what a later step touched inside a part
/// of `within`, or in slots that were vacant at first, the whole touched
/// within `within`.
pub(super) proof fn lemma_touched_twice(
    m: Seq<Option<Bubble>>,
    m1: Seq<Option<Bubble>>,
    m2: Seq<Option<Bubble>>,
    within: Set<usize>,
    part: Set<usize>,
)
    requires
        touched(m, m1, within),
        touched(m1, m2, part),
        forall|h: usize| #[trigger] part.contains(h) ==> within.contains(h) || vacant(m, h),
        m1.len() <= usize::MAX,
    ensures
        touched(m, m2, within),
{
    assert forall|i: int| 0 <= i < m.len() && (#[trigger] m[i]) is Some && !within.contains(
        i as usize,
    ) implies m2[i] == m[i] by {
        assert(m1[i] == m[i]);
        assert(m1[i] is Some);
        assert(!part.contains(i as usize));
    }
}

/// A slot that is vacant now was vacant before, unless it could be touched.
pub(super) proof fn lemma_vacant_before(
    m: Seq<Option<Bubble>>,
    m2: Seq<Option<Bubble>>,
    within: Set<usize>,
    h: usize,
)
    requires
        touched(m, m2, within),
        vacant(m2, h),
    ensures
        vacant(m, h) || within.contains(h),
{
    if h < m.len() && m[h as int] is Some && !within.contains(h) {
        assert(m2[h as int] == m[h as int]);
    }
}

/// A change of one slot that could be touched keeps the touching within
/// bounds.
pub(super) proof fn lemma_touched_at(
    m: Seq<Option<Bubble>>,
    m1: Seq<Option<Bubble>>,
    m2: Seq<Option<Bubble>>,
    within: Set<usize>,
    h: usize,
)
    requires
        touched(m, m1, within),
        differ_at(m1, m2, h),
        within.contains(h) || vacant(m, h),
        m1.len() <= usize::MAX,
    ensures
        touched(m, m2, within),
{
    assert forall|i: int| 0 <= i < m.len() && (#[trigger] m[i]) is Some && !within.contains(
        i as usize,
    ) implies m2[i] == m[i] by {
        assert(m1[i] == m[i]);
        assert(i != h);
    }
}

/// Emptying slots that could be touched keeps the touching within bounds.
pub(super) proof fn lemma_touched_cleared(
    m: Seq<Option<Bubble>>,
    m1: Seq<Option<Bubble>>,
    m2: Seq<Option<Bubble>>,
    within: Set<usize>,
    gone: Set<usize>,
)
    requires
        touched(m, m1, within),
        cleared(m1, m2, gone),
        gone.subset_of(within),
        m1.len() <= usize::MAX,
    ensures
        touched(m, m2, within),
{
    assert forall|i: int| 0 <= i < m.len() && (#[trigger] m[i]) is Some && !within.contains(
        i as usize,
    ) implies m2[i] == m[i] by {
        assert(m1[i] == m[i]);
        assert(!gone.contains(i as usize));
    }
}

/// What the rest of a row owns from place `k` on: what the bubble at `k`
/// owns, and apart from it what the rest after `k` owns.
pub(super) proof fn lemma_owned_rest(m: Seq<Option<Bubble>>, ns: Seq<Layout>, end: Option<Index>, k: int)
    requires
        chain_ok(m, ns, end),
        0 <= k < ns.len(),
    ensures
        forall|h: usize| #[trigger]
            owned_all(ns.skip(k + 1)).contains(h) ==> owned_all(ns.skip(k)).contains(h) && !owned(
                ns[k],
            ).contains(h),
        forall|h: usize| #[trigger] owned(ns[k]).contains(h) ==> owned_all(ns.skip(k)).contains(h),
        forall|h: usize| #[trigger] owned_all(ns.skip(k)).contains(h) ==> owned_all(ns).contains(h),
{
    let tail = ns.skip(k);
    lemma_chain_split(m, ns, k, end);
    lemma_owned_join(ns.take(k), tail);
    lemma_chain_split(m, tail, 1, end);
    assert(tail.take(1) =~= seq![ns[k]]);
    assert(tail.skip(1) =~= ns.skip(k + 1));
    lemma_owned_one(ns[k]);
    lemma_owned_join(seq![ns[k]], ns.skip(k + 1));
    assert(tail =~= seq![ns[k]] + ns.skip(k + 1));
    assert(ns =~= ns.take(k) + tail);
}

/// The handles of a bubble that the arena holds are those of its slots,
/// each once.
pub(super) proof fn lemma_flat_node(m: Seq<Option<Bubble>>, n: Layout, next: Option<Index>)
    requires
        node_ok(m, n, next),
    ensures
        flat(n).no_duplicates(),
        forall|h: usize| #[trigger] flat(n).contains(Index(h)) <==> owned(n).contains(h),
    decreases n,
{
    lemma_unfold(n);
    lemma_node_slot(m, n, next);
    match n {
        Layout::Single { at, .. } => {
            let one = seq![Index(at)];
            assert(one[0] == Index(at));
            assert forall|h: usize| #[trigger] one.contains(Index(h)) <==> owned(n).contains(h) by {
                if one.contains(Index(h)) {
                    let i = choose|i: int| 0 <= i < one.len() && one[i] == Index(h);
                }
            }
        },
        Layout::Double { at, inner } => {
            lemma_flat_chain(m, inner, None);
            let own = seq![Index(at)];
            let rest = flat_all(inner);
            assert(own[0] == Index(at));
            assert forall|i: int, j: int| 0 <= i < own.len() && 0 <= j < rest.len() implies own[i]
                != rest[j] by {
                if own[i] == rest[j] {
                    assert(rest.contains(Index(at)));
                }
            }
            vstd::seq_lib::lemma_no_dup_in_concat(own, rest);
            assert forall|h: usize| #[trigger] flat(n).contains(Index(h)) <==> owned(n).contains(h) by {
                let whole = own + rest;
                if whole.contains(Index(h)) {
                    let i = choose|i: int| 0 <= i < whole.len() && whole[i] == Index(h);
                    if i > 0 {
                        assert(rest[i - 1] == Index(h));
                        assert(rest.contains(Index(h)));
                    }
                }
                if owned(n).contains(h) {
                    if h == at {
                        assert(whole[0] == Index(h));
                    } else {
                        assert(rest.contains(Index(h)));
                        let j = choose|j: int| 0 <= j < rest.len() && rest[j] == Index(h);
                        assert(whole[j + 1] == Index(h));
                    }
                }
            }
        },
    }
}

/// The handles of a row that the arena holds are those of its slots, each
/// once.
pub(super) proof fn lemma_flat_chain(m: Seq<Option<Bubble>>, ns: Seq<Layout>, end: Option<Index>)
    requires
        chain_ok(m, ns, end),
    ensures
        flat_all(ns).no_duplicates(),
        forall|h: usize| #[trigger] flat_all(ns).contains(Index(h)) <==> owned_all(ns).contains(h),
    decreases ns,
{
    if ns.len() == 0 {
        lemma_chain_none(m, end);
        assert(ns =~= Seq::<Layout>::empty());
    } else {
        let k = ns.len() - 1;
        let front = ns.drop_last();
        let last = ns.last();
        lemma_chain_split(m, ns, k, end);
        assert(ns.take(k) =~= front);
        assert(ns.skip(k) =~= seq![last]);
        lemma_owned_one(last);
        lemma_owned_join(front, seq![last]);
        assert(front + seq![last] =~= ns);
        lemma_chain_at(m, ns, end, k);
        assert(decreases_to!(ns => ns[k]));
        lemma_flat_node(m, last, succ(ns, k, end));
        lemma_flat_chain(m, front, head(ns.skip(k), end));
        let a = flat_all(front);
        let b = flat(last);
        assert forall|i: int, j: int| 0 <= i < a.len() && 0 <= j < b.len() implies a[i] != b[j] by {
            if a[i] == b[j] {
                let h = a[i].0;
                assert(a.contains(Index(h)));
                assert(b.contains(Index(h)));
            }
        }
        vstd::seq_lib::lemma_no_dup_in_concat(a, b);
        assert forall|h: usize| #[trigger] flat_all(ns).contains(Index(h)) <==> owned_all(ns).contains(
            h,
        ) by {
            let whole = a + b;
            if whole.contains(Index(h)) {
                let i = choose|i: int| 0 <= i < whole.len() && whole[i] == Index(h);
                if i < a.len() {
                    assert(a[i] == Index(h));
                    assert(a.contains(Index(h)));
                } else {
                    assert(b[i - a.len()] == Index(h));
                    assert(b.contains(Index(h)));
                }
            }
            if owned_all(ns).contains(h) {
                if owned_all(front).contains(h) {
                    assert(a.contains(Index(h)));
                    let j = choose|j: int| 0 <= j < a.len() && a[j] == Index(h);
                    assert(whole[j] == Index(h));
                } else {
                    assert(b.contains(Index(h)));
                    let j = choose|j: int| 0 <= j < b.len() && b[j] == Index(h);
                    assert(whole[j + a.len()] == Index(h));
                }
            }
        }
    }
}

/// A row of no bubbles owns no slot.
pub(super) proof fn lemma_owned_none()
    ensures
        owned_all(Seq::<Layout>::empty()) =~= Set::<usize>::empty(),
{
    reveal(owned_all);
}

/// A row in which one bubble gave way to a bubble that owns what it owned,
/// and more, owns what it owned, and what the new bubble owns, and no more.
pub(super) proof fn lemma_owned_update(row: Seq<Layout>, k: int, made: Layout)
    requires
        0 <= k < row.len(),
        owned(row[k]).subset_of(owned(made)),
    ensures
        owned_all(row).subset_of(owned_all(row.update(k, made))),
        owned(made).subset_of(owned_all(row.update(k, made))),
        owned_all(row.update(k, made)).subset_of(owned_all(row).union(owned(made))),
{
    reveal(owned_all);
    let row2 = row.update(k, made);
    assert forall|h: usize| owned_all(row).contains(h) implies owned_all(row2).contains(h) by {
        let i = choose|i: int| 0 <= i < row.len() && owned(#[trigger] row[i]).contains(h);
        if i == k {
            assert(owned(row2[k]).contains(h));
        } else {
            assert(owned(row2[i]).contains(h));
        }
    }
    assert forall|h: usize| owned(made).contains(h) implies owned_all(row2).contains(h) by {
        assert(owned(row2[k]).contains(h));
    }
    assert forall|h: usize| owned_all(row2).contains(h) implies owned_all(row).union(
        owned(made),
    ).contains(h) by {
        let i = choose|i: int| 0 <= i < row2.len() && owned(#[trigger] row2[i]).contains(h);
        if i != k {
            assert(owned(row[i]).contains(h));
        }
    }
}

/// A slot of a row from its place `k` on is a slot of the bubble at place
/// `k`, or of the row behind it.
pub(super) proof fn lemma_owned_first(ns: Seq<Layout>, k: int, h: usize)
    requires
        0 <= k < ns.len(),
        owned_all(ns.skip(k)).contains(h),
    ensures
        owned(ns[k]).contains(h) || owned_all(ns.skip(k + 1)).contains(h),
{
    reveal(owned_all);
    let tail = ns.skip(k);
    let rest = ns.skip(k + 1);
    let i = choose|i: int| 0 <= i < tail.len() && owned(#[trigger] tail[i]).contains(h);
    if i > 0 {
        assert(rest[i - 1] == tail[i]);
        assert(owned(rest[i - 1]).contains(h));
    }
}

} // verus!
