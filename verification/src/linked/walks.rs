//! Walks through a bubble and all that it holds.
use crate::abyss::{
    Tree, Value, combine_holds, depth, divides, leaves, leaves_of, lemma_leaves_step,
    lemma_leaves_whole, shorter, shown, shown_row, spread_holds,
};
use crate::arena::{Arena, Index};
use crate::linked::cells::{fetch, release, set_next, settle};
use crate::linked::lemmas::{
    lemma_chain_apart, lemma_chain_cleared, lemma_chain_join, lemma_chain_kept, lemma_chain_none,
    lemma_chain_occupied, lemma_chain_one, lemma_chain_retarget, lemma_chain_short,
    lemma_chain_split, lemma_kept_more, lemma_kept_twice, lemma_node_apart, lemma_node_kept,
    lemma_node_slot, lemma_node_wrap, lemma_owned_join, lemma_owned_none, lemma_owned_one,
    lemma_owns_place, lemma_slot, lemma_trees, lemma_trees_join, lemma_unfold, lemma_vacant,
};
use crate::linked::{
    Bubble, Layout, bounded, chain_ok, cleared, flat, flat_all, head, kept, node_ok, owned, owned_all,
    place, succ, tree_of, trees_of, vacant,
};
use crate::text::push_decimal;
use vstd::prelude::*;

verus! {

/// The number of bubbles in a row of the arena.
pub(super) fn find_count(arena: &Arena<Bubble>, first: Index, Ghost(row): Ghost<Seq<Layout>>) -> (r: usize)
    requires
        arena.wf(),
        chain_ok(arena@, row, None),
        row.len() > 0,
        first == Index(place(row[0])),
    ensures
        r == row.len(),
{
    let ghost m = arena@;
    let mut cur = first;
    let mut k: usize = 1;
    proof {
        arena.lemma_len_bound();
        lemma_chain_short(m, row, None);
    }
    loop
        invariant
            arena.wf(),
            m == arena@,
            chain_ok(m, row, None),
            1 <= k <= row.len(),
            row.len() <= usize::MAX,
            cur == Index(place(row[k - 1])),
        ensures
            k == row.len(),
        decreases row.len() - k,
    {
        proof {
            lemma_slot(m, row, None, k - 1);
        }
        match fetch(arena, cur).next() {
            Some(next) => {
                cur = next;
                k = k + 1;
            },
            None => {
                break;
            },
        }
    }
    k
}

/// Empties the slots of a bubble and of all that it holds.
pub(super) fn discard(
    arena: &mut Arena<Bubble>,
    at: Index,
    Ghost(n): Ghost<Layout>,
    Ghost(next): Ghost<Option<Index>>,
)
    requires
        old(arena).wf(),
        node_ok(old(arena)@, n, next),
        at == Index(place(n)),
    ensures
        final(arena).wf(),
        cleared(old(arena)@, final(arena)@, owned(n)),
        bounded(old(arena)@, final(arena)@, owned(n), Set::empty()),
    decreases n,
{
    let ghost m0 = arena@;
    proof {
        arena.lemma_len_bound();
        lemma_node_slot(m0, n, next);
        lemma_unfold(n);
    }
    match release(arena, at) {
        Bubble::Single { .. } => {},
        Bubble::Double { inner: (first, _), .. } => {
            let ghost row = n->Double_inner;
            proof {
                lemma_chain_apart(m0, arena@, row, None, at.0);
                assert(decreases_to!(n => n->Double_inner));
            }
            remove_all(arena, first, Ghost(row));
        },
    }
}

/// Appends the numbers of a bubble, depth first and front to back.
pub(super) fn gather(
    arena: &Arena<Bubble>,
    at: Index,
    out: &mut Vec<Value>,
    Ghost(n): Ghost<Layout>,
    Ghost(next): Ghost<Option<Index>>,
)
    requires
        arena.wf(),
        node_ok(arena@, n, next),
        at == Index(place(n)),
    ensures
        final(out)@ == old(out)@ + leaves(tree_of(n)),
    decreases n,
{
    let ghost m = arena@;
    proof {
        lemma_node_slot(m, n, next);
        lemma_unfold(n);
    }
    match fetch(arena, at) {
        Bubble::Single { value, .. } => {
            out.push(value);
            assert(out@ =~= old(out)@ + leaves(tree_of(n)));
        },
        Bubble::Double { inner: (first, _), .. } => {
            let ghost row = n->Double_inner;
            let ghost trees = trees_of(row);
            let mut cur = first;
            let ghost mut k: int = 0;
            proof {
                lemma_trees(row);
                assert(trees.take(0) =~= Seq::<Tree>::empty());
                assert(out@ =~= old(out)@ + leaves_of(trees.take(0)));
            }
            loop
                invariant_except_break
                    0 <= k < row.len(),
                    cur == Index(place(row[k])),
                    out@ == old(out)@ + leaves_of(trees.take(k)),
                invariant
                    arena.wf(),
                    m == arena@,
                    n == (Layout::Double { at: at.0, inner: row }),
                    trees == trees_of(row),
                    trees.len() == row.len(),
                    chain_ok(m, row, None),
                ensures
                    out@ == old(out)@ + leaves_of(trees.take(trees.len() as int)),
                decreases row.len() - k,
            {
                proof {
                    lemma_slot(m, row, None, k);
                    lemma_trees(row);
                    lemma_leaves_step(trees, k);
                }
                let ghost before = out@;
                let after = fetch(arena, cur).next();
                proof {
                    assert(decreases_to!(n => n->Double_inner));
                    assert(decreases_to!(row => row[k]));
                    assert(decreases_to!(n => row[k]));
                }
                gather(arena, cur, out, Ghost(row[k]), Ghost(succ(row, k, None)));
                proof {
                    assert(out@ =~= old(out)@ + leaves_of(trees.take(k + 1)));
                    k = k + 1;
                }
                match after {
                    Some(following) => {
                        cur = following;
                    },
                    None => {
                        break;
                    },
                }
            }
            proof {
                lemma_leaves_whole(trees);
            }
        },
    }
}

/// Lays out a copy of a bubble, with all that it holds, in slots that were
/// vacant.
pub(super) fn deep_copy(
    arena: &mut Arena<Bubble>,
    at: Index,
    Ghost(n): Ghost<Layout>,
    Ghost(next): Ghost<Option<Index>>,
) -> (r: (Index, Ghost<Layout>))
    requires
        old(arena).wf(),
        node_ok(old(arena)@, n, next),
        at == Index(place(n)),
    ensures
        final(arena).wf(),
        kept(old(arena)@, final(arena)@),
        node_ok(final(arena)@, r.1@, None),
        r.0 == Index(place(r.1@)),
        tree_of(r.1@) == tree_of(n),
        forall|h: usize| #[trigger] owned(r.1@).contains(h) ==> vacant(old(arena)@, h),
        bounded(old(arena)@, final(arena)@, Set::empty(), owned(r.1@)),
    decreases n,
{
    let ghost m0 = arena@;
    proof {
        lemma_node_slot(m0, n, next);
        lemma_unfold(n);
    }
    match fetch(arena, at) {
        Bubble::Single { value, .. } => {
            let twin = settle(arena, Bubble::Single { value, next: None });
            let ghost made = Layout::Single { at: twin.0, value };
            proof {
                lemma_unfold(made);
            }
            (twin, Ghost(made))
        },
        Bubble::Double { inner: (first, _), .. } => {
            let ghost row = n->Double_inner;
            let mut cur = first;
            let ghost mut k: int = 0;
            let ghost mut copies: Seq<Layout> = Seq::empty();
            let mut new_first: Option<Index> = None;
            let mut new_last = Index(0);
            proof {
                lemma_chain_none(m0, None);
                lemma_trees(row);
                assert(trees_of(row).take(0) =~= Seq::<Tree>::empty());
                lemma_owned_none();
            }
            loop
                invariant_except_break
                    0 <= k < row.len(),
                    cur == Index(place(row[k])),
                    copies.len() == k,
                    trees_of(copies) =~= trees_of(row).take(k),
                    k > 0 ==> new_last == Index(place(copies.last())),
                invariant
                    arena.wf(),
                    kept(m0, arena@),
                    n == (Layout::Double { at: at.0, inner: row }),
                    chain_ok(m0, row, None),
                    chain_ok(arena@, copies, None),
                    forall|h: usize| #[trigger] owned_all(copies).contains(h) ==> vacant(m0, h),
                    bounded(m0, arena@, Set::empty(), owned_all(copies)),
                    new_first == head(copies, None),
                ensures
                    arena.wf(),
                    kept(m0, arena@),
                    chain_ok(arena@, copies, None),
                    copies.len() == row.len(),
                    trees_of(copies) =~= trees_of(row),
                    forall|h: usize| #[trigger] owned_all(copies).contains(h) ==> vacant(m0, h),
                    bounded(m0, arena@, Set::empty(), owned_all(copies)),
                    new_first == head(copies, None),
                    new_last == Index(place(copies.last())),
                decreases row.len() - k,
            {
                let ghost m1 = arena@;
                proof {
                    lemma_slot(m0, row, None, k);
                    lemma_node_kept(m0, m1, row[k], succ(row, k, None));
                }
                let after = fetch(arena, cur).next();
                proof {
                    assert(decreases_to!(n => n->Double_inner));
                    assert(decreases_to!(row => row[k]));
                    assert(decreases_to!(n => row[k]));
                }
                let (twin, Ghost(made)) = deep_copy(arena, cur, Ghost(row[k]), Ghost(succ(row, k, None)));
                let ghost m2 = arena@;
                proof {
                    lemma_kept_twice(m0, m1, m2);
                    lemma_chain_kept(m1, m2, copies, None);
                    lemma_chain_occupied(m1, copies, None);
                    lemma_owns_place(made);
                    assert forall|h: usize| #[trigger] owned(made).contains(h) implies vacant(m0, h) by {
                        assert(vacant(m1, h));
                    }
                }
                if let Some(_) = new_first {
                    proof {
                        lemma_slot(m2, copies, None, k - 1);
                        assert(!owned(made).contains(new_last.0));
                    }
                    set_next(arena, new_last, Some(twin));
                    proof {
                        let m3 = arena@;
                        lemma_chain_retarget(m2, m3, copies, None, Some(twin));
                        lemma_node_apart(m2, m3, made, None, new_last.0);
                        lemma_kept_more(m0, m2, m3, new_last.0);
                    }
                } else {
                    new_first = Some(twin);
                    proof {
                        lemma_chain_none(arena@, Some(twin));
                        assert(copies =~= Seq::<Layout>::empty());
                    }
                }
                proof {
                    let m3 = arena@;
                    assert(seq![made][0] == made);
                    lemma_chain_one(m3, made, None);
                    lemma_owned_one(made);
                    assert(owned_all(copies).disjoint(owned(made))) by {
                        assert forall|h: usize| owned_all(copies).contains(h) implies !owned(made).contains(
                            h,
                        ) by {
                            if owned(made).contains(h) {
                                assert(vacant(m1, h));
                            }
                        }
                    }
                    lemma_chain_join(m3, copies, seq![made], None);
                    lemma_owned_join(copies, seq![made]);
                    lemma_trees_join(copies, seq![made]);
                    lemma_trees(seq![made]);
                    lemma_trees(row);
                    assert(trees_of(copies + seq![made]) =~= trees_of(row).take(k + 1));
                    assert(bounded(m0, m3, Set::empty(), owned_all(copies + seq![made]))) by {
                        assert forall|h: usize| h < m3.len() && (#[trigger] m3[h as int]) is Some implies owned_all(
                            copies + seq![made],
                        ).contains(h) || (h < m0.len() && m0[h as int] is Some) by {
                            assert(m2[h as int] is Some);
                            if !owned(made).contains(h) {
                                assert(m1[h as int] is Some);
                            }
                        }
                    }
                    copies = copies + seq![made];
                    k = k + 1;
                }
                new_last = twin;
                match after {
                    Some(following) => {
                        cur = following;
                    },
                    None => {
                        proof {
                            assert(trees_of(row).take(k) =~= trees_of(row));
                        }
                        break;
                    },
                }
            }
            let ghost m4 = arena@;
            let front = match new_first {
                Some(front) => front,
                None => new_last,
            };
            let twin = settle(arena, Bubble::Double { inner: (front, new_last), next: None });
            let ghost made = Layout::Double { at: twin.0, inner: copies };
            proof {
                let m5 = arena@;
                lemma_kept_twice(m0, m4, m5);
                lemma_vacant(m4, copies, None, twin.0);
                lemma_chain_kept(m4, m5, copies, None);
                lemma_node_wrap(m5, twin.0, copies, None);
                lemma_unfold(made);
                assert forall|h: usize| h < m5.len() && (#[trigger] m5[h as int]) is Some implies owned(
                    made,
                ).contains(h) || (h < m0.len() && m0[h as int] is Some) by {
                    if h != twin.0 {
                        assert(m4[h as int] is Some);
                    }
                }
            }
            (twin, Ghost(made))
        },
    }
}

/// Empties the slots of a row of bubbles and of all that they hold.
pub(super) fn remove_all(arena: &mut Arena<Bubble>, first: Index, Ghost(row): Ghost<Seq<Layout>>)
    requires
        old(arena).wf(),
        chain_ok(old(arena)@, row, None),
        row.len() > 0,
        first == Index(place(row[0])),
    ensures
        final(arena).wf(),
        cleared(old(arena)@, final(arena)@, owned_all(row)),
        bounded(old(arena)@, final(arena)@, owned_all(row), Set::empty()),
    decreases row,
{
    let ghost m0 = arena@;
    let mut cur = first;
    let ghost mut k: int = 0;
    proof {
        arena.lemma_len_bound();
        lemma_chain_none(m0, None);
        assert(row.take(0) =~= Seq::<Layout>::empty());
        assert(row.skip(0) =~= row);
    }
    loop
        invariant_except_break
            0 <= k < row.len(),
            cur == Index(place(row[k])),
            chain_ok(arena@, row.skip(k), None),
            cleared(m0, arena@, owned_all(row.take(k))),
        invariant
            arena.wf(),
            m0.len() <= usize::MAX,
        ensures
            cleared(m0, arena@, owned_all(row)),
        decreases row.len() - k,
    {
        let ghost m1 = arena@;
        let ghost tail = row.skip(k);
        proof {
            lemma_slot(m1, tail, None, 0);
            lemma_chain_split(m1, tail, 1, None);
            assert(tail[0] == row[k]);
            assert(tail.take(1) =~= seq![row[k]]);
            assert(tail.skip(1) =~= row.skip(k + 1));
            lemma_owned_one(row[k]);
        }
        let after = fetch(arena, cur).next();
        proof {
            assert(decreases_to!(row => row[k]));
        }
        discard(arena, cur, Ghost(row[k]), Ghost(succ(tail, 0, None)));
        proof {
            let m2 = arena@;
            lemma_chain_cleared(m1, m2, row.skip(k + 1), None, owned(row[k]));
            assert(row.take(k + 1) =~= row.take(k) + seq![row[k]]);
            lemma_owned_join(row.take(k), seq![row[k]]);
            assert(cleared(m0, m2, owned_all(row.take(k + 1))));
            k = k + 1;
        }
        match after {
            Some(following) => {
                cur = following;
            },
            None => {
                proof {
                    assert(row.take(k) =~= row);
                }
                break;
            },
        }
    }
}

/// Whether `v` can be divided by, or can divide, every number of a bubble.
pub(super) fn spread_divides(
    arena: &Arena<Bubble>,
    at: Index,
    v: Value,
    left: bool,
    Ghost(n): Ghost<Layout>,
    Ghost(next): Ghost<Option<Index>>,
) -> (r: bool)
    requires
        arena.wf(),
        node_ok(arena@, n, next),
        at == Index(place(n)),
    ensures
        r == spread_holds(|a: Value, b: Value| divides(a, b), v, tree_of(n), left),
    decreases n,
{
    let ghost m = arena@;
    let ghost p = |a: Value, b: Value| divides(a, b);
    proof {
        lemma_node_slot(m, n, next);
        lemma_unfold(n);
    }
    match fetch(arena, at) {
        Bubble::Single { value, .. } => {
            if left {
                value != 0 && !(v == isize::MIN && value == -1)
            } else {
                v != 0 && !(value == isize::MIN && v == -1)
            }
        },
        Bubble::Double { inner: (first, _), .. } => {
            let ghost row = n->Double_inner;
            let ghost trees = trees_of(row);
            let mut cur = first;
            let ghost mut k: int = 0;
            let mut all = true;
            proof {
                lemma_trees(row);
                assert(tree_of(n) matches Tree::Double(x) && x == trees);
            }
            loop
                invariant_except_break
                    0 <= k < row.len(),
                    cur == Index(place(row[k])),
                    all,
                    forall|i: int| 0 <= i < k ==> spread_holds(p, v, #[trigger] trees[i], left),
                invariant
                    arena.wf(),
                    m == arena@,
                    p == (|a: Value, b: Value| divides(a, b)),
                    n == (Layout::Double { at: at.0, inner: row }),
                    trees == trees_of(row),
                    trees.len() == row.len(),
                    tree_of(n) == Tree::Double(trees),
                    chain_ok(m, row, None),
                ensures
                    all == spread_holds(p, v, tree_of(n), left),
                decreases row.len() - k,
            {
                proof {
                    lemma_slot(m, row, None, k);
                    lemma_trees(row);
                    assert(decreases_to!(n => n->Double_inner));
                    assert(decreases_to!(row => row[k]));
                    assert(decreases_to!(n => row[k]));
                    assert(tree_of(n) matches Tree::Double(x) && x == trees);
                }
                let after = fetch(arena, cur).next();
                let fine = spread_divides(arena, cur, v, left, Ghost(row[k]), Ghost(succ(row, k, None)));
                if !fine {
                    all = false;
                    proof {
                        assert(!spread_holds(p, v, trees[k], left));
                    }
                    break;
                }
                proof {
                    k = k + 1;
                }
                match after {
                    Some(following) => {
                        cur = following;
                    },
                    None => {
                        break;
                    },
                }
            }
            all
        },
    }
}

/// Whether every division that combining two rows would make has a result.
pub(super) fn zip_rows_divides(
    arena: &Arena<Bubble>,
    left_first: Index,
    right_first: Index,
    Ghost(lrow): Ghost<Seq<Layout>>,
    Ghost(rrow): Ghost<Seq<Layout>>,
) -> (r: bool)
    requires
        arena.wf(),
        chain_ok(arena@, lrow, None),
        chain_ok(arena@, rrow, None),
        lrow.len() > 0,
        rrow.len() > 0,
        left_first == Index(place(lrow[0])),
        right_first == Index(place(rrow[0])),
    ensures
        r == (forall|i: int|
            0 <= i < shorter(lrow.len(), rrow.len()) ==> combine_holds(
                |a: Value, b: Value| divides(a, b),
                tree_of(#[trigger] lrow[i]),
                tree_of(rrow[i]),
            )),
    decreases lrow,
{
    let ghost m = arena@;
    let ghost p = |a: Value, b: Value| divides(a, b);
    let ghost short = shorter(lrow.len(), rrow.len()) as int;
    let mut lc = left_first;
    let mut rc = right_first;
    let ghost mut k: int = 0;
    let mut all = true;
    loop
        invariant_except_break
            0 <= k < short,
            lc == Index(place(lrow[k])),
            rc == Index(place(rrow[k])),
            all,
            forall|i: int|
                0 <= i < k ==> combine_holds(p, tree_of(#[trigger] lrow[i]), tree_of(rrow[i])),
        invariant
            arena.wf(),
            m == arena@,
            p == (|a: Value, b: Value| divides(a, b)),
            short == shorter(lrow.len(), rrow.len()),
            chain_ok(m, lrow, None),
            chain_ok(m, rrow, None),
        ensures
            all == (forall|i: int|
                0 <= i < short ==> combine_holds(p, tree_of(#[trigger] lrow[i]), tree_of(rrow[i]))),
        decreases short - k,
    {
        proof {
            lemma_slot(m, lrow, None, k);
            lemma_slot(m, rrow, None, k);
            assert(decreases_to!(lrow => lrow[k]));
        }
        let left_after = fetch(arena, lc).next();
        let right_after = fetch(arena, rc).next();
        let fine = zip_divides(
            arena,
            lc,
            rc,
            Ghost(lrow[k]),
            Ghost(succ(lrow, k, None)),
            Ghost(rrow[k]),
            Ghost(succ(rrow, k, None)),
        );
        if !fine {
            all = false;
            proof {
                assert(!combine_holds(p, tree_of(lrow[k]), tree_of(rrow[k])));
            }
            break;
        }
        proof {
            k = k + 1;
        }
        match (left_after, right_after) {
            (Some(l_next), Some(r_next)) => {
                lc = l_next;
                rc = r_next;
            },
            _ => {
                break;
            },
        }
    }
    all
}

/// Whether every division that combining two bubbles would make has a
/// result.
pub(super) fn zip_divides(
    arena: &Arena<Bubble>,
    l: Index,
    r: Index,
    Ghost(ln): Ghost<Layout>,
    Ghost(lnext): Ghost<Option<Index>>,
    Ghost(rn): Ghost<Layout>,
    Ghost(rnext): Ghost<Option<Index>>,
) -> (fine: bool)
    requires
        arena.wf(),
        node_ok(arena@, ln, lnext),
        node_ok(arena@, rn, rnext),
        l == Index(place(ln)),
        r == Index(place(rn)),
    ensures
        fine == combine_holds(|a: Value, b: Value| divides(a, b), tree_of(ln), tree_of(rn)),
    decreases ln,
{
    let ghost m = arena@;
    let ghost p = |a: Value, b: Value| divides(a, b);
    proof {
        lemma_node_slot(m, ln, lnext);
        lemma_node_slot(m, rn, rnext);
        lemma_unfold(ln);
        lemma_unfold(rn);
    }
    match fetch(arena, l) {
        Bubble::Single { value, .. } => spread_divides(arena, r, value, true, Ghost(rn), Ghost(rnext)),
        Bubble::Double { inner: (left_first, _), .. } => match fetch(arena, r) {
            Bubble::Single { value, .. } => spread_divides(
                arena,
                l,
                value,
                false,
                Ghost(ln),
                Ghost(lnext),
            ),
            Bubble::Double { inner: (right_first, _), .. } => {
                let ghost lrow = ln->Double_inner;
                let ghost rrow = rn->Double_inner;
                proof {
                    lemma_trees(lrow);
                    lemma_trees(rrow);
                    assert(decreases_to!(ln => ln->Double_inner));
                    assert(tree_of(ln) matches Tree::Double(x) && x == trees_of(lrow));
                    assert(tree_of(rn) matches Tree::Double(x) && x == trees_of(rrow));
                }
                let fine = zip_rows_divides(arena, left_first, right_first, Ghost(lrow), Ghost(rrow));
                proof {
                    let ls = trees_of(lrow);
                    let rs = trees_of(rrow);
                    if fine {
                        assert forall|i: int| 0 <= i < shorter(ls.len(), rs.len()) implies combine_holds(
                            p,
                            #[trigger] ls[i],
                            rs[i],
                        ) by {
                            assert(combine_holds(p, tree_of(lrow[i]), tree_of(rrow[i])));
                        }
                    } else {
                        let i = choose|i: int|
                            0 <= i < shorter(lrow.len(), rrow.len()) && !combine_holds(
                                p,
                                tree_of(#[trigger] lrow[i]),
                                tree_of(rrow[i]),
                            );
                        assert(!combine_holds(p, ls[i], rs[i]));
                    }
                }
                fine
            },
        },
    }
}

/// Appends a bubble as text.
pub(super) fn show(
    arena: &Arena<Bubble>,
    at: Index,
    out: &mut Vec<u8>,
    Ghost(n): Ghost<Layout>,
    Ghost(next): Ghost<Option<Index>>,
)
    requires
        arena.wf(),
        node_ok(arena@, n, next),
        at == Index(place(n)),
    ensures
        final(out)@ == old(out)@ + shown(tree_of(n)),
    decreases n,
{
    let ghost m = arena@;
    proof {
        lemma_node_slot(m, n, next);
        lemma_unfold(n);
    }
    match fetch(arena, at) {
        Bubble::Single { value, .. } => {
            push_decimal(out, value as i128);
        },
        Bubble::Double { inner: (first, _), .. } => {
            let ghost row = n->Double_inner;
            let ghost trees = trees_of(row);
            out.push(91);
            let ghost base = out@;
            let mut cur = first;
            let ghost mut k: int = 0;
            let mut started = false;
            proof {
                lemma_trees(row);
                assert(trees.take(0) =~= Seq::<Tree>::empty());
                assert(out@ =~= base + shown_row(trees.take(0)));
                assert(tree_of(n) matches Tree::Double(x) && x == trees);
            }
            loop
                invariant_except_break
                    0 <= k < row.len(),
                    cur == Index(place(row[k])),
                invariant
                    0 <= k <= row.len(),
                    arena.wf(),
                    m == arena@,
                    n == (Layout::Double { at: at.0, inner: row }),
                    trees == trees_of(row),
                    trees.len() == row.len(),
                    chain_ok(m, row, None),
                    started == (k > 0),
                    out@ == base + shown_row(trees.take(k)),
                ensures
                    k == row.len(),
                decreases row.len() - k,
            {
                proof {
                    lemma_slot(m, row, None, k);
                    lemma_trees(row);
                    assert(decreases_to!(n => n->Double_inner));
                    assert(decreases_to!(row => row[k]));
                    assert(decreases_to!(n => row[k]));
                    assert(trees.take(k + 1).drop_last() =~= trees.take(k));
                    assert(trees.take(k + 1).last() == trees[k]);
                    assert(trees.take(k + 1)[0] == trees[0]);
                }
                let after = fetch(arena, cur).next();
                if started {
                    out.push(44);
                    out.push(32);
                }
                let ghost before = out@;
                show(arena, cur, out, Ghost(row[k]), Ghost(succ(row, k, None)));
                proof {
                    if k > 0 {
                        assert(before =~= base + shown_row(trees.take(k)) + seq![44u8, 32u8]);
                    }
                    assert(out@ =~= base + shown_row(trees.take(k + 1)));
                    k = k + 1;
                }
                started = true;
                match after {
                    Some(following) => {
                        cur = following;
                    },
                    None => {
                        break;
                    },
                }
            }
            out.push(93);
            proof {
                assert(trees.take(row.len() as int) =~= trees);
                assert(out@ =~= old(out)@ + shown(tree_of(n)));
            }
        },
    }
}

/// Appends the handles of a bubble and of all that it holds.
pub(super) fn list(
    arena: &Arena<Bubble>,
    at: Index,
    out: &mut Vec<Index>,
    Ghost(n): Ghost<Layout>,
    Ghost(next): Ghost<Option<Index>>,
)
    requires
        arena.wf(),
        node_ok(arena@, n, next),
        at == Index(place(n)),
    ensures
        final(out)@ == old(out)@ + flat(n),
    decreases n,
{
    let ghost m = arena@;
    proof {
        lemma_node_slot(m, n, next);
        lemma_unfold(n);
    }
    out.push(at);
    match fetch(arena, at) {
        Bubble::Single { .. } => {
            assert(out@ =~= old(out)@ + flat(n));
        },
        Bubble::Double { inner: (first, _), .. } => {
            let ghost row = n->Double_inner;
            let ghost base = out@;
            let mut cur = first;
            let ghost mut k: int = 0;
            proof {
                assert(row.take(0) =~= Seq::<Layout>::empty());
                assert(out@ =~= base + flat_all(row.take(0)));
            }
            loop
                invariant_except_break
                    0 <= k < row.len(),
                    cur == Index(place(row[k])),
                invariant
                    0 <= k <= row.len(),
                    arena.wf(),
                    m == arena@,
                    n == (Layout::Double { at: at.0, inner: row }),
                    chain_ok(m, row, None),
                    out@ == base + flat_all(row.take(k)),
                ensures
                    k == row.len(),
                decreases row.len() - k,
            {
                proof {
                    lemma_slot(m, row, None, k);
                    assert(decreases_to!(n => n->Double_inner));
                    assert(decreases_to!(row => row[k]));
                    assert(decreases_to!(n => row[k]));
                    assert(row.take(k + 1).drop_last() =~= row.take(k));
                    assert(row.take(k + 1).last() == row[k]);
                }
                let after = fetch(arena, cur).next();
                list(arena, cur, out, Ghost(row[k]), Ghost(succ(row, k, None)));
                proof {
                    assert(out@ =~= base + flat_all(row.take(k + 1)));
                    k = k + 1;
                }
                match after {
                    Some(following) => {
                        cur = following;
                    },
                    None => {
                        break;
                    },
                }
            }
            proof {
                assert(row.take(row.len() as int) =~= row);
                assert(out@ =~= old(out)@ + flat(n));
            }
        },
    }
}

} // verus!
