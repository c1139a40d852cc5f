//! Combining two bubbles into one, number by number.
use crate::abyss::{
    Tree, Value, combine_post, combine_pre, kernel_post, kernel_pre, shorter, spread_post,
    spread_pre,
};
use crate::arena::{Arena, Index};
use crate::combine::{lemma_combine_post_rows, lemma_combine_pre_inner, lemma_spread_pre_inner};
use crate::linked::cells::{fetch, put, release, set_next, settle};
use crate::linked::lemmas::{
    lemma_chain_apart, lemma_chain_cleared, lemma_chain_join, lemma_chain_none,
    lemma_chain_occupied, lemma_chain_one, lemma_chain_replace, lemma_chain_retarget,
    lemma_chain_split, lemma_chain_touched, lemma_node_apart, lemma_node_occupied,
    lemma_node_retarget, lemma_node_slot, lemma_node_wrap, lemma_owned_first, lemma_owned_join,
    lemma_owned_none, lemma_owned_one, lemma_owned_part, lemma_owned_rest, lemma_owned_update,
    lemma_owns_place, lemma_slot, lemma_touched_at, lemma_touched_cleared, lemma_touched_twice,
    lemma_trees, lemma_unfold, lemma_vacant_before,
};
use crate::linked::walks::remove_all;
use crate::linked::{
    Bubble, Layout, bounded, chain_ok, drawn, drawn_all, head, node_ok, owned, owned_all, place,
    succ, touched, tree_of, trees_of, vacant,
};
use vstd::prelude::*;

verus! {

/// Puts what two numbers combine to in the place of a number.
pub(super) fn leaf<F1: Fn(Value, Value) -> Value, F2: Fn(Value, Value) -> Value>(
    arena: &mut Arena<Bubble>,
    at: Index,
    a: Value,
    b: Value,
    op1: &F1,
    op2: &F2,
    pair: bool,
    Ghost(n): Ghost<Layout>,
    Ghost(next): Ghost<Option<Index>>,
) -> (res: Ghost<Layout>)
    requires
        old(arena).wf(),
        node_ok(old(arena)@, n, next),
        n is Single,
        at == Index(place(n)),
        kernel_pre(*op1, *op2, pair, a, b),
    ensures
        final(arena).wf(),
        node_ok(final(arena)@, res@, next),
        place(res@) == place(n),
        kernel_post(*op1, *op2, pair, a, b, tree_of(res@)),
        touched(old(arena)@, final(arena)@, owned(n)),
        drawn(old(arena)@, res@, owned(n)),
        bounded(old(arena)@, final(arena)@, Set::empty(), owned(res@)),
        owned(n).subset_of(owned(res@)),
{
    let ghost m0 = arena@;
    proof {
        arena.lemma_len_bound();
        lemma_node_slot(m0, n, next);
        lemma_unfold(n);
    }
    let c1 = op1(a, b);
    let link = fetch(arena, at).next();
    if pair {
        let c2 = op2(a, b);
        let second = settle(arena, Bubble::Single { value: c2, next: None });
        let ghost m1 = arena@;
        let first = settle(arena, Bubble::Single { value: c1, next: Some(second) });
        let ghost m2 = arena@;
        put(arena, at, Bubble::Double { inner: (first, second), next: link });
        let ghost s1 = Layout::Single { at: first.0, value: c1 };
        let ghost s2 = Layout::Single { at: second.0, value: c2 };
        let ghost inner = seq![s1, s2];
        let ghost made = Layout::Double { at: at.0, inner };
        proof {
            let m3 = arena@;
            lemma_unfold(s1);
            lemma_unfold(s2);
            lemma_chain_one(m3, s2, None);
            assert(seq![s2][0] == s2);
            lemma_chain_one(m3, s1, Some(second));
            lemma_owned_one(s1);
            lemma_owned_one(s2);
            lemma_chain_join(m3, seq![s1], seq![s2], None);
            assert(seq![s1] + seq![s2] =~= inner);
            lemma_owned_join(seq![s1], seq![s2]);
            lemma_node_wrap(m3, at.0, inner, next);
            lemma_unfold(made);
            lemma_trees(inner);
            assert forall|h: usize| h < m3.len() && (#[trigger] m3[h as int]) is Some implies owned(
                made,
            ).contains(h) || (h < m0.len() && m0[h as int] is Some) by {
                assert(m2[h as int] is Some);
                if h != first.0 {
                    assert(m1[h as int] is Some);
                }
            }
        }
        Ghost(made)
    } else {
        put(arena, at, Bubble::Single { value: c1, next: link });
        let ghost made = Layout::Single { at: at.0, value: c1 };
        proof {
            lemma_unfold(made);
        }
        Ghost(made)
    }
}

/// Combines one number with every number of a bubble, in place.
pub(super) fn spread<F1: Fn(Value, Value) -> Value, F2: Fn(Value, Value) -> Value>(
    arena: &mut Arena<Bubble>,
    at: Index,
    v: Value,
    left: bool,
    op1: &F1,
    op2: &F2,
    pair: bool,
    Ghost(n): Ghost<Layout>,
    Ghost(next): Ghost<Option<Index>>,
) -> (res: Ghost<Layout>)
    requires
        old(arena).wf(),
        node_ok(old(arena)@, n, next),
        at == Index(place(n)),
        spread_pre(*op1, *op2, pair, v, tree_of(n), left),
    ensures
        final(arena).wf(),
        node_ok(final(arena)@, res@, next),
        place(res@) == place(n),
        spread_post(*op1, *op2, pair, v, tree_of(n), left, tree_of(res@)),
        touched(old(arena)@, final(arena)@, owned(n)),
        drawn(old(arena)@, res@, owned(n)),
        bounded(old(arena)@, final(arena)@, Set::empty(), owned(res@)),
        owned(n).subset_of(owned(res@)),
    decreases n,
{
    let ghost m0 = arena@;
    proof {
        arena.lemma_len_bound();
        lemma_node_slot(m0, n, next);
        lemma_unfold(n);
    }
    match fetch(arena, at) {
        Bubble::Single { value, .. } => {
            if left {
                leaf(arena, at, v, value, op1, op2, pair, Ghost(n), Ghost(next))
            } else {
                leaf(arena, at, value, v, op1, op2, pair, Ghost(n), Ghost(next))
            }
        },
        Bubble::Double { inner: (first, _), .. } => {
            let ghost row0 = n->Double_inner;
            let ghost mut row = row0;
            let mut cur = first;
            let ghost mut k: int = 0;
            proof {
                lemma_trees(row0);
            }
            loop
                invariant_except_break
                    0 <= k < row0.len(),
                    cur == Index(place(row0[k])),
                invariant
                    arena.wf(),
                    m0.len() <= usize::MAX,
                    n == (Layout::Double { at: at.0, inner: row0 }),
                    chain_ok(m0, row0, None),
                    spread_pre(*op1, *op2, pair, v, tree_of(n), left),
                    tree_of(n) == Tree::Double(trees_of(row0)),
                    chain_ok(arena@, row, None),
                    row.len() == row0.len(),
                    0 <= k <= row0.len(),
                    forall|i: int| 0 <= i < row.len() ==> place(#[trigger] row[i]) == place(row0[i]),
                    forall|i: int| k <= i < row.len() ==> #[trigger] row[i] == row0[i],
                    drawn_all(m0, row, owned_all(row0)),
                    touched(m0, arena@, owned_all(row0)),
                    bounded(m0, arena@, Set::empty(), owned_all(row)),
                    owned_all(row0).subset_of(owned_all(row)),
                    forall|i: int|
                        0 <= i < k ==> spread_post(
                            *op1,
                            *op2,
                            pair,
                            v,
                            tree_of(#[trigger] row0[i]),
                            left,
                            tree_of(row[i]),
                        ),
                ensures
                    k == row0.len(),
                decreases row0.len() - k,
            {
                let ghost m1 = arena@;
                proof {
                    arena.lemma_len_bound();
                    lemma_slot(m1, row, None, k);
                    lemma_trees(row0);
                    assert(row[k] == row0[k]);
                    assert(trees_of(row0)[k] == tree_of(row0[k]));
                    lemma_spread_pre_inner(*op1, *op2, pair, v, trees_of(row0), left, k);
                    assert(decreases_to!(n => n->Double_inner));
                    assert(decreases_to!(row0 => row0[k]));
                    assert(decreases_to!(n => row0[k]));
                }
                let after = fetch(arena, cur).next();
                let Ghost(made) = spread(
                    arena,
                    cur,
                    v,
                    left,
                    op1,
                    op2,
                    pair,
                    Ghost(row[k]),
                    Ghost(succ(row, k, None)),
                );
                proof {
                    let m2 = arena@;
                    let row2 = row.update(k, made);
                    lemma_chain_replace(m1, m2, row, None, k, made);
                    lemma_owned_part(row0, k);
                    assert(touched(m0, m2, owned_all(row0))) by {
                        assert forall|i: int| 0 <= i < m0.len() && (#[trigger] m0[i]) is Some
                            && !owned_all(row0).contains(i as usize) implies m2[i] == m0[i] by {
                            assert(m1[i] == m0[i]);
                            assert(!owned(row0[k]).contains(i as usize));
                        }
                    }
                    assert(drawn_all(m0, row2, owned_all(row0))) by {
                        assert forall|h: usize| #[trigger] owned_all(row2).contains(h) implies owned_all(
                            row0,
                        ).contains(h) || vacant(m0, h) by {
                            if !owned_all(row).contains(h) {
                                lemma_vacant_before(m0, m1, owned_all(row0), h);
                            }
                        }
                    }
                    lemma_owned_update(row, k, made);
                    assert forall|h: usize| h < m2.len() && (#[trigger] m2[h as int]) is Some implies owned_all(
                        row2,
                    ).contains(h) || (h < m0.len() && m0[h as int] is Some) by {
                        if !owned(made).contains(h) {
                            assert(m1[h as int] is Some);
                        }
                    }
                    row = row2;
                    k = k + 1;
                }
                match after {
                    Some(following) => {
                        cur = following;
                    },
                    None => {
                        break;
                    },
                }
            }
            let ghost made = Layout::Double { at: at.0, inner: row };
            proof {
                let m3 = arena@;
                lemma_unfold(made);
                lemma_trees(row0);
                lemma_trees(row);
                assert(!owned_all(row).contains(at.0));
                assert(m3[at.0 as int] == m0[at.0 as int]);
                assert(row[0] == row.first());
                lemma_node_wrap(m3, at.0, row, next);
                assert(touched(m0, m3, owned(n)));
                assert(drawn(m0, made, owned(n)));
                assert forall|i: int| 0 <= i < trees_of(row0).len() implies spread_post(
                    *op1,
                    *op2,
                    pair,
                    v,
                    #[trigger] trees_of(row0)[i],
                    left,
                    trees_of(row)[i],
                ) by {
                    assert(spread_post(*op1, *op2, pair, v, tree_of(row0[i]), left, tree_of(row[i])));
                }
            }
            Ghost(made)
        },
    }
}

/// Combines two rows place by place, as far as the shorter one goes, into
/// a row of its own, and empties what is left over.
#[verifier::rlimit(60)]
pub(super) fn zip_rows<F1: Fn(Value, Value) -> Value, F2: Fn(Value, Value) -> Value>(
    arena: &mut Arena<Bubble>,
    left_first: Index,
    right_first: Index,
    op1: &F1,
    op2: &F2,
    pair: bool,
    Ghost(lrow): Ghost<Seq<Layout>>,
    Ghost(rrow): Ghost<Seq<Layout>>,
) -> (res: (Index, Index, Ghost<Seq<Layout>>))
    requires
        old(arena).wf(),
        chain_ok(old(arena)@, lrow, None),
        chain_ok(old(arena)@, rrow, None),
        lrow.len() > 0,
        rrow.len() > 0,
        left_first == Index(place(lrow[0])),
        right_first == Index(place(rrow[0])),
        owned_all(lrow).disjoint(owned_all(rrow)),
        forall|i: int|
            0 <= i < shorter(lrow.len(), rrow.len()) ==> combine_pre(
                *op1,
                *op2,
                pair,
                tree_of(#[trigger] lrow[i]),
                tree_of(rrow[i]),
            ),
    ensures
        final(arena).wf(),
        chain_ok(final(arena)@, res.2@, None),
        res.2@.len() == shorter(lrow.len(), rrow.len()),
        res.0 == Index(place(res.2@[0])),
        res.1 == Index(place(res.2@.last())),
        forall|i: int|
            0 <= i < res.2@.len() ==> combine_post(
                *op1,
                *op2,
                pair,
                tree_of(#[trigger] lrow[i]),
                tree_of(rrow[i]),
                tree_of(res.2@[i]),
            ),
        touched(old(arena)@, final(arena)@, owned_all(lrow).union(owned_all(rrow))),
        drawn_all(old(arena)@, res.2@, owned_all(lrow).union(owned_all(rrow))),
        bounded(
            old(arena)@,
            final(arena)@,
            owned_all(lrow).union(owned_all(rrow)),
            owned_all(res.2@),
        ),
    decreases lrow,
{
    let ghost m0 = arena@;
    let ghost both = owned_all(lrow).union(owned_all(rrow));
    let ghost short = shorter(lrow.len(), rrow.len()) as int;
    let mut lc = left_first;
    let mut rc = right_first;
    let ghost mut k: int = 0;
    let ghost mut results: Seq<Layout> = Seq::empty();
    let mut first_out: Option<Index> = None;
    let mut last_out = Index(0);
    let mut left_over: Option<Index> = None;
    let mut right_over: Option<Index> = None;
    proof {
        arena.lemma_len_bound();
        lemma_chain_none(m0, None);
        assert(lrow.skip(0) =~= lrow);
        assert(rrow.skip(0) =~= rrow);
        lemma_chain_occupied(m0, lrow, None);
        lemma_chain_occupied(m0, rrow, None);
        lemma_owned_none();
    }
    loop
        invariant_except_break
            0 <= k < short,
            lc == Index(place(lrow[k])),
            rc == Index(place(rrow[k])),
        invariant
            arena.wf(),
            m0.len() <= usize::MAX,
            both == owned_all(lrow).union(owned_all(rrow)),
            short == shorter(lrow.len(), rrow.len()),
            owned_all(lrow).disjoint(owned_all(rrow)),
            chain_ok(m0, lrow, None),
            chain_ok(m0, rrow, None),
            forall|h: usize| #[trigger] both.contains(h) ==> h < m0.len() && m0[h as int] is Some,
            forall|i: int|
                0 <= i < short ==> combine_pre(
                    *op1,
                    *op2,
                    pair,
                    tree_of(#[trigger] lrow[i]),
                    tree_of(rrow[i]),
                ),
            0 <= k <= short,
            chain_ok(arena@, lrow.skip(k), None),
            chain_ok(arena@, rrow.skip(k), None),
            chain_ok(arena@, results, None),
            results.len() == k,
            first_out == head(results, None),
            k > 0 ==> last_out == Index(place(results.last())),
            forall|h: usize| #[trigger]
                owned_all(results).contains(h) ==> (both.contains(h) || vacant(m0, h)) && !owned_all(
                    lrow.skip(k),
                ).contains(h) && !owned_all(rrow.skip(k)).contains(h),
            forall|h: usize| #[trigger] owned_all(lrow.skip(k)).contains(h) ==> owned_all(lrow).contains(h),
            forall|h: usize| #[trigger] owned_all(rrow.skip(k)).contains(h) ==> owned_all(rrow).contains(h),
            touched(m0, arena@, both),
            bounded(
                m0,
                arena@,
                both,
                owned_all(results).union(owned_all(lrow.skip(k))).union(owned_all(rrow.skip(k))),
            ),
            forall|i: int|
                0 <= i < k ==> combine_post(
                    *op1,
                    *op2,
                    pair,
                    tree_of(#[trigger] lrow[i]),
                    tree_of(rrow[i]),
                    tree_of(results[i]),
                ),
        ensures
            k == short,
            left_over == head(lrow.skip(k), None),
            right_over == head(rrow.skip(k), None),
        decreases short - k,
    {
        let ghost m1 = arena@;
        let ghost ltail = lrow.skip(k);
        let ghost rtail = rrow.skip(k);
        let ghost lnext = lrow.skip(k + 1);
        let ghost rnext = rrow.skip(k + 1);
        let ghost ln = lrow[k];
        let ghost rn = rrow[k];
        proof {
            arena.lemma_len_bound();
            lemma_slot(m1, ltail, None, 0);
            lemma_slot(m1, rtail, None, 0);
            assert(ltail[0] == ln);
            assert(rtail[0] == rn);
            lemma_chain_split(m1, ltail, 1, None);
            lemma_chain_split(m1, rtail, 1, None);
            assert(ltail.skip(1) =~= lnext);
            assert(rtail.skip(1) =~= rnext);
            lemma_owned_rest(m0, lrow, None, k);
            lemma_owned_rest(m0, rrow, None, k);
            lemma_chain_occupied(m1, ltail, None);
            lemma_chain_occupied(m1, rtail, None);
            assert(owned(ln).disjoint(owned(rn))) by {
                assert forall|h: usize| owned(ln).contains(h) implies !owned(rn).contains(h) by {
                    if owned(rn).contains(h) {
                        assert(owned_all(lrow).contains(h));
                        assert(owned_all(rrow).contains(h));
                    }
                }
            }
            assert(decreases_to!(lrow => lrow[k]));
        }
        let left_after = fetch(arena, lc).next();
        let right_after = fetch(arena, rc).next();
        let (out, Ghost(made)) = zip(
            arena,
            lc,
            rc,
            op1,
            op2,
            pair,
            Ghost(ln),
            Ghost(succ(ltail, 0, None)),
            Ghost(rn),
            Ghost(succ(rtail, 0, None)),
        );
        let ghost m2 = arena@;
        let ghost pair_owned = owned(ln).union(owned(rn));
        proof {
            arena.lemma_len_bound();
            lemma_chain_occupied(m1, results, None);
            assert(owned_all(results).disjoint(pair_owned)) by {
                assert forall|h: usize| owned_all(results).contains(h) implies !pair_owned.contains(
                    h,
                ) by {
                    if owned(ln).contains(h) {
                        assert(owned_all(ltail).contains(h));
                    }
                    if owned(rn).contains(h) {
                        assert(owned_all(rtail).contains(h));
                    }
                }
            }
            assert(owned_all(lnext).disjoint(pair_owned)) by {
                assert forall|h: usize| owned_all(lnext).contains(h) implies !pair_owned.contains(h) by {
                    assert(owned_all(ltail).contains(h));
                    assert(owned_all(lrow).contains(h));
                    if owned(rn).contains(h) {
                        assert(owned_all(rtail).contains(h));
                        assert(owned_all(rrow).contains(h));
                    }
                }
            }
            assert(owned_all(rnext).disjoint(pair_owned)) by {
                assert forall|h: usize| owned_all(rnext).contains(h) implies !pair_owned.contains(h) by {
                    assert(owned_all(rtail).contains(h));
                    assert(owned_all(rrow).contains(h));
                    if owned(ln).contains(h) {
                        assert(owned_all(ltail).contains(h));
                        assert(owned_all(lrow).contains(h));
                    }
                }
            }
            lemma_chain_touched(m1, m2, results, None, pair_owned);
            lemma_chain_touched(m1, m2, lnext, None, pair_owned);
            lemma_chain_touched(m1, m2, rnext, None, pair_owned);
            assert forall|h: usize| #[trigger] pair_owned.contains(h) implies both.contains(h) || vacant(
                m0,
                h,
            ) by {
                if owned(ln).contains(h) {
                    assert(owned_all(ltail).contains(h));
                    assert(owned_all(lrow).contains(h));
                } else {
                    assert(owned_all(rtail).contains(h));
                    assert(owned_all(rrow).contains(h));
                }
            }
            lemma_touched_twice(m0, m1, m2, both, pair_owned);
            lemma_owns_place(made);
            lemma_node_occupied(m2, made, None);
            lemma_chain_occupied(m1, lnext, None);
            lemma_chain_occupied(m1, rnext, None);
            assert forall|h: usize| #[trigger] owned(made).contains(h) implies (both.contains(h) || vacant(
                m0,
                h,
            )) && !owned_all(lnext).contains(h) && !owned_all(rnext).contains(h) && !owned_all(
                results,
            ).contains(h) by {
                if !pair_owned.contains(h) {
                    assert(vacant(m1, h));
                    lemma_vacant_before(m0, m1, both, h);
                }
            }
        }
        if let Some(_) = first_out {
            proof {
                lemma_slot(m2, results, None, k - 1);
                assert(owned_all(results).contains(last_out.0));
            }
            set_next(arena, last_out, Some(out));
            proof {
                let m3 = arena@;
                lemma_chain_retarget(m2, m3, results, None, Some(out));
                lemma_node_apart(m2, m3, made, None, last_out.0);
                assert(owned_all(ltail).contains(last_out.0) || !owned_all(lnext).contains(last_out.0));
                assert(owned_all(rtail).contains(last_out.0) || !owned_all(rnext).contains(last_out.0));
                lemma_chain_apart(m2, m3, lnext, None, last_out.0);
                lemma_chain_apart(m2, m3, rnext, None, last_out.0);
                lemma_touched_at(m0, m2, m3, both, last_out.0);
            }
        } else {
            first_out = Some(out);
            proof {
                lemma_chain_none(arena@, Some(out));
                assert(results =~= Seq::<Layout>::empty());
            }
        }
        proof {
            let m3 = arena@;
            assert(seq![made][0] == made);
            lemma_chain_one(m3, made, None);
            lemma_owned_one(made);
            lemma_chain_join(m3, results, seq![made], None);
            lemma_owned_join(results, seq![made]);
            let grown = results + seq![made];
            assert(grown.last() == made);
            assert forall|h: usize| #[trigger] owned_all(grown).contains(h) implies (both.contains(h)
                || vacant(m0, h)) && !owned_all(lnext).contains(h) && !owned_all(rnext).contains(h) by {
                if owned_all(results).contains(h) {
                    assert(owned_all(ltail).contains(h) || !owned_all(lnext).contains(h));
                    assert(owned_all(rtail).contains(h) || !owned_all(rnext).contains(h));
                }
            }
            assert forall|h: usize| #[trigger] owned_all(lnext).contains(h) implies owned_all(
                lrow,
            ).contains(h) by {
                assert(owned_all(ltail).contains(h));
            }
            assert forall|h: usize| #[trigger] owned_all(rnext).contains(h) implies owned_all(
                rrow,
            ).contains(h) by {
                assert(owned_all(rtail).contains(h));
            }
            assert forall|i: int| 0 <= i < k + 1 implies combine_post(
                *op1,
                *op2,
                pair,
                tree_of(#[trigger] lrow[i]),
                tree_of(rrow[i]),
                tree_of(grown[i]),
            ) by {
                if i < k {
                    assert(grown[i] == results[i]);
                }
            }
            assert forall|h: usize| h < m3.len() && (#[trigger] m3[h as int]) is Some implies owned_all(
                grown,
            ).union(owned_all(lnext)).union(owned_all(rnext)).contains(h) || (h < m0.len()
                && m0[h as int] is Some && !both.contains(h)) by {
                assert(m2[h as int] is Some);
                if !owned(made).contains(h) {
                    assert(m1[h as int] is Some);
                    assert(!pair_owned.contains(h));
                    if owned_all(ltail).contains(h) {
                        lemma_owned_first(lrow, k, h);
                    }
                    if owned_all(rtail).contains(h) {
                        lemma_owned_first(rrow, k, h);
                    }
                }
            }
            results = grown;
            k = k + 1;
        }
        last_out = out;
        match (left_after, right_after) {
            (Some(l_next), Some(r_next)) => {
                lc = l_next;
                rc = r_next;
            },
            _ => {
                left_over = left_after;
                right_over = right_after;
                break;
            },
        }
    }
    if let Some(extra) = left_over {
        let ghost m4 = arena@;
        let ghost gone = owned_all(lrow.skip(k));
        proof {
            lemma_chain_occupied(m4, rrow.skip(k), None);
            assert(gone.disjoint(owned_all(results)));
            assert(gone.disjoint(owned_all(rrow.skip(k)))) by {
                assert forall|h: usize| gone.contains(h) implies !owned_all(rrow.skip(k)).contains(h) by {
                    if owned_all(rrow.skip(k)).contains(h) {
                        assert(owned_all(lrow).contains(h));
                        assert(owned_all(rrow).contains(h));
                    }
                }
            }
            assert(gone.subset_of(both)) by {
                assert forall|h: usize| gone.contains(h) implies both.contains(h) by {
                    assert(owned_all(lrow).contains(h));
                }
            }
        }
        remove_all(arena, extra, Ghost(lrow.skip(k)));
        proof {
            let m5 = arena@;
            arena.lemma_len_bound();
            lemma_chain_cleared(m4, m5, results, None, gone);
            lemma_chain_cleared(m4, m5, rrow.skip(k), None, gone);
            lemma_touched_cleared(m0, m4, m5, both, gone);
            assert forall|h: usize| h < m5.len() && (#[trigger] m5[h as int]) is Some implies owned_all(
                results,
            ).union(owned_all(rrow.skip(k))).contains(h) || (h < m0.len() && m0[h as int] is Some
                && !both.contains(h)) by {
                assert(m4[h as int] is Some);
                assert(!gone.contains(h));
            }
        }
    } else {
        proof {
            lemma_chain_none(arena@, None);
            assert(lrow.skip(k).len() == 0) by {
                if lrow.skip(k).len() > 0 {
                    assert(head(lrow.skip(k), None) is Some);
                }
            }
            assert(lrow.skip(k) =~= Seq::<Layout>::empty());
            lemma_owned_none();
        }
    }
    let ghost m6 = arena@;
    proof {
        assert(bounded(m0, m6, both, owned_all(results).union(owned_all(rrow.skip(k)))));
    }
    if let Some(extra) = right_over {
        let ghost m4 = arena@;
        let ghost gone = owned_all(rrow.skip(k));
        proof {
            assert(gone.disjoint(owned_all(results)));
            assert(gone.subset_of(both)) by {
                assert forall|h: usize| gone.contains(h) implies both.contains(h) by {
                    assert(owned_all(rrow).contains(h));
                }
            }
        }
        remove_all(arena, extra, Ghost(rrow.skip(k)));
        proof {
            let m5 = arena@;
            arena.lemma_len_bound();
            lemma_chain_cleared(m4, m5, results, None, gone);
            lemma_touched_cleared(m0, m4, m5, both, gone);
            assert forall|h: usize| h < m5.len() && (#[trigger] m5[h as int]) is Some implies owned_all(
                results,
            ).contains(h) || (h < m0.len() && m0[h as int] is Some && !both.contains(h)) by {
                assert(m4[h as int] is Some);
                assert(!gone.contains(h));
            }
        }
    } else {
        proof {
            assert(rrow.skip(k).len() == 0) by {
                if rrow.skip(k).len() > 0 {
                    assert(head(rrow.skip(k), None) is Some);
                }
            }
            assert(rrow.skip(k) =~= Seq::<Layout>::empty());
            lemma_owned_none();
        }
    }
    let front = match first_out {
        Some(front) => front,
        None => last_out,
    };
    (front, last_out, Ghost(results))
}

/// Combines two bubbles into one that stands alone, and empties the slots
/// that it has no use for.
pub(super) fn zip<F1: Fn(Value, Value) -> Value, F2: Fn(Value, Value) -> Value>(
    arena: &mut Arena<Bubble>,
    l: Index,
    r: Index,
    op1: &F1,
    op2: &F2,
    pair: bool,
    Ghost(ln): Ghost<Layout>,
    Ghost(lnext): Ghost<Option<Index>>,
    Ghost(rn): Ghost<Layout>,
    Ghost(rnext): Ghost<Option<Index>>,
) -> (res: (Index, Ghost<Layout>))
    requires
        old(arena).wf(),
        node_ok(old(arena)@, ln, lnext),
        node_ok(old(arena)@, rn, rnext),
        l == Index(place(ln)),
        r == Index(place(rn)),
        owned(ln).disjoint(owned(rn)),
        combine_pre(*op1, *op2, pair, tree_of(ln), tree_of(rn)),
    ensures
        final(arena).wf(),
        node_ok(final(arena)@, res.1@, None),
        res.0 == Index(place(res.1@)),
        combine_post(*op1, *op2, pair, tree_of(ln), tree_of(rn), tree_of(res.1@)),
        touched(old(arena)@, final(arena)@, owned(ln).union(owned(rn))),
        drawn(old(arena)@, res.1@, owned(ln).union(owned(rn))),
        bounded(old(arena)@, final(arena)@, owned(ln).union(owned(rn)), owned(res.1@)),
    decreases ln,
{
    let ghost m0 = arena@;
    let ghost both = owned(ln).union(owned(rn));
    proof {
        arena.lemma_len_bound();
        lemma_node_slot(m0, ln, lnext);
        lemma_node_slot(m0, rn, rnext);
        lemma_unfold(ln);
        lemma_unfold(rn);
        lemma_node_occupied(m0, ln, lnext);
        lemma_node_occupied(m0, rn, rnext);
    }
    let top = fetch(arena, l);
    let below = fetch(arena, r);
    match top {
        Bubble::Single { value, .. } => {
            release(arena, l);
            let ghost m1 = arena@;
            proof {
                lemma_node_apart(m0, m1, rn, rnext, l.0);
            }
            let Ghost(made) = spread(arena, r, value, true, op1, op2, pair, Ghost(rn), Ghost(rnext));
            let ghost m2 = arena@;
            proof {
                arena.lemma_len_bound();
                lemma_node_slot(m2, made, rnext);
            }
            set_next(arena, r, None);
            proof {
                let m3 = arena@;
                lemma_node_retarget(m2, m3, made, rnext, None);
                assert(touched(m0, m3, both)) by {
                    assert forall|i: int| 0 <= i < m0.len() && (#[trigger] m0[i]) is Some
                        && !both.contains(i as usize) implies m3[i] == m0[i] by {
                        assert(m1[i] == m0[i]);
                        assert(m2[i] == m1[i]);
                    }
                }
                assert(drawn(m0, made, both)) by {
                    assert forall|h: usize| #[trigger] owned(made).contains(h) implies both.contains(h)
                        || vacant(m0, h) by {
                        if !owned(rn).contains(h) {
                            assert(vacant(m1, h));
                        }
                    }
                }
            }
            (r, Ghost(made))
        },
        Bubble::Double { inner: (left_first, _), .. } => {
            match below {
                Bubble::Single { value, .. } => {
                    release(arena, r);
                    let ghost m1 = arena@;
                    proof {
                        lemma_node_apart(m0, m1, ln, lnext, r.0);
                    }
                    let Ghost(made) = spread(
                        arena,
                        l,
                        value,
                        false,
                        op1,
                        op2,
                        pair,
                        Ghost(ln),
                        Ghost(lnext),
                    );
                    let ghost m2 = arena@;
                    proof {
                        arena.lemma_len_bound();
                        lemma_node_slot(m2, made, lnext);
                    }
                    set_next(arena, l, None);
                    proof {
                        let m3 = arena@;
                        lemma_node_retarget(m2, m3, made, lnext, None);
                        assert(touched(m0, m3, both)) by {
                            assert forall|i: int| 0 <= i < m0.len() && (#[trigger] m0[i]) is Some
                                && !both.contains(i as usize) implies m3[i] == m0[i] by {
                                assert(m1[i] == m0[i]);
                                assert(m2[i] == m1[i]);
                            }
                        }
                        assert(drawn(m0, made, both)) by {
                            assert forall|h: usize| #[trigger] owned(made).contains(h) implies both.contains(
                                h,
                            ) || vacant(m0, h) by {
                                if !owned(ln).contains(h) {
                                    assert(vacant(m1, h));
                                }
                            }
                        }
                    }
                    (l, Ghost(made))
                },
                Bubble::Double { inner: (right_first, _), .. } => {
                    let ghost lrow = ln->Double_inner;
                    let ghost rrow = rn->Double_inner;
                    proof {
                        lemma_trees(lrow);
                        lemma_trees(rrow);
                        assert forall|i: int| 0 <= i < shorter(lrow.len(), rrow.len()) implies combine_pre(
                            *op1,
                            *op2,
                            pair,
                            tree_of(#[trigger] lrow[i]),
                            tree_of(rrow[i]),
                        ) by {
                            lemma_combine_pre_inner(
                                *op1,
                                *op2,
                                pair,
                                trees_of(lrow),
                                trees_of(rrow),
                                i,
                            );
                        }
                        assert(decreases_to!(ln => ln->Double_inner));
                    }
                    let (front, back, Ghost(results)) = zip_rows(
                        arena,
                        left_first,
                        right_first,
                        op1,
                        op2,
                        pair,
                        Ghost(lrow),
                        Ghost(rrow),
                    );
                    let ghost m1 = arena@;
                    proof {
                        arena.lemma_len_bound();
                        lemma_chain_occupied(m1, results, None);
                        assert(m1[l.0 as int] == m0[l.0 as int]);
                        assert(m1[r.0 as int] == m0[r.0 as int]);
                        assert(!owned_all(results).contains(l.0));
                        assert(!owned_all(results).contains(r.0));
                    }
                    release(arena, l);
                    let ghost m2 = arena@;
                    put(arena, r, Bubble::Double { inner: (front, back), next: None });
                    let ghost made = Layout::Double { at: r.0, inner: results };
                    proof {
                        let m3 = arena@;
                        lemma_chain_apart(m1, m2, results, None, l.0);
                        lemma_chain_apart(m2, m3, results, None, r.0);
                        lemma_node_wrap(m3, r.0, results, None);
                        lemma_unfold(made);
                        lemma_trees(results);
                        assert(touched(m0, m3, both)) by {
                            assert forall|i: int| 0 <= i < m0.len() && (#[trigger] m0[i]) is Some
                                && !both.contains(i as usize) implies m3[i] == m0[i] by {
                                assert(m1[i] == m0[i]);
                                assert(m2[i] == m1[i]);
                            }
                        }
                        assert forall|i: int| 0 <= i < trees_of(results).len() implies combine_post(
                            *op1,
                            *op2,
                            pair,
                            #[trigger] trees_of(lrow)[i],
                            trees_of(rrow)[i],
                            trees_of(results)[i],
                        ) by {
                            assert(combine_post(
                                *op1,
                                *op2,
                                pair,
                                tree_of(lrow[i]),
                                tree_of(rrow[i]),
                                tree_of(results[i]),
                            ));
                        }
                        lemma_combine_post_rows(
                            *op1,
                            *op2,
                            pair,
                            trees_of(lrow),
                            trees_of(rrow),
                            trees_of(results),
                        );
                    }
                    (r, Ghost(made))
                },
            }
        },
    }
}

} // verus!
