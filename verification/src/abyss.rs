//! The Abyss as a mathematical value, what each operation does to it, and the
//! trait that a store of bubbles has to meet.
use crate::awascii::{codes, AwaSCII};
use crate::batch::{each, repeated, Batched};
use crate::text::decimal_of;
use vstd::prelude::*;

verus! {

/// The numbers that bubbles hold.
pub type Value = isize;

/// A bubble as a value: one number, or a row of bubbles.
pub enum Tree {
    Single(Value),
    Double(Seq<Tree>),
}

/// The bubbles that `t` brings into a merge: itself, or the row it holds.
pub open spec fn parts(t: Tree) -> Seq<Tree> {
    match t {
        Tree::Single(_) => seq![t],
        Tree::Double(inner) => inner,
    }
}

/// The number of bubbles directly inside `t`.
pub open spec fn size(t: Tree) -> nat {
    match t {
        Tree::Single(_) => 0,
        Tree::Double(inner) => inner.len(),
    }
}

/// The numbers in `t`, depth first and front to back.
pub open spec fn leaves(t: Tree) -> Seq<Value>
    decreases t,
{
    match t {
        Tree::Single(v) => seq![v],
        Tree::Double(inner) => leaves_of(inner),
    }
}

/// The numbers in a row of bubbles, depth first and front to back.
pub open spec fn leaves_of(row: Seq<Tree>) -> Seq<Value>
    decreases row,
{
    if row.len() == 0 {
        Seq::empty()
    } else {
        leaves(row[0]) + leaves_of(row.skip(1))
    }
}

/// The numbers of a row up to and with place `k` are those before it and then
/// those of the bubble at `k`.
pub proof fn lemma_leaves_step(row: Seq<Tree>, k: int)
    requires
        0 <= k < row.len(),
    ensures
        leaves_of(row.take(k + 1)) == leaves_of(row.take(k)) + leaves(row[k]),
    decreases k,
{
    let front = row.take(k + 1);
    if k == 0 {
        assert(front.skip(1) =~= Seq::<Tree>::empty());
        assert(row.take(0) =~= Seq::<Tree>::empty());
        assert(leaves_of(front) =~= leaves(row[0]) + leaves_of(front.skip(1)));
        assert(leaves_of(front) =~= leaves_of(row.take(0)) + leaves(row[0]));
    } else {
        let rest = row.skip(1);
        lemma_leaves_step(rest, k - 1);
        assert(front.skip(1) =~= rest.take(k));
        assert(row.take(k).skip(1) =~= rest.take(k - 1));
        assert(rest[k - 1] == row[k]);
        assert(front[0] == row[0]);
        assert(row.take(k)[0] == row[0]);
        assert(leaves_of(front) =~= leaves_of(row.take(k)) + leaves(row[k]));
    }
}

/// The numbers of a whole row are the numbers of the bubble that holds it.
pub proof fn lemma_leaves_whole(row: Seq<Tree>)
    ensures
        leaves_of(row.take(row.len() as int)) == leaves(Tree::Double(row)),
{
    assert(row.take(row.len() as int) =~= row);
}

/// The bubble that a text of AwaSCII codes becomes: a row of its
/// characters in reading order, or the number zero for the empty text.
pub open spec fn text_bubble(text: Seq<u8>) -> Tree {
    if text.len() == 0 {
        Tree::Single(0)
    } else {
        Tree::Double(Seq::new(text.len(), |i: int| Tree::Single(text[i] as Value)))
    }
}

/// The row of bubbles that holds the numbers `values`, the last of them in
/// front.
pub open spec fn singles(values: Seq<Value>) -> Seq<Tree> {
    Seq::new(values.len(), |i: int| Tree::Single(values[values.len() - 1 - i]))
}

/// How far down `submerge` moves the top bubble of a chain of `len` bubbles.
pub open spec fn depth(len: nat, distance: nat) -> int {
    if distance == 0 || distance >= len {
        len - 1
    } else {
        distance as int
    }
}

/// The chain after its top bubble sank by `distance` places (to the bottom
/// for zero, and never below it).
pub open spec fn submerged(chain: Seq<Tree>, distance: nat) -> Seq<Tree>
    recommends
        chain.len() > 0,
{
    let k = depth(chain.len(), distance);
    chain.subrange(1, k + 1) + seq![chain[0]] + chain.skip(k + 1)
}

/// The chain after its top bubble burst: a row is set free in its place.
pub open spec fn popped(chain: Seq<Tree>) -> Seq<Tree>
    recommends
        chain.len() > 0,
{
    match chain[0] {
        Tree::Single(_) => chain.skip(1),
        Tree::Double(inner) => inner + chain.skip(1),
    }
}

/// The chain after its top `count` bubbles were wrapped into one.
pub open spec fn surrounded(chain: Seq<Tree>, count: nat) -> Seq<Tree>
    recommends
        count <= chain.len(),
{
    if count == 0 {
        chain
    } else {
        seq![Tree::Double(chain.take(count as int))] + chain.skip(count as int)
    }
}

/// The chain after its top two bubbles were joined into one row.
pub open spec fn merged(chain: Seq<Tree>) -> Seq<Tree>
    recommends
        chain.len() >= 2,
{
    seq![Tree::Double(parts(chain[0]) + parts(chain[1]))] + chain.skip(2)
}

/// The chain with the size of its top bubble on top.
pub open spec fn counted(chain: Seq<Tree>) -> Seq<Tree>
    recommends
        chain.len() > 0,
{
    seq![Tree::Single(size(chain[0]) as Value)] + chain
}

/// Both operations may be applied to the numbers `a` and `b` (the second only
/// where `pair` asks for it).
pub open spec fn kernel_pre<F1: Fn(Value, Value) -> Value, F2: Fn(Value, Value) -> Value>(
    op1: F1,
    op2: F2,
    pair: bool,
    a: Value,
    b: Value,
) -> bool {
    call_requires(op1, (a, b)) && (pair ==> call_requires(op2, (a, b)))
}

/// `out` is what the numbers `a` and `b` combine to: one number where `pair`
/// is off, else a row of the two results, that of `op1` in front.
pub open spec fn kernel_post<F1: Fn(Value, Value) -> Value, F2: Fn(Value, Value) -> Value>(
    op1: F1,
    op2: F2,
    pair: bool,
    a: Value,
    b: Value,
    out: Tree,
) -> bool {
    if pair {
        &&& out matches Tree::Double(both)
        &&& both.len() == 2
        &&& both[0] matches Tree::Single(c1)
        &&& both[1] matches Tree::Single(c2)
        &&& call_ensures(op1, (a, b), c1)
        &&& call_ensures(op2, (a, b), c2)
    } else {
        &&& out matches Tree::Single(c)
        &&& call_ensures(op1, (a, b), c)
    }
}

/// The operations may be applied to `v` and every number in `t`, with `v`
/// as the left operand where `left` says so.
pub open spec fn spread_pre<F1: Fn(Value, Value) -> Value, F2: Fn(Value, Value) -> Value>(
    op1: F1,
    op2: F2,
    pair: bool,
    v: Value,
    t: Tree,
    left: bool,
) -> bool
    decreases t,
{
    match t {
        Tree::Single(x) => if left {
            kernel_pre(op1, op2, pair, v, x)
        } else {
            kernel_pre(op1, op2, pair, x, v)
        },
        Tree::Double(inner) => forall|i: int|
            0 <= i < inner.len() ==> spread_pre(op1, op2, pair, v, #[trigger] inner[i], left),
    }
}

/// `out` has the shape of `t`, and in place of every number of `t` what that
/// number and `v` combine to.
pub open spec fn spread_post<F1: Fn(Value, Value) -> Value, F2: Fn(Value, Value) -> Value>(
    op1: F1,
    op2: F2,
    pair: bool,
    v: Value,
    t: Tree,
    left: bool,
    out: Tree,
) -> bool
    decreases t,
{
    match t {
        Tree::Single(x) => if left {
            kernel_post(op1, op2, pair, v, x, out)
        } else {
            kernel_post(op1, op2, pair, x, v, out)
        },
        Tree::Double(inner) => {
            &&& out matches Tree::Double(res)
            &&& res.len() == inner.len()
            &&& forall|i: int|
                0 <= i < inner.len() ==> spread_post(
                    op1,
                    op2,
                    pair,
                    v,
                    #[trigger] inner[i],
                    left,
                    res[i],
                )
        },
    }
}

/// The shorter of two lengths.
pub open spec fn shorter(a: nat, b: nat) -> nat {
    if a <= b {
        a
    } else {
        b
    }
}

/// The operations may be applied wherever combining `l` (on top) with `r`
/// (below it) applies them.
pub open spec fn combine_pre<F1: Fn(Value, Value) -> Value, F2: Fn(Value, Value) -> Value>(
    op1: F1,
    op2: F2,
    pair: bool,
    l: Tree,
    r: Tree,
) -> bool
    decreases l,
{
    match l {
        Tree::Single(a) => spread_pre(op1, op2, pair, a, r, true),
        Tree::Double(ls) => match r {
            Tree::Single(b) => spread_pre(op1, op2, pair, b, l, false),
            Tree::Double(rs) => forall|i: int|
                0 <= i < shorter(ls.len(), rs.len()) ==> combine_pre(
                    op1,
                    op2,
                    pair,
                    #[trigger] ls[i],
                    rs[i],
                ),
        },
    }
}

/// `out` is what `l` (on top) and `r` (below it) combine to. A number is
/// spread over a row, always staying on its own side of the operation; two
/// rows are combined place by place, as far as the shorter one goes.
pub open spec fn combine_post<F1: Fn(Value, Value) -> Value, F2: Fn(Value, Value) -> Value>(
    op1: F1,
    op2: F2,
    pair: bool,
    l: Tree,
    r: Tree,
    out: Tree,
) -> bool
    decreases l,
{
    match l {
        Tree::Single(a) => spread_post(op1, op2, pair, a, r, true, out),
        Tree::Double(ls) => match r {
            Tree::Single(b) => spread_post(op1, op2, pair, b, l, false, out),
            Tree::Double(rs) => {
                &&& out matches Tree::Double(res)
                &&& res.len() == shorter(ls.len(), rs.len())
                &&& forall|i: int|
                    0 <= i < res.len() ==> combine_post(
                        op1,
                        op2,
                        pair,
                        #[trigger] ls[i],
                        rs[i],
                        res[i],
                    )
            },
        },
    }
}

/// `p` holds of `v` and every number in `t`, with `v` on the left where
/// `left` says so.
pub open spec fn spread_holds(p: spec_fn(Value, Value) -> bool, v: Value, t: Tree, left: bool) -> bool
    decreases t,
{
    match t {
        Tree::Single(x) => if left {
            p(v, x)
        } else {
            p(x, v)
        },
        Tree::Double(inner) => forall|i: int|
            0 <= i < inner.len() ==> spread_holds(p, v, #[trigger] inner[i], left),
    }
}

/// `p` holds of every two numbers that combining `l` (on top) with `r`
/// (below it) brings together.
pub open spec fn combine_holds(p: spec_fn(Value, Value) -> bool, l: Tree, r: Tree) -> bool
    decreases l,
{
    match l {
        Tree::Single(a) => spread_holds(p, a, r, true),
        Tree::Double(ls) => match r {
            Tree::Single(b) => spread_holds(p, b, l, false),
            Tree::Double(rs) => forall|i: int|
                0 <= i < shorter(ls.len(), rs.len()) ==> combine_holds(p, #[trigger] ls[i], rs[i]),
        },
    }
}

/// The division of `a` by `b` has a result that is a `Value`.
pub open spec fn divides(a: Value, b: Value) -> bool {
    b != 0 && !(a == isize::MIN && b == -1)
}

/// A bubble as text: a number in decimal digits, a row in square brackets
/// with `, ` between its bubbles.
pub open spec fn shown(t: Tree) -> Seq<u8>
    decreases t,
{
    match t {
        Tree::Single(v) => decimal_of(v as int),
        Tree::Double(inner) => seq![91u8] + shown_row(inner) + seq![93u8],
    }
}

/// The bubbles of a row as text, with `, ` between them.
pub open spec fn shown_row(row: Seq<Tree>) -> Seq<u8>
    decreases row,
{
    if row.len() == 0 {
        Seq::empty()
    } else if row.len() == 1 {
        shown(row[0])
    } else {
        shown_row(row.drop_last()) + seq![44u8, 32u8] + shown(row.last())
    }
}

/// A chain as text: every bubble on a line of its own, the top one first.
pub open spec fn shown_chain(chain: Seq<Tree>) -> Seq<u8>
    decreases chain.len(),
{
    if chain.len() == 0 {
        Seq::empty()
    } else {
        shown_chain(chain.drop_last()) + shown(chain.last()) + seq![10u8]
    }
}

/// The text of a joined chain is the joined text of its parts.
pub proof fn lemma_shown_join(a: Seq<Tree>, b: Seq<Tree>)
    ensures
        shown_chain(a + b) == shown_chain(a) + shown_chain(b),
    decreases b.len(),
{
    if b.len() == 0 {
        assert(a + b =~= a);
        assert(shown_chain(a) + shown_chain(b) =~= shown_chain(a));
    } else {
        lemma_shown_join(a, b.drop_last());
        assert((a + b).drop_last() =~= a + b.drop_last());
        assert((a + b).last() == b.last());
        assert(shown_chain(a + b) =~= shown_chain(a) + shown_chain(b));
    }
}

/// `fun` may take the value without an error.
pub open spec fn accepted<T, E, F: Fn(Value) -> Result<T, E>>(fun: F, value: Value) -> bool {
    exists|t: T| call_ensures(fun, (value,), Ok::<T, E>(t))
}

/// `fun` took each of the first `upto` values without an error.
pub open spec fn taken<T, E, F: Fn(Value) -> Result<T, E>>(
    fun: F,
    values: Seq<Value>,
    upto: int,
) -> bool {
    forall|j: int| 0 <= j < upto ==> accepted::<T, E, F>(fun, #[trigger] values[j])
}

/// A store of bubbles: a chain with its top in front.
pub trait Abyss: Sized {
    /// The store is in order.
    spec fn inv(&self) -> bool;

    /// The chain of bubbles, the top one first.
    spec fn view(&self) -> Seq<Tree>;

    fn is_empty(&self) -> (r: bool)
        requires
            self.inv(),
        ensures
            r == (self.view().len() == 0),
    ;

    /// Puts the text on top as one bubble.
    fn blow_awascii(&mut self, awascii: &[AwaSCII]) -> (r: Option<()>)
        requires
            old(self).inv(),
        ensures
            final(self).inv(),
            r is Some,
            final(self).view() == seq![text_bubble(codes(awascii@))] + old(self).view(),
    ;

    /// Puts a number on top.
    fn blow(&mut self, value: Value) -> (r: Option<()>)
        requires
            old(self).inv(),
        ensures
            final(self).inv(),
            r is Some,
            final(self).view() == seq![Tree::Single(value)] + old(self).view(),
    ;

    /// Moves the top bubble down by `distance` places, to the bottom for zero.
    /// `None`, and nothing changed, where there is no bubble.
    fn submerge(&mut self, distance: usize) -> (r: Option<()>)
        requires
            old(self).inv(),
        ensures
            final(self).inv(),
            old(self).view().len() == 0 ==> r is None && final(self).view() == old(self).view(),
            old(self).view().len() > 0 ==> r is Some && final(self).view() == submerged(
                old(self).view(),
                distance as nat,
            ),
    ;

    /// Bursts the top bubble; what a row held takes its place.
    /// `None`, and nothing changed, where there is no bubble.
    fn pop(&mut self) -> (r: Option<()>)
        requires
            old(self).inv(),
        ensures
            final(self).inv(),
            old(self).view().len() == 0 ==> r is None && final(self).view() == old(self).view(),
            old(self).view().len() > 0 ==> r is Some && final(self).view() == popped(
                old(self).view(),
            ),
    ;

    /// Removes the top bubble with all that it holds.
    /// `None`, and nothing changed, where there is no bubble.
    fn double_pop(&mut self) -> (r: Option<()>)
        requires
            old(self).inv(),
        ensures
            final(self).inv(),
            old(self).view().len() == 0 ==> r is None && final(self).view() == old(self).view(),
            old(self).view().len() > 0 ==> r is Some && final(self).view() == old(self).view().skip(1),
    ;

    /// Puts a copy of the top bubble on top.
    /// `None`, and nothing changed, where there is no bubble.
    fn duplicate(&mut self) -> (r: Option<()>)
        requires
            old(self).inv(),
        ensures
            final(self).inv(),
            old(self).view().len() == 0 ==> r is None && final(self).view() == old(self).view(),
            old(self).view().len() > 0 ==> r is Some && final(self).view() == seq![
                old(self).view()[0],
            ] + old(self).view(),
    ;

    /// Wraps the top `count` bubbles into one; nothing for zero.
    /// `None`, and nothing changed, where there are fewer bubbles.
    fn surround(&mut self, count: usize) -> (r: Option<()>)
        requires
            old(self).inv(),
        ensures
            final(self).inv(),
            count > old(self).view().len() ==> r is None && final(self).view() == old(self).view(),
            count <= old(self).view().len() ==> r is Some && final(self).view() == surrounded(
                old(self).view(),
                count as nat,
            ),
    ;

    /// Joins the top two bubbles into one row.
    /// `None`, and nothing changed, where there are fewer than two.
    fn merge(&mut self) -> (r: Option<()>)
        requires
            old(self).inv(),
        ensures
            final(self).inv(),
            old(self).view().len() < 2 ==> r is None && final(self).view() == old(self).view(),
            old(self).view().len() >= 2 ==> r is Some && final(self).view() == merged(
                old(self).view(),
            ),
    ;

    /// Puts the size of the top bubble on top (zero for a number).
    /// `None`, and nothing changed, where there is no bubble or the size is
    /// no `Value`.
    fn count(&mut self) -> (r: Option<()>)
        requires
            old(self).inv(),
        ensures
            final(self).inv(),
            r is Some <==> old(self).view().len() > 0 && size(old(self).view()[0])
                <= isize::MAX,
            r is Some ==> final(self).view() == counted(old(self).view()),
            r is None ==> final(self).view() == old(self).view(),
    ;

    /// Combines the top two bubbles into one, number by number.
    /// `None`, and nothing changed, where there are fewer than two.
    fn combine_single<F: Fn(Value, Value) -> Value>(&mut self, op: F) -> (r: Option<()>)
        requires
            old(self).inv(),
            old(self).view().len() >= 2 ==> combine_pre(
                op,
                op,
                false,
                old(self).view()[0],
                old(self).view()[1],
            ),
        ensures
            final(self).inv(),
            old(self).view().len() < 2 ==> r is None && final(self).view() == old(self).view(),
            old(self).view().len() >= 2 ==> {
                &&& r is Some
                &&& final(self).view().len() == old(self).view().len() - 1
                &&& combine_post(
                    op,
                    op,
                    false,
                    old(self).view()[0],
                    old(self).view()[1],
                    final(self).view()[0],
                )
                &&& final(self).view().skip(1) == old(self).view().skip(2)
            },
    ;

    /// Combines the top two bubbles into one; every pair of numbers becomes
    /// a row of two results, that of `op1` in front.
    /// `None`, and nothing changed, where there are fewer than two.
    fn combine_double<F1: Fn(Value, Value) -> Value, F2: Fn(Value, Value) -> Value>(
        &mut self,
        op1: F1,
        op2: F2,
    ) -> (r: Option<()>)
        requires
            old(self).inv(),
            old(self).view().len() >= 2 ==> combine_pre(
                op1,
                op2,
                true,
                old(self).view()[0],
                old(self).view()[1],
            ),
        ensures
            final(self).inv(),
            old(self).view().len() < 2 ==> r is None && final(self).view() == old(self).view(),
            old(self).view().len() >= 2 ==> {
                &&& r is Some
                &&& final(self).view().len() == old(self).view().len() - 1
                &&& combine_post(
                    op1,
                    op2,
                    true,
                    old(self).view()[0],
                    old(self).view()[1],
                    final(self).view()[0],
                )
                &&& final(self).view().skip(1) == old(self).view().skip(2)
            },
    ;

    /// Whether every division that `Divide` would make of the top two bubbles
    /// has a result. `None` where there are fewer than two.
    fn can_divide(&mut self) -> (r: Option<bool>)
        requires
            old(self).inv(),
        ensures
            final(self).inv(),
            final(self).view() == old(self).view(),
            old(self).view().len() < 2 ==> r is None,
            old(self).view().len() >= 2 ==> r == Some(
                combine_holds(
                    |a: Value, b: Value| divides(a, b),
                    old(self).view()[0],
                    old(self).view()[1],
                ),
            ),
    ;

    /// Compares the top two bubbles and leaves them where they are. Two
    /// numbers are put to the test, the top one first; anything else fails it.
    /// `None` where there are fewer than two.
    fn test<F: Fn(&Value, &Value) -> bool>(&mut self, test: F) -> (r: Option<bool>)
        requires
            old(self).inv(),
            forall|a: Value, b: Value|
                old(self).view().len() >= 2 && old(self).view()[0] == Tree::Single(a)
                    && old(self).view()[1] == Tree::Single(b) ==> call_requires(test, (&a, &b)),
        ensures
            final(self).inv(),
            final(self).view() == old(self).view(),
            old(self).view().len() < 2 ==> r is None,
            old(self).view().len() >= 2 ==> r is Some && match (
                old(self).view()[0],
                old(self).view()[1],
            ) {
                (Tree::Single(a), Tree::Single(b)) => call_ensures(test, (&a, &b), r->0),
                _ => r->0 == false,
            },
    ;

    /// The chain as text.
    fn render(&self) -> (r: Vec<u8>)
        requires
            self.inv(),
        ensures
            r@ == shown_chain(self.view()),
    ;

    /// Hands every number of the top bubble to `fun`, depth first and front to
    /// back, and removes the bubble once all were taken. The first error ends
    /// it, and the bubble stays. `Ok(None)` where there is no bubble.
    fn consume<T, E, F: Fn(Value) -> Result<T, E>>(&mut self, fun: F) -> (r: Result<
        Option<Vec<T>>,
        E,
    >)
        requires
            old(self).inv(),
            forall|v: Value| call_requires(fun, (v,)),
        ensures
            final(self).inv(),
            old(self).view().len() == 0 ==> r == Ok::<Option<Vec<T>>, E>(None)
                && final(self).view() == old(self).view(),
            old(self).view().len() > 0 ==> match r {
                Ok(Some(out)) => {
                    &&& final(self).view() == old(self).view().skip(1)
                    &&& out@.len() == leaves(old(self).view()[0]).len()
                    &&& forall|i: int|
                        0 <= i < out@.len() ==> call_ensures(
                            fun,
                            (#[trigger] leaves(old(self).view()[0])[i],),
                            Ok::<T, E>(out@[i]),
                        )
                },
                Ok(None) => false,
                Err(e) => {
                    &&& final(self).view() == old(self).view()
                    &&& exists|i: int|
                        0 <= i < leaves(old(self).view()[0]).len() && taken(
                            fun,
                            leaves(old(self).view()[0]),
                            i,
                        ) && call_ensures(
                            fun,
                            (#[trigger] leaves(old(self).view()[0])[i],),
                            Err::<T, E>(e),
                        )
                },
            },
    ;

    /// Puts the numbers on top one after the other, so that the last of them
    /// comes to lie on top.
    fn blow_many(&mut self, values: &[Value]) -> (r: Option<()>)
        requires
            old(self).inv(),
        ensures
            final(self).inv(),
            r is Some,
            final(self).view() == singles(values@) + old(self).view(),
    {
        let mut i: usize = 0;
        proof {
            assert(singles(values@.take(0)) + old(self).view() =~= old(self).view());
        }
        while i < values.len()
            invariant
                0 <= i <= values@.len(),
                self.inv(),
                self.view() == singles(values@.take(i as int)) + old(self).view(),
            decreases values@.len() - i,
        {
            self.blow(values[i]);
            proof {
                let now = values@.take(i + 1);
                let was = values@.take(i as int);
                assert(singles(now) =~= seq![Tree::Single(values@[i as int])] + singles(was));
                assert(self.view() =~= singles(now) + old(self).view());
            }
            i = i + 1;
        }
        proof {
            assert(values@.take(values@.len() as int) =~= values@);
        }
        Some(())
    }

    /// Puts the numbers on top as one bubble, the last of them in front;
    /// nothing for no numbers.
    fn blow_double(&mut self, inner: &[Value]) -> (r: Option<()>)
        requires
            old(self).inv(),
        ensures
            final(self).inv(),
            r is Some,
            final(self).view() == surrounded(singles(inner@) + old(self).view(), inner@.len()),
    {
        self.blow_many(inner);
        self.surround(inner.len())
    }

    /// Moves the top bubble down once for each of the distances, in turn.
    /// The first failure ends it, with `None`.
    fn submerge_many(&mut self, distances: &[usize]) -> (r: Option<()>)
        requires
            old(self).inv(),
        ensures
            final(self).inv(),
            (final(self).view(), r is Some) == each(Batched::Submerge, distances@, old(self).view()),
    {
        let mut i: usize = 0;
        proof {
            assert(distances@.skip(0) =~= distances@);
        }
        while i < distances.len()
            invariant
                0 <= i <= distances@.len(),
                self.inv(),
                each(Batched::Submerge, distances@, old(self).view()) == each(
                    Batched::Submerge,
                    distances@.skip(i as int),
                    self.view(),
                ),
            decreases distances@.len() - i,
        {
            proof {
                assert(distances@.skip(i as int)[0] == distances@[i as int]);
                assert(distances@.skip(i as int).skip(1) =~= distances@.skip(i + 1));
            }
            match self.submerge(distances[i]) {
                Some(_) => {},
                None => {
                    return None;
                },
            }
            i = i + 1;
        }
        Some(())
    }

    /// Bursts the top bubble `count` times over. The first failure ends it,
    /// with `None`.
    fn pop_many(&mut self, count: usize) -> (r: Option<()>)
        requires
            old(self).inv(),
        ensures
            final(self).inv(),
            (final(self).view(), r is Some) == repeated(Batched::Pop, count as nat, old(self).view()),
    {
        let mut i: usize = 0;
        while i < count
            invariant
                0 <= i <= count,
                self.inv(),
                repeated(Batched::Pop, count as nat, old(self).view()) == repeated(
                    Batched::Pop,
                    (count - i) as nat,
                    self.view(),
                ),
            decreases count - i,
        {
            match self.pop() {
                Some(_) => {},
                None => {
                    return None;
                },
            }
            i = i + 1;
        }
        Some(())
    }

    /// Removes the top bubble `count` times over. The first failure ends it,
    /// with `None`.
    fn double_pop_many(&mut self, count: usize) -> (r: Option<()>)
        requires
            old(self).inv(),
        ensures
            final(self).inv(),
            (final(self).view(), r is Some) == repeated(
                Batched::DoublePop,
                count as nat,
                old(self).view(),
            ),
    {
        let mut i: usize = 0;
        while i < count
            invariant
                0 <= i <= count,
                self.inv(),
                repeated(Batched::DoublePop, count as nat, old(self).view()) == repeated(
                    Batched::DoublePop,
                    (count - i) as nat,
                    self.view(),
                ),
            decreases count - i,
        {
            match self.double_pop() {
                Some(_) => {},
                None => {
                    return None;
                },
            }
            i = i + 1;
        }
        Some(())
    }

    /// Puts `count` copies of the top bubble on top. The first failure ends
    /// it, with `None`.
    fn duplicate_many(&mut self, count: usize) -> (r: Option<()>)
        requires
            old(self).inv(),
        ensures
            final(self).inv(),
            (final(self).view(), r is Some) == repeated(
                Batched::Duplicate,
                count as nat,
                old(self).view(),
            ),
    {
        let mut i: usize = 0;
        while i < count
            invariant
                0 <= i <= count,
                self.inv(),
                repeated(Batched::Duplicate, count as nat, old(self).view()) == repeated(
                    Batched::Duplicate,
                    (count - i) as nat,
                    self.view(),
                ),
            decreases count - i,
        {
            match self.duplicate() {
                Some(_) => {},
                None => {
                    return None;
                },
            }
            i = i + 1;
        }
        Some(())
    }

    /// Wraps the top bubbles once for each of the counts, in turn. The first
    /// failure ends it, with `None`.
    fn surround_many(&mut self, counts: &[usize]) -> (r: Option<()>)
        requires
            old(self).inv(),
        ensures
            final(self).inv(),
            (final(self).view(), r is Some) == each(Batched::Surround, counts@, old(self).view()),
    {
        let mut i: usize = 0;
        proof {
            assert(counts@.skip(0) =~= counts@);
        }
        while i < counts.len()
            invariant
                0 <= i <= counts@.len(),
                self.inv(),
                each(Batched::Surround, counts@, old(self).view()) == each(
                    Batched::Surround,
                    counts@.skip(i as int),
                    self.view(),
                ),
            decreases counts@.len() - i,
        {
            proof {
                assert(counts@.skip(i as int)[0] == counts@[i as int]);
                assert(counts@.skip(i as int).skip(1) =~= counts@.skip(i + 1));
            }
            match self.surround(counts[i]) {
                Some(_) => {},
                None => {
                    return None;
                },
            }
            i = i + 1;
        }
        Some(())
    }

    /// Joins the top two bubbles `count` times over. The first failure ends
    /// it, with `None`.
    fn merge_many(&mut self, count: usize) -> (r: Option<()>)
        requires
            old(self).inv(),
        ensures
            final(self).inv(),
            (final(self).view(), r is Some) == repeated(Batched::Merge, count as nat, old(self).view()),
    {
        let mut i: usize = 0;
        while i < count
            invariant
                0 <= i <= count,
                self.inv(),
                repeated(Batched::Merge, count as nat, old(self).view()) == repeated(
                    Batched::Merge,
                    (count - i) as nat,
                    self.view(),
                ),
            decreases count - i,
        {
            match self.merge() {
                Some(_) => {},
                None => {
                    return None;
                },
            }
            i = i + 1;
        }
        Some(())
    }
}

} // verus!
