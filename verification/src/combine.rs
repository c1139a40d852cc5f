//! What follows from the rules by which two bubbles are combined.
use crate::abyss::{
    combine_post, combine_pre, kernel_post, kernel_pre, shorter, spread_post, spread_pre, Tree,
    Value,
};
use vstd::prelude::*;

verus! {

/// What may be spread over a row may be spread over each of its bubbles.
pub proof fn lemma_spread_pre_inner<F1: Fn(Value, Value) -> Value, F2: Fn(Value, Value) -> Value>(
    op1: F1,
    op2: F2,
    pair: bool,
    v: Value,
    inner: Seq<Tree>,
    left: bool,
    i: int,
)
    requires
        spread_pre(op1, op2, pair, v, Tree::Double(inner), left),
        0 <= i < inner.len(),
    ensures
        spread_pre(op1, op2, pair, v, inner[i], left),
{
    let t = Tree::Double(inner);
    assert(spread_pre(op1, op2, pair, v, t, left));
    assert(t matches Tree::Double(x) && x == inner);
    assert(forall|j: int|
        0 <= j < inner.len() ==> spread_pre(op1, op2, pair, v, #[trigger] inner[j], left));
}

/// What may be combined of two rows may be combined of their bubbles, place
/// by place.
pub proof fn lemma_combine_pre_inner<F1: Fn(Value, Value) -> Value, F2: Fn(Value, Value) -> Value>(
    op1: F1,
    op2: F2,
    pair: bool,
    ls: Seq<Tree>,
    rs: Seq<Tree>,
    i: int,
)
    requires
        combine_pre(op1, op2, pair, Tree::Double(ls), Tree::Double(rs)),
        0 <= i < shorter(ls.len(), rs.len()),
    ensures
        combine_pre(op1, op2, pair, ls[i], rs[i]),
{
    let l = Tree::Double(ls);
    let r = Tree::Double(rs);
    assert(combine_pre(op1, op2, pair, l, r));
    assert(l matches Tree::Double(x) && x == ls);
    assert(r matches Tree::Double(x) && x == rs);
    assert(forall|j: int|
        0 <= j < shorter(ls.len(), rs.len()) ==> combine_pre(op1, op2, pair, #[trigger] ls[j], rs[j]));
}

/// Two rows combine to the row of what their bubbles combine to, place by
/// place.
pub proof fn lemma_combine_post_rows<F1: Fn(Value, Value) -> Value, F2: Fn(Value, Value) -> Value>(
    op1: F1,
    op2: F2,
    pair: bool,
    ls: Seq<Tree>,
    rs: Seq<Tree>,
    res: Seq<Tree>,
)
    requires
        res.len() == shorter(ls.len(), rs.len()),
        forall|i: int|
            0 <= i < res.len() ==> combine_post(op1, op2, pair, #[trigger] ls[i], rs[i], res[i]),
    ensures
        combine_post(op1, op2, pair, Tree::Double(ls), Tree::Double(rs), Tree::Double(res)),
{
    let l = Tree::Double(ls);
    let r = Tree::Double(rs);
    let out = Tree::Double(res);
    assert(l matches Tree::Double(x) && x == ls);
    assert(r matches Tree::Double(x) && x == rs);
    assert(out matches Tree::Double(x) && x == res);
}

/// `op` returns what `f` says, whatever it is applied to.
pub open spec fn computes<F: Fn(Value, Value) -> Value>(
    op: F,
    f: spec_fn(Value, Value) -> Value,
) -> bool {
    forall|a: Value, b: Value, c: Value| #[trigger] call_ensures(op, (a, b), c) ==> c == f(a, b)
}

/// What the numbers `a` and `b` combine to under `f1` (and `f2`, where `pair`
/// asks for both).
pub open spec fn kernel_fn(
    f1: spec_fn(Value, Value) -> Value,
    f2: spec_fn(Value, Value) -> Value,
    pair: bool,
    a: Value,
    b: Value,
) -> Tree {
    if pair {
        Tree::Double(seq![Tree::Single(f1(a, b)), Tree::Single(f2(a, b))])
    } else {
        Tree::Single(f1(a, b))
    }
}

/// The bubble `t` with every number of it combined with `v`.
pub open spec fn spread_fn(
    f1: spec_fn(Value, Value) -> Value,
    f2: spec_fn(Value, Value) -> Value,
    pair: bool,
    v: Value,
    t: Tree,
    left: bool,
) -> Tree
    decreases t,
{
    match t {
        Tree::Single(x) => if left {
            kernel_fn(f1, f2, pair, v, x)
        } else {
            kernel_fn(f1, f2, pair, x, v)
        },
        Tree::Double(inner) => Tree::Double(
            Seq::new(
                inner.len(),
                |i: int|
                    if 0 <= i < inner.len() {
                        spread_fn(f1, f2, pair, v, inner[i], left)
                    } else {
                        t
                    },
            ),
        ),
    }
}

/// What `l` (on top) and `r` (below it) combine to.
pub open spec fn combine_fn(
    f1: spec_fn(Value, Value) -> Value,
    f2: spec_fn(Value, Value) -> Value,
    pair: bool,
    l: Tree,
    r: Tree,
) -> Tree
    decreases l,
{
    match l {
        Tree::Single(a) => spread_fn(f1, f2, pair, a, r, true),
        Tree::Double(ls) => match r {
            Tree::Single(b) => spread_fn(f1, f2, pair, b, l, false),
            Tree::Double(rs) => Tree::Double(
                Seq::new(
                    shorter(ls.len(), rs.len()),
                    |i: int|
                        if 0 <= i < shorter(ls.len(), rs.len()) {
                            combine_fn(f1, f2, pair, ls[i], rs[i])
                        } else {
                            l
                        },
                ),
            ),
        },
    }
}

/// Operations that return what `f1` and `f2` say spread a number over a
/// bubble as `spread_fn` says.
pub proof fn lemma_spread_fn<F1: Fn(Value, Value) -> Value, F2: Fn(Value, Value) -> Value>(
    op1: F1,
    op2: F2,
    f1: spec_fn(Value, Value) -> Value,
    f2: spec_fn(Value, Value) -> Value,
    pair: bool,
    v: Value,
    t: Tree,
    left: bool,
    out: Tree,
)
    requires
        computes(op1, f1),
        pair ==> computes(op2, f2),
        spread_post(op1, op2, pair, v, t, left, out),
    ensures
        out == spread_fn(f1, f2, pair, v, t, left),
    decreases t,
{
    match t {
        Tree::Single(x) => {
            let a = if left {
                v
            } else {
                x
            };
            let b = if left {
                x
            } else {
                v
            };
            assert(kernel_post(op1, op2, pair, a, b, out));
            if pair {
                let both = out->Double_0;
                assert(both =~= seq![Tree::Single(f1(a, b)), Tree::Single(f2(a, b))]);
            }
        },
        Tree::Double(inner) => {
            assert(t matches Tree::Double(x) && x == inner);
            let res = out->Double_0;
            let want = spread_fn(f1, f2, pair, v, t, left)->Double_0;
            assert(want.len() == inner.len());
            assert forall|i: int| 0 <= i < inner.len() implies res[i] == want[i] by {
                assert(spread_post(op1, op2, pair, v, inner[i], left, res[i]));
                lemma_spread_fn(op1, op2, f1, f2, pair, v, inner[i], left, res[i]);
            }
            assert(res =~= want);
        },
    }
}

/// Operations that return what `f1` and `f2` say combine two bubbles as
/// `combine_fn` says.
pub proof fn lemma_combine_fn<F1: Fn(Value, Value) -> Value, F2: Fn(Value, Value) -> Value>(
    op1: F1,
    op2: F2,
    f1: spec_fn(Value, Value) -> Value,
    f2: spec_fn(Value, Value) -> Value,
    pair: bool,
    l: Tree,
    r: Tree,
    out: Tree,
)
    requires
        computes(op1, f1),
        pair ==> computes(op2, f2),
        combine_post(op1, op2, pair, l, r, out),
    ensures
        out == combine_fn(f1, f2, pair, l, r),
    decreases l,
{
    match l {
        Tree::Single(a) => {
            lemma_spread_fn(op1, op2, f1, f2, pair, a, r, true, out);
        },
        Tree::Double(ls) => {
            assert(l matches Tree::Double(x) && x == ls);
            match r {
                Tree::Single(b) => {
                    lemma_spread_fn(op1, op2, f1, f2, pair, b, l, false, out);
                },
                Tree::Double(rs) => {
                    assert(r matches Tree::Double(x) && x == rs);
                    let res = out->Double_0;
                    let want = combine_fn(f1, f2, pair, l, r)->Double_0;
                    assert(want.len() == shorter(ls.len(), rs.len()));
                    assert forall|i: int| 0 <= i < res.len() implies res[i] == want[i] by {
                        assert(combine_post(op1, op2, pair, ls[i], rs[i], res[i]));
                        lemma_combine_fn(op1, op2, f1, f2, pair, ls[i], rs[i], res[i]);
                    }
                    assert(res =~= want);
                },
            }
        },
    }
}

/// Operations that may be applied to any two numbers may be spread over
/// any bubble.
pub proof fn lemma_spread_total<F1: Fn(Value, Value) -> Value, F2: Fn(Value, Value) -> Value>(
    op1: F1,
    op2: F2,
    pair: bool,
    v: Value,
    t: Tree,
    left: bool,
)
    requires
        forall|a: Value, b: Value| kernel_pre(op1, op2, pair, a, b),
    ensures
        spread_pre(op1, op2, pair, v, t, left),
    decreases t,
{
    match t {
        Tree::Single(x) => {},
        Tree::Double(inner) => {
            assert(t matches Tree::Double(x) && x == inner);
            assert forall|i: int| 0 <= i < inner.len() implies spread_pre(
                op1,
                op2,
                pair,
                v,
                #[trigger] inner[i],
                left,
            ) by {
                lemma_spread_total(op1, op2, pair, v, inner[i], left);
            }
        },
    }
}

/// Operations that may be applied to any two numbers may combine any two
/// bubbles.
pub proof fn lemma_combine_total<F1: Fn(Value, Value) -> Value, F2: Fn(Value, Value) -> Value>(
    op1: F1,
    op2: F2,
    pair: bool,
    l: Tree,
    r: Tree,
)
    requires
        forall|a: Value, b: Value| kernel_pre(op1, op2, pair, a, b),
    ensures
        combine_pre(op1, op2, pair, l, r),
    decreases l,
{
    match l {
        Tree::Single(a) => {
            lemma_spread_total(op1, op2, pair, a, r, true);
        },
        Tree::Double(ls) => {
            assert(l matches Tree::Double(x) && x == ls);
            match r {
                Tree::Single(b) => {
                    lemma_spread_total(op1, op2, pair, b, l, false);
                },
                Tree::Double(rs) => {
                    assert(r matches Tree::Double(x) && x == rs);
                    assert forall|i: int| 0 <= i < shorter(ls.len(), rs.len()) implies combine_pre(
                        op1,
                        op2,
                        pair,
                        #[trigger] ls[i],
                        rs[i],
                    ) by {
                        lemma_combine_total(op1, op2, pair, ls[i], rs[i]);
                    }
                },
            }
        },
    }
}

/// Operations that may be applied to any two numbers may combine the top
/// two bubbles of any chain.
pub proof fn lemma_total<F1: Fn(Value, Value) -> Value, F2: Fn(Value, Value) -> Value>(
    op1: F1,
    op2: F2,
    pair: bool,
    chain: Seq<Tree>,
)
    requires
        forall|a: Value, b: Value| call_requires(op1, (a, b)),
        forall|a: Value, b: Value| call_requires(op2, (a, b)),
    ensures
        chain.len() >= 2 ==> combine_pre(op1, op2, pair, chain[0], chain[1]),
{
    if chain.len() >= 2 {
        lemma_combine_total(op1, op2, pair, chain[0], chain[1]);
    }
}

} // verus!
