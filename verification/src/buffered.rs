//! A store of bubbles that keeps the bubbles on top in a plain vector until
//! an instruction needs them in the store behind it.
use crate::abyss::Abyss;
use crate::abyss::{
    accepted, counted, depth, leaves, leaves_of, lemma_shown_join, merged, parts, popped, shown,
    shown_chain, shown_row, singles, submerged, surrounded, taken, text_bubble, Tree, Value,
};
use crate::awascii::{codes, AwaSCII};
use crate::batch::{lemma_repeated_copies, lemma_repeated_gone, lemma_repeated_sum, once, Batched};
use crate::text::push_decimal;
use vstd::prelude::*;

verus! {

/// What the buffer holds.
#[derive(Debug, Clone, Copy, PartialEq, Eq, Hash, Structural)]
pub enum BufferKind {
    /// Nothing.
    Empty,
    /// Numbers, each a bubble of its own, the last of them on top.
    Singles,
    /// The numbers of one bubble, the last of them in front.
    Double,
}

/// The bubbles on top of the store, as plain numbers.
#[derive(Debug, Clone)]
pub struct Buffer {
    pub data: Vec<Value>,
    pub kind: BufferKind,
}

/// The bubbles that a buffer stands for, the top one first.
pub open spec fn buffered(kind: BufferKind, data: Seq<Value>) -> Seq<Tree> {
    match kind {
        BufferKind::Empty => Seq::empty(),
        BufferKind::Singles => singles(data),
        BufferKind::Double => seq![Tree::Double(singles(data))],
    }
}

/// The numbers of a row of plain numbers are those numbers, the last first.
pub proof fn lemma_leaves_singles(data: Seq<Value>)
    ensures
        leaves_of(singles(data)) == Seq::new(data.len(), |i: int| data[data.len() - 1 - i]),
    decreases data.len(),
{
    let row = singles(data);
    let turned = Seq::new(data.len(), |i: int| data[data.len() - 1 - i]);
    if data.len() == 0 {
        assert(leaves_of(row) =~= turned);
    } else {
        let rest = data.drop_last();
        lemma_leaves_singles(rest);
        assert(row.skip(1) =~= singles(rest));
        assert(row[0] == Tree::Single(data.last()));
        assert(leaves_of(row) =~= leaves(row[0]) + leaves_of(row.skip(1)));
        assert(leaves_of(row) =~= turned);
    }
}

impl Buffer {
    /// The buffer is empty exactly where it says so.
    pub open spec fn wf(&self) -> bool {
        (self.kind == BufferKind::Empty) <==> self.data@.len() == 0
    }

    /// The bubbles that the buffer stands for, the top one first.
    pub open spec fn view(&self) -> Seq<Tree> {
        buffered(self.kind, self.data@)
    }

    /// An empty buffer.
    pub fn new() -> (r: Self)
        ensures
            r.wf(),
            r.kind == BufferKind::Empty,
            r.data@ == Seq::<Value>::empty(),
    {
        Buffer { data: Vec::new(), kind: BufferKind::Empty }
    }

    /// An empty buffer with room for `capacity` numbers.
    pub fn with_capacity(capacity: usize) -> (r: Self)
        ensures
            r.wf(),
            r.kind == BufferKind::Empty,
            r.data@ == Seq::<Value>::empty(),
    {
        Buffer { data: Vec::with_capacity(capacity), kind: BufferKind::Empty }
    }

    /// Bursts the top bubble of the buffer: a number goes (and is handed
    /// out), a row sets its numbers free. `None` where the buffer is empty.
    pub fn pop(&mut self) -> (r: Option<Option<Value>>)
        requires
            old(self).wf(),
        ensures
            final(self).wf(),
            old(self).kind == BufferKind::Empty ==> r is None && *final(self) == *old(self),
            old(self).kind == BufferKind::Singles ==> r == Some(Some(old(self).data@.last()))
                && final(self).data@ == old(self).data@.drop_last()
                && final(self).view() == old(self).view().skip(1),
            old(self).kind == BufferKind::Double ==> r == Some(None::<Value>) && final(self).kind
                == BufferKind::Singles && final(self).data@ == old(self).data@ && final(self).view()
                == singles(old(self).data@),
    {
        match self.kind {
            BufferKind::Empty => None,
            BufferKind::Singles => match self.data.pop() {
                Some(value) => {
                    if self.data.len() == 0 {
                        self.kind = BufferKind::Empty;
                    }
                    proof {
                        assert(self.view() =~= old(self).view().skip(1));
                    }
                    Some(Some(value))
                },
                None => None,
            },
            BufferKind::Double => {
                self.kind = BufferKind::Singles;
                Some(None)
            },
        }
    }

    /// Removes the top bubble of the buffer with all that it holds. `None`
    /// where the buffer is empty.
    pub fn double_pop(&mut self) -> (r: Option<Option<Value>>)
        requires
            old(self).wf(),
        ensures
            final(self).wf(),
            old(self).kind == BufferKind::Empty ==> r is None && *final(self) == *old(self),
            old(self).kind == BufferKind::Singles ==> r == Some(Some(old(self).data@.last()))
                && final(self).data@ == old(self).data@.drop_last(),
            old(self).kind == BufferKind::Double ==> r == Some(None::<Value>) && final(self).kind
                == BufferKind::Empty,
            old(self).kind != BufferKind::Empty ==> final(self).view() == old(self).view().skip(1),
    {
        match self.kind {
            BufferKind::Empty => None,
            BufferKind::Singles => match self.data.pop() {
                Some(value) => {
                    if self.data.len() == 0 {
                        self.kind = BufferKind::Empty;
                    }
                    proof {
                        assert(self.view() =~= old(self).view().skip(1));
                    }
                    Some(Some(value))
                },
                None => None,
            },
            BufferKind::Double => {
                self.clear();
                proof {
                    assert(self.view() =~= old(self).view().skip(1));
                }
                Some(None)
            },
        }
    }

    /// Empties the buffer.
    pub fn clear(&mut self)
        ensures
            final(self).wf(),
            final(self).kind == BufferKind::Empty,
            final(self).data@ == Seq::<Value>::empty(),
    {
        self.data.clear();
        self.kind = BufferKind::Empty;
    }
}

impl Default for Buffer {
    fn default() -> (r: Self)
        ensures
            r.wf(),
            r.kind == BufferKind::Empty,
            r.data@ == Seq::<Value>::empty(),
    {
        Buffer::new()
    }
}

/// A store of bubbles with a buffer on top of it.
pub struct Buffered<A: Abyss> {
    pub inner: A,
    pub buffer: Buffer,
}

impl<A: Abyss> Buffered<A> {
    /// The store `inner` behind an empty buffer.
    pub fn from_inner(inner: A) -> (r: Self)
        requires
            inner.inv(),
        ensures
            r.inv(),
            r.view() == inner.view(),
            r.inner == inner,
    {
        let r = Buffered { inner, buffer: Buffer::new() };
        assert(r.view() =~= inner.view());
        r
    }

    /// The store `inner` behind an empty buffer with room for `capacity`
    /// numbers.
    pub fn with_capacity(inner: A, capacity: usize) -> (r: Self)
        requires
            inner.inv(),
        ensures
            r.inv(),
            r.view() == inner.view(),
            r.inner == inner,
    {
        let r = Buffered { inner, buffer: Buffer::with_capacity(capacity) };
        assert(r.view() =~= inner.view());
        r
    }

    /// The store behind the buffer, with what the buffer held put on it.
    pub fn into_inner(self) -> (r: A)
        requires
            self.inv(),
        ensures
            r.inv(),
            r.view() == self.view(),
    {
        let mut this = self;
        this.commit();
        proof {
            assert(this.view() =~= this.inner.view());
        }
        this.inner
    }

    /// Puts a copy of what the buffer holds on the store behind it.
    fn copy(&mut self) -> (r: Option<()>)
        requires
            old(self).inv(),
        ensures
            final(self).inner.inv(),
            final(self).buffer == old(self).buffer,
            r is Some,
            final(self).inner.view() == old(self).view(),
    {
        match self.buffer.kind {
            BufferKind::Empty => {
                proof {
                    assert(self.view() =~= self.inner.view());
                }
            },
            BufferKind::Singles => {
                self.inner.blow_many(self.buffer.data.as_slice());
            },
            BufferKind::Double => {
                self.inner.blow_double(self.buffer.data.as_slice());
                proof {
                    let data = self.buffer.data@;
                    let whole = singles(data) + old(self).inner.view();
                    assert(whole.take(data.len() as int) =~= singles(data));
                    assert(whole.skip(data.len() as int) =~= old(self).inner.view());
                }
            },
        }
        Some(())
    }

    /// Puts what the buffer holds on the store behind it, and empties the
    /// buffer.
    fn commit(&mut self) -> (r: Option<()>)
        requires
            old(self).inv(),
        ensures
            final(self).inv(),
            r is Some,
            final(self).buffer.kind == BufferKind::Empty,
            final(self).inner.view() == old(self).view(),
            final(self).view() == old(self).view(),
    {
        self.copy();
        self.buffer.clear();
        proof {
            assert(self.view() =~= self.inner.view());
        }
        Some(())
    }
}

impl<A: Abyss> Abyss for Buffered<A> {
    open spec fn inv(&self) -> bool {
        self.inner.inv() && self.buffer.wf()
    }

    open spec fn view(&self) -> Seq<Tree> {
        self.buffer.view() + self.inner.view()
    }

    fn is_empty(&self) -> (r: bool) {
        matches!(self.buffer.kind, BufferKind::Empty) && self.inner.is_empty()
    }

    fn blow_awascii(&mut self, awascii: &[AwaSCII]) -> (r: Option<()>) {
        if awascii.len() == 0 {
            return self.blow(0);
        }
        self.commit();
        let ghost text = codes(awascii@);
        let mut i = awascii.len();
        while i > 0
            invariant
                0 <= i <= awascii@.len(),
                text == codes(awascii@),
                self.inner.inv(),
                self.inner.view() == old(self).view(),
                self.buffer.kind == BufferKind::Empty,
                self.buffer.data@.len() == awascii@.len() - i,
                forall|j: int|
                    0 <= j < self.buffer.data@.len() ==> #[trigger] self.buffer.data@[j] == text[
                        awascii@.len() - 1 - j
                    ] as Value,
            decreases i,
        {
            i = i - 1;
            self.buffer.data.push(awascii[i].code() as Value);
        }
        self.buffer.kind = BufferKind::Double;
        proof {
            assert(singles(self.buffer.data@) =~= text_bubble(text)->Double_0);
            assert(self.view() =~= seq![text_bubble(text)] + old(self).view());
        }
        Some(())
    }

    fn blow(&mut self, value: Value) -> (r: Option<()>) {
        if matches!(self.buffer.kind, BufferKind::Double) {
            self.commit();
        }
        let ghost before = self.buffer.data@;
        self.buffer.kind = BufferKind::Singles;
        self.buffer.data.push(value);
        proof {
            assert(singles(self.buffer.data@) =~= seq![Tree::Single(value)] + singles(before));
            assert(self.view() =~= seq![Tree::Single(value)] + old(self).view());
        }
        Some(())
    }

    fn submerge(&mut self, distance: usize) -> (r: Option<()>) {
        if !matches!(self.buffer.kind, BufferKind::Singles) {
            self.commit();
            let r = self.inner.submerge(distance);
            proof {
                assert(self.view() =~= self.inner.view());
            }
            return r;
        }
        let ghost chain = self.view();
        let ghost below = self.inner.view();
        let ghost data = self.buffer.data@;
        let ghost k = depth(chain.len(), distance as nat);
        let value = match self.buffer.data.pop() {
            Some(value) => value,
            None => 0,
        };
        let len = self.buffer.data.len();
        let ghost rest = self.buffer.data@;
        proof {
            assert(singles(data) =~= seq![Tree::Single(value)] + singles(rest));
        }
        if (distance == 0 && self.inner.is_empty()) || (distance > 0 && len >= distance) {
            let at = if distance == 0 {
                0
            } else {
                len - distance
            };
            self.buffer.data.insert(at, value);
            proof {
                let now = self.buffer.data@;
                assert(singles(now) =~= singles(rest).take(len - at) + seq![Tree::Single(value)]
                    + singles(rest).skip(len - at));
                assert(self.view() =~= submerged(chain, distance as nat));
            }
            return Some(());
        }
        if len == 0 {
            self.buffer.kind = BufferKind::Empty;
        }
        self.inner.blow(value);
        let r = self.inner.submerge(if distance == 0 {
            0
        } else {
            distance - len
        });
        proof {
            assert(self.view() =~= submerged(chain, distance as nat));
        }
        r
    }

    fn pop(&mut self) -> (r: Option<()>) {
        match self.buffer.pop() {
            Some(_) => {
                proof {
                    if old(self).buffer.kind == BufferKind::Singles {
                        assert(self.view() =~= old(self).view().skip(1));
                    } else {
                        assert(self.view() =~= singles(old(self).buffer.data@) + old(self).view().skip(
                            1,
                        ));
                    }
                }
                Some(())
            },
            None => {
                proof {
                    assert(old(self).view() =~= old(self).inner.view());
                }
                let r = self.inner.pop();
                proof {
                    assert(self.view() =~= self.inner.view());
                }
                r
            },
        }
    }

    fn double_pop(&mut self) -> (r: Option<()>) {
        match self.buffer.double_pop() {
            Some(_) => {
                proof {
                    assert(self.view() =~= old(self).view().skip(1));
                }
                Some(())
            },
            None => {
                proof {
                    assert(old(self).view() =~= old(self).inner.view());
                }
                let r = self.inner.double_pop();
                proof {
                    assert(self.view() =~= self.inner.view());
                }
                r
            },
        }
    }

    fn duplicate(&mut self) -> (r: Option<()>) {
        match self.buffer.kind {
            BufferKind::Empty => {
                proof {
                    assert(old(self).view() =~= old(self).inner.view());
                }
                let r = self.inner.duplicate();
                proof {
                    assert(self.view() =~= self.inner.view());
                }
                r
            },
            BufferKind::Singles => {
                let ghost before = self.buffer.data@;
                let last = self.buffer.data[self.buffer.data.len() - 1];
                self.buffer.data.push(last);
                proof {
                    assert(singles(self.buffer.data@) =~= seq![Tree::Single(last)] + singles(before));
                    assert(self.view() =~= seq![old(self).view()[0]] + old(self).view());
                }
                Some(())
            },
            BufferKind::Double => {
                self.copy();
                proof {
                    assert(self.view() =~= seq![old(self).view()[0]] + old(self).view());
                }
                Some(())
            },
        }
    }

    fn surround(&mut self, count: usize) -> (r: Option<()>) {
        if count > 0 && matches!(self.buffer.kind, BufferKind::Singles) && self.buffer.data.len()
            == count {
            self.buffer.kind = BufferKind::Double;
            proof {
                let chain = old(self).view();
                let top = singles(self.buffer.data@);
                assert(chain.take(count as int) =~= top);
                assert(chain.skip(count as int) =~= self.inner.view());
                assert(self.view() =~= surrounded(chain, count as nat));
            }
            return Some(());
        }
        self.commit();
        let r = self.inner.surround(count);
        proof {
            assert(self.view() =~= self.inner.view());
        }
        r
    }

    fn merge(&mut self) -> (r: Option<()>) {
        if matches!(self.buffer.kind, BufferKind::Singles) && self.buffer.data.len() == 2 {
            self.buffer.kind = BufferKind::Double;
            proof {
                let chain = old(self).view();
                let top = singles(self.buffer.data@);
                assert(parts(chain[0]) + parts(chain[1]) =~= top);
                assert(chain.skip(2) =~= self.inner.view());
                assert(self.view() =~= merged(chain));
            }
            return Some(());
        }
        self.commit();
        let r = self.inner.merge();
        proof {
            assert(self.view() =~= self.inner.view());
        }
        r
    }

    fn count(&mut self) -> (r: Option<()>) {
        match self.buffer.kind {
            BufferKind::Singles => {
                let ghost before = self.buffer.data@;
                self.buffer.data.push(0);
                proof {
                    assert(singles(self.buffer.data@) =~= seq![Tree::Single(0)] + singles(before));
                    assert(self.view() =~= counted(old(self).view()));
                }
                Some(())
            },
            _ => {
                self.commit();
                let r = self.inner.count();
                proof {
                    assert(self.view() =~= self.inner.view());
                }
                r
            },
        }
    }

    fn combine_single<F: Fn(Value, Value) -> Value>(&mut self, op: F) -> (r: Option<()>) {
        if matches!(self.buffer.kind, BufferKind::Singles) && self.buffer.data.len() >= 2 {
            let ghost chain = self.view();
            let ghost data = self.buffer.data@;
            let len = self.buffer.data.len();
            let lhs = self.buffer.data[len - 1];
            let rhs = self.buffer.data[len - 2];
            proof {
                assert(chain[0] == Tree::Single(lhs));
                assert(chain[1] == Tree::Single(rhs));
            }
            let both = op(lhs, rhs);
            self.buffer.data.pop();
            self.buffer.data.set(len - 2, both);
            proof {
                let now = self.view();
                assert(now[0] == Tree::Single(both));
                assert(now.skip(1) =~= chain.skip(2));
            }
            return Some(());
        }
        self.commit();
        let r = self.inner.combine_single(op);
        proof {
            assert(self.view() =~= self.inner.view());
        }
        r
    }

    fn combine_double<F1: Fn(Value, Value) -> Value, F2: Fn(Value, Value) -> Value>(
        &mut self,
        op1: F1,
        op2: F2,
    ) -> (r: Option<()>) {
        if matches!(self.buffer.kind, BufferKind::Singles) && self.buffer.data.len() >= 2 {
            let ghost chain = self.view();
            let ghost data = self.buffer.data@;
            let len = self.buffer.data.len();
            let lhs = self.buffer.data[len - 1];
            let rhs = self.buffer.data[len - 2];
            proof {
                assert(chain[0] == Tree::Single(lhs));
                assert(chain[1] == Tree::Single(rhs));
            }
            let first = op1(lhs, rhs);
            let second = op2(lhs, rhs);
            self.buffer.data.pop();
            self.buffer.data.pop();
            if self.buffer.data.len() == 0 {
                self.buffer.kind = BufferKind::Empty;
            }
            proof {
                assert(self.view() =~= chain.skip(2));
            }
            self.commit();
            self.buffer.data.push(second);
            self.buffer.data.push(first);
            self.buffer.kind = BufferKind::Double;
            proof {
                let now = self.view();
                let both = singles(self.buffer.data@);
                assert(both =~= seq![Tree::Single(first), Tree::Single(second)]);
                assert(now[0] == Tree::Double(both));
                assert(now.skip(1) =~= chain.skip(2));
            }
            return Some(());
        }
        self.commit();
        let r = self.inner.combine_double(op1, op2);
        proof {
            assert(self.view() =~= self.inner.view());
        }
        r
    }

    fn can_divide(&mut self) -> (r: Option<bool>) {
        self.commit();
        let r = self.inner.can_divide();
        proof {
            assert(self.view() =~= self.inner.view());
        }
        r
    }

    fn test<F: Fn(&Value, &Value) -> bool>(&mut self, test: F) -> (r: Option<bool>) {
        if matches!(self.buffer.kind, BufferKind::Singles) && self.buffer.data.len() >= 2 {
            let len = self.buffer.data.len();
            let top = self.buffer.data[len - 1];
            let below = self.buffer.data[len - 2];
            proof {
                let chain = self.view();
                assert(chain[0] == Tree::Single(top));
                assert(chain[1] == Tree::Single(below));
            }
            return Some(test(&top, &below));
        }
        self.commit();
        let r = self.inner.test(test);
        proof {
            assert(self.view() =~= self.inner.view());
        }
        r
    }

    fn render(&self) -> (r: Vec<u8>) {
        let mut out: Vec<u8> = Vec::new();
        let data = &self.buffer.data;
        let ghost top = self.buffer.view();
        match self.buffer.kind {
            BufferKind::Empty => {},
            BufferKind::Singles => {
                let mut i = data.len();
                proof {
                    assert(top.take(0) =~= Seq::<Tree>::empty());
                }
                while i > 0
                    invariant
                        0 <= i <= data@.len(),
                        top == singles(data@),
                        out@ == shown_chain(top.take(data@.len() - i)),
                    decreases i,
                {
                    i = i - 1;
                    proof {
                        let k = data@.len() - i;
                        assert(top.take(k).drop_last() =~= top.take(k - 1));
                        assert(top.take(k).last() == Tree::Single(data@[i as int]));
                    }
                    push_decimal(&mut out, data[i] as i128);
                    out.push(10);
                    proof {
                        assert(out@ =~= shown_chain(top.take(data@.len() - i)));
                    }
                }
                proof {
                    assert(top.take(data@.len() as int) =~= top);
                }
            },
            BufferKind::Double => {
                out.push(91);
                let ghost row = singles(data@);
                let mut i = data.len();
                proof {
                    assert(row.take(0) =~= Seq::<Tree>::empty());
                    assert(out@ =~= seq![91u8] + shown_row(row.take(0)));
                }
                while i > 0
                    invariant
                        0 <= i <= data@.len(),
                        row == singles(data@),
                        out@ == seq![91u8] + shown_row(row.take(data@.len() - i)),
                    decreases i,
                {
                    if i < data.len() {
                        out.push(44);
                        out.push(32);
                    }
                    i = i - 1;
                    proof {
                        let k = data@.len() - i;
                        assert(row.take(k).drop_last() =~= row.take(k - 1));
                        assert(row.take(k).last() == Tree::Single(data@[i as int]));
                        assert(row.take(k)[0] == row[0]);
                    }
                    let ghost before = out@;
                    push_decimal(&mut out, data[i] as i128);
                    proof {
                        let k = data@.len() - i;
                        let one = Tree::Single(data@[i as int]);
                        assert(shown(one) == crate::text::decimal_of(data@[i as int] as int));
                        if k > 1 {
                            assert(before =~= seq![91u8] + shown_row(row.take(k - 1)) + seq![
                                44u8,
                                32u8,
                            ]);
                            assert(shown_row(row.take(k)) =~= shown_row(row.take(k - 1)) + seq![
                                44u8,
                                32u8,
                            ] + shown(one));
                        } else {
                            assert(row.take(k)[0] == one);
                            assert(shown_row(row.take(k)) =~= shown(one));
                        }
                        assert(out@ =~= seq![91u8] + shown_row(row.take(data@.len() - i)));
                    }
                }
                out.push(93);
                out.push(10);
                proof {
                    assert(row.take(data@.len() as int) =~= row);
                    assert(top.drop_last() =~= Seq::<Tree>::empty());
                    let whole = Tree::Double(row);
                    assert(top.last() == whole);
                    assert(whole matches Tree::Double(x) && x == row);
                    assert(shown(whole) =~= seq![91u8] + shown_row(row) + seq![93u8]);
                    assert(shown_chain(top) =~= shown_chain(top.drop_last()) + shown(whole) + seq![
                        10u8,
                    ]);
                    assert(out@ =~= shown_chain(top));
                }
            },
        }
        let mut rest = self.inner.render();
        out.append(&mut rest);
        proof {
            lemma_shown_join(top, self.inner.view());
        }
        out
    }

    fn consume<T, E, F: Fn(Value) -> Result<T, E>>(&mut self, fun: F) -> (r: Result<
        Option<Vec<T>>,
        E,
    >) {
        if !matches!(self.buffer.kind, BufferKind::Empty) {
            let ghost chain = self.view();
            let ghost data = self.buffer.data@;
            let ghost values = leaves(chain[0]);
            let single = matches!(self.buffer.kind, BufferKind::Singles);
            let len = self.buffer.data.len();
            let stop = if single {
                len - 1
            } else {
                0
            };
            proof {
                lemma_leaves_singles(data);
                if single {
                    assert(chain[0] == Tree::Single(data.last()));
                    assert(values =~= seq![data.last()]);
                } else {
                    assert(chain[0] == Tree::Double(singles(data)));
                    assert(chain[0] matches Tree::Double(x) && x == singles(data));
                }
            }
            let mut out: Vec<T> = Vec::new();
            let mut i = len;
            while i > stop
                invariant
                    stop <= i <= len,
                    len == data.len(),
                    self.buffer.data@ == data,
                    *self == *old(self),
                    self.inv(),
                    chain == old(self).view(),
                    chain.len() > 0,
                    values == leaves(chain[0]),
                    values.len() == len - stop,
                    forall|j: int| 0 <= j < values.len() ==> #[trigger] values[j] == data[len - 1 - j],
                    out@.len() == len - i,
                    forall|v: Value| call_requires(fun, (v,)),
                    forall|j: int|
                        0 <= j < len - i ==> call_ensures(
                            fun,
                            (#[trigger] values[j],),
                            Ok::<T, E>(out@[j]),
                        ),
                decreases i,
            {
                i = i - 1;
                match fun(self.buffer.data[i]) {
                    Ok(one) => {
                        out.push(one);
                    },
                    Err(e) => {
                        proof {
                            let at = len - 1 - i;
                            assert(values[at] == data[i as int]);
                            assert forall|j: int| 0 <= j < at implies accepted::<T, E, F>(
                                fun,
                                #[trigger] values[j],
                            ) by {
                                assert(call_ensures(fun, (values[j],), Ok::<T, E>(out@[j])));
                            }
                            assert(taken(fun, values, at));
                            assert(call_ensures(fun, (values[at],), Err::<T, E>(e)));
                        }
                        return Err(e);
                    },
                }
            }
            if single {
                self.buffer.data.pop();
                if self.buffer.data.len() == 0 {
                    self.buffer.kind = BufferKind::Empty;
                }
            } else {
                self.buffer.clear();
            }
            proof {
                assert(self.view() =~= chain.skip(1));
            }
            return Ok(Some(out));
        }
        self.commit();
        let r = self.inner.consume(fun);
        proof {
            assert(self.view() =~= self.inner.view());
        }
        r
    }

    fn blow_many(&mut self, values: &[Value]) -> (r: Option<()>) {
        if values.len() == 0 {
            proof {
                assert(singles(values@) + self.view() =~= self.view());
            }
            return Some(());
        }
        if matches!(self.buffer.kind, BufferKind::Double) {
            self.commit();
        }
        let ghost before = self.buffer.data@;
        let mut more = vstd::slice::slice_to_vec(values);
        self.buffer.kind = BufferKind::Singles;
        self.buffer.data.append(&mut more);
        proof {
            assert(singles(before + values@) =~= singles(values@) + singles(before));
            assert(self.view() =~= singles(values@) + old(self).view());
        }
        Some(())
    }

    fn pop_many(&mut self, count: usize) -> (r: Option<()>) {
        let ghost chain = self.view();
        let mut left = count;
        if left > 0 && matches!(self.buffer.kind, BufferKind::Double) {
            self.buffer.pop();
            left = left - 1;
            proof {
                assert(self.view() =~= popped(chain));
                assert(once(Batched::Pop, 0, chain) == Some(self.view()));
            }
        }
        let ghost mid = self.view();
        if matches!(self.buffer.kind, BufferKind::Singles) {
            let len = self.buffer.data.len();
            if len > left {
                self.buffer.data.truncate(len - left);
                proof {
                    lemma_repeated_gone(Batched::Pop, left as nat, mid);
                    assert(self.view() =~= mid.skip(left as int));
                }
                return Some(());
            }
            self.buffer.clear();
            left = left - len;
            proof {
                lemma_repeated_gone(Batched::Pop, len as nat, mid);
                lemma_repeated_sum(Batched::Pop, len as nat, left as nat, mid);
                assert(self.view() =~= mid.skip(len as int));
            }
        }
        let ghost low = self.inner.view();
        let ghost top = self.buffer.view();
        let r = self.inner.pop_many(left);
        proof {
            if left > 0 {
                assert(top + low =~= low);
                assert(self.view() =~= self.inner.view());
            }
        }
        r
    }

    fn double_pop_many(&mut self, count: usize) -> (r: Option<()>) {
        let ghost chain = self.view();
        let mut left = count;
        if left > 0 && matches!(self.buffer.kind, BufferKind::Double) {
            self.buffer.double_pop();
            left = left - 1;
            proof {
                assert(self.view() =~= chain.skip(1));
                assert(once(Batched::DoublePop, 0, chain) == Some(self.view()));
            }
        }
        let ghost mid = self.view();
        if matches!(self.buffer.kind, BufferKind::Singles) {
            let len = self.buffer.data.len();
            if len > left {
                self.buffer.data.truncate(len - left);
                proof {
                    lemma_repeated_gone(Batched::DoublePop, left as nat, mid);
                    assert(self.view() =~= mid.skip(left as int));
                }
                return Some(());
            }
            self.buffer.clear();
            left = left - len;
            proof {
                lemma_repeated_gone(Batched::DoublePop, len as nat, mid);
                lemma_repeated_sum(Batched::DoublePop, len as nat, left as nat, mid);
                assert(self.view() =~= mid.skip(len as int));
            }
        }
        let ghost low = self.inner.view();
        let ghost top = self.buffer.view();
        let r = self.inner.double_pop_many(left);
        proof {
            if left > 0 {
                assert(top + low =~= low);
                assert(self.view() =~= self.inner.view());
            }
        }
        r
    }

    fn duplicate_many(&mut self, count: usize) -> (r: Option<()>) {
        let ghost chain = self.view();
        match self.buffer.kind {
            BufferKind::Empty => {
                proof {
                    assert(chain =~= self.inner.view());
                }
                let r = self.inner.duplicate_many(count);
                proof {
                    assert(self.view() =~= self.inner.view());
                }
                r
            },
            BufferKind::Singles => {
                let ghost before = self.buffer.data@;
                let ghost inner = self.inner;
                let last = self.buffer.data[self.buffer.data.len() - 1];
                let mut i: usize = 0;
                while i < count
                    invariant
                        0 <= i <= count,
                        self.inner == inner,
                        self.buffer.kind == BufferKind::Singles,
                        self.buffer.data@ == before + Seq::new(i as nat, |j: int| last),
                    decreases count - i,
                {
                    self.buffer.data.push(last);
                    i = i + 1;
                    proof {
                        assert(self.buffer.data@ =~= before + Seq::new(i as nat, |j: int| last));
                    }
                }
                proof {
                    lemma_repeated_copies(count as nat, chain);
                    assert(self.view() =~= Seq::new(count as nat, |j: int| chain[0]) + chain);
                }
                Some(())
            },
            BufferKind::Double => {
                let ghost buffer = self.buffer;
                let ghost low = self.inner.view();
                let mut i: usize = 0;
                proof {
                    assert(Seq::new(0, |j: int| chain[0]) + low =~= low);
                }
                while i < count
                    invariant
                        0 <= i <= count,
                        self.inv(),
                        self.buffer == buffer,
                        buffer.view() == seq![chain[0]],
                        self.inner.view() == Seq::new(i as nat, |j: int| chain[0]) + low,
                    decreases count - i,
                {
                    self.copy();
                    i = i + 1;
                    proof {
                        assert(self.inner.view() =~= Seq::new(i as nat, |j: int| chain[0]) + low);
                    }
                }
                proof {
                    lemma_repeated_copies(count as nat, chain);
                    assert(self.view() =~= Seq::new(count as nat, |j: int| chain[0]) + chain);
                }
                Some(())
            },
        }
    }
}

} // verus!
