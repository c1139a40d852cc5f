//! A slot arena: values live in numbered slots, and emptied slots are chained
//! into a free list so that they are handed out again before the storage grows.
use vstd::prelude::*;

verus! {

/// Handle of one slot of an [`Arena`].
#[derive(Debug, Clone, Copy, PartialEq, Eq, Hash, Structural)]
pub struct Index(pub usize);

/// One slot: a value, or a link of the free list.
#[derive(Debug, Clone, Copy)]
pub enum Entry<T> {
    Occupied(T),
    Free(Option<Index>),
}

impl<T> Entry<T> {
    /// The same slot with the value borrowed mutably.
    pub fn as_mut(&mut self) -> (r: Entry<&mut T>)
        ensures
            match *old(self) {
                Entry::Occupied(v) => (r matches Entry::Occupied(x) && *x == v && *final(self)
                    == Entry::Occupied(*final(x))),
                Entry::Free(link) => r == Entry::<&mut T>::Free(link) && *final(self) == *old(self),
            },
    {
        match self {
            Entry::Occupied(value) => Entry::Occupied(value),
            Entry::Free(free) => Entry::Free(*free),
        }
    }

    /// The value of an occupied slot.
    pub fn into_occupied(self) -> (r: Option<T>)
        ensures
            r == (match self {
                Entry::Occupied(v) => Some(v),
                Entry::Free(_) => None,
            }),
    {
        match self {
            Entry::Occupied(value) => Some(value),
            Entry::Free(_) => None,
        }
    }

    /// The link of a free slot.
    pub fn into_free(self) -> (r: Option<Option<Index>>)
        ensures
            r == (match self {
                Entry::Occupied(_) => None,
                Entry::Free(link) => Some(link),
            }),
    {
        match self {
            Entry::Occupied(_) => None,
            Entry::Free(free) => Some(free),
        }
    }
}

/// What a slot holds, seen from outside: its value, or nothing.
pub open spec fn content<T>(e: Entry<T>) -> Option<T> {
    match e {
        Entry::Occupied(v) => Some(v),
        Entry::Free(_) => None,
    }
}

/// Some slot is empty.
pub open spec fn has_free<T>(slots: Seq<Option<T>>) -> bool {
    exists|i: int| 0 <= i < slots.len() && (#[trigger] slots[i]) is None
}

/// What `index` finds in the slots: the value of an occupied slot.
pub open spec fn found<T>(slots: Seq<Option<T>>, index: Index) -> Option<T> {
    if index.0 < slots.len() {
        slots[index.0 as int]
    } else {
        None
    }
}

/// `after` is `before` with `value` put under `index` into a slot that was
/// empty, or into a new slot behind the others where none was empty.
pub open spec fn inserted<T>(
    before: Seq<Option<T>>,
    value: T,
    index: Index,
    after: Seq<Option<T>>,
) -> bool {
    if has_free(before) {
        index.0 < before.len() && before[index.0 as int] is None && after == before.update(
            index.0 as int,
            Some(value),
        )
    } else {
        index.0 == before.len() && after == before.push(Some(value))
    }
}

/// `after` is `before` with the slot of `index` emptied and its value handed
/// out as `taken`; nothing changed, and nothing handed out, where the slot
/// was empty or not there.
pub open spec fn removed<T>(
    before: Seq<Option<T>>,
    index: Index,
    taken: Option<T>,
    after: Seq<Option<T>>,
) -> bool {
    if found(before, index) is Some {
        taken == found(before, index) && after == before.update(index.0 as int, None)
    } else {
        taken is None && after == before
    }
}

/// Law: a value that was inserted is found under its handle, and whatever
/// else was there is found as before.
pub proof fn lemma_insert_found<T>(
    before: Seq<Option<T>>,
    value: T,
    index: Index,
    after: Seq<Option<T>>,
    other: Index,
)
    requires
        inserted(before, value, index, after),
    ensures
        found(after, index) == Some(value),
        found(before, index) is None,
        other != index ==> found(after, other) == found(before, other),
{
}

/// Law: under a handle that was removed nothing is found, and whatever else
/// was there is found as before.
pub proof fn lemma_remove_found<T>(
    before: Seq<Option<T>>,
    index: Index,
    taken: Option<T>,
    after: Seq<Option<T>>,
    other: Index,
)
    requires
        removed(before, index, taken, after),
    ensures
        found(after, index) is None,
        taken == found(before, index),
        other != index ==> found(after, other) == found(before, other),
{
}

/// Law: an insertion adds no slot while a slot is empty, and one slot
/// where none is.
pub proof fn lemma_insert_grows<T>(
    before: Seq<Option<T>>,
    value: T,
    index: Index,
    after: Seq<Option<T>>,
)
    requires
        inserted(before, value, index, after),
    ensures
        has_free(before) ==> after.len() == before.len(),
        !has_free(before) ==> after.len() == before.len() + 1,
{
}

/// Slots that are handed out by their number: a slot is occupied by a
/// value, or empty and linked into the list of the empty slots.
#[derive(Clone)]
pub struct Arena<T> {
    heap: Vec<Entry<T>>,
    free_head: Option<Index>,
    free: Ghost<Seq<usize>>,
}

impl<T> Arena<T> {
    /// The slots in order: `Some` for an occupied slot, `None` for an empty one.
    pub closed spec fn view(&self) -> Seq<Option<T>> {
        Seq::new(self.heap@.len(), |i: int| content(self.heap@[i]))
    }

    /// The link that the free slot at position `k` of the free list must hold.
    spec fn link(free: Seq<usize>, k: int) -> Option<Index> {
        if k + 1 < free.len() {
            Some(Index(free[k + 1]))
        } else {
            None
        }
    }

    /// The free list threads exactly the empty slots, each once.
    pub closed spec fn wf(&self) -> bool {
        let free = self.free@;
        &&& self.free_head == (if free.len() > 0 {
            Some(Index(free[0]))
        } else {
            None
        })
        &&& free.no_duplicates()
        &&& forall|k: int| 0 <= k < free.len() ==> (#[trigger] free[k]) < self.heap@.len()
        &&& forall|k: int|
            0 <= k < free.len() ==> #[trigger] self.heap@[free[k] as int] == Entry::<T>::Free(
                Self::link(free, k),
            )
        &&& forall|i: int|
            0 <= i < self.heap@.len() && (#[trigger] self.heap@[i]) is Free ==> free.contains(
                i as usize,
            )
    }

    /// The empty slots in the order in which insertions will take them.
    pub closed spec fn free_list(&self) -> Seq<usize> {
        self.free@
    }

    /// The free list holds the empty slots, each once, and nothing else.
    pub proof fn lemma_free_list(&self)
        requires
            self.wf(),
        ensures
            self.free_list().no_duplicates(),
            forall|i: usize|
                self.free_list().contains(i) <==> i < self@.len() && (#[trigger] self@[i as int])
                    is None,
    {
        let free = self.free@;
        assert forall|i: usize| free.contains(i) implies i < self@.len() && (#[trigger] self@[i as int])
            is None by {
            let k = choose|k: int| 0 <= k < free.len() && free[k] == i;
            assert(self.heap@[free[k] as int] is Free);
        }
        assert forall|i: usize| i < self@.len() && (#[trigger] self@[i as int]) is None implies free.contains(
            i,
        ) by {
            assert(self.heap@[i as int] is Free);
        }
    }

    /// `index` names an occupied slot.
    pub open spec fn contains(&self, index: Index) -> bool {
        found(self@, index) is Some
    }

    /// An arena without slots.
    pub fn new() -> (r: Self)
        ensures
            r.wf(),
            r@ == Seq::<Option<T>>::empty(),
            r.free_list() == Seq::<usize>::empty(),
    {
        let r = Arena { heap: Vec::new(), free_head: None, free: Ghost(Seq::empty()) };
        assert(r@ =~= Seq::<Option<T>>::empty());
        r
    }

    /// An arena without slots, with room for `capacity` of them.
    pub fn with_capacity(capacity: usize) -> (r: Self)
        ensures
            r.wf(),
            r@ == Seq::<Option<T>>::empty(),
            r.free_list() == Seq::<usize>::empty(),
    {
        let r = Arena {
            heap: Vec::with_capacity(capacity),
            free_head: None,
            free: Ghost(Seq::empty()),
        };
        assert(r@ =~= Seq::<Option<T>>::empty());
        r
    }

    /// Stores `value` and returns its handle. The first slot of the free list
    /// is taken where there is one; only otherwise does the storage grow by
    /// one slot.
    pub fn insert(&mut self, value: T) -> (index: Index)
        requires
            old(self).wf(),
        ensures
            final(self).wf(),
            inserted(old(self)@, value, index, final(self)@),
            old(self).free_list().len() > 0 ==> index.0 == old(self).free_list()[0]
                && final(self).free_list() == old(self).free_list().skip(1),
            old(self).free_list().len() == 0 ==> final(self).free_list() == old(self).free_list(),
    {
        match self.free_head {
            Some(index) => {
                let ghost free = self.free@;
                assert(free[0] == index.0);
                assert(free[0] < self.heap@.len());
                assert(self.heap@[free[0] as int] == Entry::<T>::Free(Self::link(free, 0)));
                assert(old(self)@[index.0 as int] is None);
                let link = match &self.heap[index.0] {
                    Entry::Free(link) => *link,
                    Entry::Occupied(_) => None,
                };
                self.heap[index.0] = Entry::Occupied(value);
                self.free_head = link;
                proof {
                    self.free@ = free.skip(1);
                    let rest = free.skip(1);
                    assert forall|k: int| 0 <= k < rest.len() implies #[trigger] self.heap@[rest[k] as int]
                        == Entry::<T>::Free(Self::link(rest, k)) by {
                        assert(rest[k] == free[k + 1]);
                        assert(free[k + 1] != free[0]);
                        assert(old(self).heap@[free[k + 1] as int] == Entry::<T>::Free(
                            Self::link(free, k + 1),
                        ));
                    }
                    assert forall|i: int|
                        0 <= i < self.heap@.len() && (#[trigger] self.heap@[i]) is Free implies rest.contains(
                        i as usize,
                    ) by {
                        assert(self.heap.len() == self.heap@.len());
                        assert(self.heap@[index.0 as int] is Occupied);
                        assert(i != index.0);
                        assert(old(self).heap@[i] is Free);
                        assert(free.contains(i as usize));
                        let k = choose|k: int| 0 <= k < free.len() && free[k] == i as usize;
                        assert(k != 0);
                        assert(rest[k - 1] == i as usize);
                    }
                    assert(self@ =~= old(self)@.update(index.0 as int, Some(value)));
                }
                index
            },
            None => {
                proof {
                    assert forall|i: int| 0 <= i < self@.len() implies !((#[trigger] self@[i]) is None) by {
                        if self.heap@[i] is Free {
                            assert(self.free@.contains(i as usize));
                        }
                    }
                }
                let index = Index(self.heap.len());
                self.heap.push(Entry::Occupied(value));
                proof {
                    assert(self@ =~= old(self)@.push(Some(value)));
                }
                index
            },
        }
    }

    /// Empties the slot, puts it at the front of the free list and returns what
    /// it held; `None`, and nothing changed, where `index` names no occupied
    /// slot.
    pub fn remove(&mut self, index: Index) -> (r: Option<T>)
        requires
            old(self).wf(),
        ensures
            final(self).wf(),
            removed(old(self)@, index, r, final(self)@),
            final(self).free_list() == (if r is Some {
                seq![index.0] + old(self).free_list()
            } else {
                old(self).free_list()
            }),
    {
        if index.0 >= self.heap.len() {
            return None;
        }
        let is_free = match &self.heap[index.0] {
            Entry::Occupied(_) => false,
            Entry::Free(_) => true,
        };
        if is_free {
            return None;
        }
        let mut entry = Entry::Free(self.free_head);
        std::mem::swap(&mut self.heap[index.0], &mut entry);
        self.free_head = Some(index);
        proof {
            let free = old(self).free@;
            let now = seq![index.0] + free;
            self.free@ = now;
            assert(!free.contains(index.0)) by {
                if free.contains(index.0) {
                    let k = choose|k: int| 0 <= k < free.len() && free[k] == index.0;
                    assert(old(self).heap@[free[k] as int] is Free);
                }
            }
            assert(now.no_duplicates()) by {
                assert forall|a: int, b: int| 0 <= a < now.len() && 0 <= b < now.len() && a != b implies now[a]
                    != now[b] by {
                    if a > 0 && b > 0 {
                        assert(free[a - 1] != free[b - 1]);
                    } else if a > 0 {
                        assert(free.contains(free[a - 1]));
                    } else {
                        assert(free.contains(free[b - 1]));
                    }
                }
            }
            assert forall|k: int| 0 <= k < now.len() implies (#[trigger] now[k]) < self.heap@.len() by {
                if k > 0 {
                    assert(now[k] == free[k - 1]);
                }
            }
            assert forall|k: int| 0 <= k < now.len() implies #[trigger] self.heap@[now[k] as int]
                == Entry::<T>::Free(Self::link(now, k)) by {
                if k > 0 {
                    assert(now[k] == free[k - 1]);
                    assert(free.contains(free[k - 1]));
                    assert(old(self).heap@[free[k - 1] as int] == Entry::<T>::Free(
                        Self::link(free, k - 1),
                    ));
                }
            }
            assert forall|i: int|
                0 <= i < self.heap@.len() && (#[trigger] self.heap@[i]) is Free implies now.contains(
                i as usize,
            ) by {
                if i == index.0 {
                    assert(now[0] == i as usize);
                } else {
                    assert(old(self).heap@[i] is Free);
                    let k = choose|k: int| 0 <= k < free.len() && free[k] == i as usize;
                    assert(now[k + 1] == i as usize);
                }
            }
            assert(self@ =~= old(self)@.update(index.0 as int, None));
        }
        entry.into_occupied()
    }

    /// The value in the slot, if it is occupied.
    pub fn get(&self, index: Index) -> (r: Option<&T>)
        ensures
            r matches Some(value) ==> found(self@, index) == Some(*value),
            r is None ==> found(self@, index) is None,
    {
        if index.0 >= self.heap.len() {
            return None;
        }
        match &self.heap[index.0] {
            Entry::Occupied(value) => Some(value),
            Entry::Free(_) => None,
        }
    }

    /// The value in the slot, to be changed in place.
    pub fn get_mut(&mut self, index: Index) -> (r: Option<&mut T>)
        requires
            old(self).wf(),
        ensures
            final(self).wf(),
            old(self).contains(index) ==> (r matches Some(x) && *x == old(self)@[index.0 as int]->0
                && final(self)@ == old(self)@.update(index.0 as int, Some(*final(x)))),
            !old(self).contains(index) ==> r is None && final(self)@ == old(self)@,
            final(self).free_list() == old(self).free_list(),
    {
        if index.0 >= self.heap.len() {
            return None;
        }
        let r = match &mut self.heap[index.0] {
            Entry::Occupied(value) => Some(value),
            Entry::Free(_) => None,
        };
        r
    }

    /// The number of slots fits the machine's word.
    pub proof fn lemma_len_bound(&self)
        ensures
            self@.len() <= usize::MAX,
    {
        assert(self.heap.len() == self.heap@.len());
    }

}

impl<T> Default for Arena<T> {
    fn default() -> (r: Self)
        ensures
            r.wf(),
            r@ == Seq::<Option<T>>::empty(),
    {
        Arena::new()
    }
}

} // verus!
