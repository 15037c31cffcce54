//! An append-only ordered list whose entries are reached through stable handles.
//!
//! Entries live in an arena and keep their slot for ever; a handle is the slot.
//! Each live entry knows its current position in the list, and deletion marks
//! the removed entries as detached and renumbers the survivors densely from 0.
use vstd::prelude::*;

verus! {

/// An entry: its value and its current position, or `None` once detached.
pub struct Entry<T> {
    val: T,
    index: Option<usize>,
}

impl<T> Entry<T> {
    pub closed spec fn spec_order(&self) -> Option<usize> {
        self.index
    }

    pub closed spec fn spec_value(&self) -> T {
        self.val
    }

    /// Position of the entry in its list, or `None` if it was deleted.
    pub fn order(&self) -> (r: Option<usize>)
        ensures
            r == self.spec_order(),
    {
        self.index
    }

    pub fn value(&self) -> (r: &T)
        ensures
            *r == self.spec_value(),
    {
        &self.val
    }
}

/// A handle to one entry of a `RefList`: the entry's slot in the list's arena.
#[derive(Clone, Copy, Debug, PartialEq, Eq)]
pub struct EntryRef {
    id: usize,
}

impl EntryRef {
    pub closed spec fn spec_id(&self) -> usize {
        self.id
    }

    /// Position of the referenced entry in `list`, or `None` if it was deleted.
    pub fn order<T>(&self, list: &RefList<T>) -> (r: Option<usize>)
        requires
            list.wf(),
            list.valid(*self),
        ensures
            r == list.order_of(*self),
    {
        list.entries[self.id].index
    }
}

/// Number of elements of `s` below `k`.
pub open spec fn count_below(s: Seq<usize>, k: int) -> nat
    decreases s.len(),
{
    if s.len() == 0 {
        0
    } else {
        count_below(s.drop_last(), k) + if (s.last() as int) < k {
            1nat
        } else {
            0nat
        }
    }
}

pub open spec fn strictly_increasing(s: Seq<usize>) -> bool {
    forall|i: int, j: int| 0 <= i < j < s.len() ==> s[i] < s[j]
}

pub struct RefList<T> {
    /// Every entry ever pushed, by slot.
    entries: Vec<Entry<T>>,
    /// Slots of the live entries, in list order.
    items: Vec<usize>,
}

impl<T> RefList<T> {
    pub closed spec fn wf(&self) -> bool {
        &&& forall|k: int|
            0 <= k < self.items@.len() ==> {
                &&& self.items@[k] < self.entries@.len()
                &&& self.entries@[self.items@[k] as int].index == Some(k as usize)
            }
        &&& forall|id: int|
            0 <= id < self.entries@.len() ==> match #[trigger] self.entries@[id].index {
                Some(k) => k < self.items@.len() && self.items@[k as int] == id,
                None => true,
            }
    }

    /// Number of live entries.
    pub closed spec fn spec_len(&self) -> nat {
        self.items@.len()
    }

    /// Number of handles ever handed out.
    pub closed spec fn slots(&self) -> nat {
        self.entries@.len()
    }

    pub open spec fn valid(&self, h: EntryRef) -> bool {
        h.spec_id() < self.slots()
    }

    pub closed spec fn order_of(&self, h: EntryRef) -> Option<usize> {
        self.entries@[h.spec_id() as int].index
    }

    pub closed spec fn value_of(&self, h: EntryRef) -> T {
        self.entries@[h.spec_id() as int].val
    }

    /// The live entry at position `i`.
    pub closed spec fn at(&self, i: int) -> EntryRef {
        EntryRef { id: self.items@[i] }
    }

    pub proof fn lemma_at(&self, i: int)
        requires
            self.wf(),
            0 <= i < self.spec_len(),
        ensures
            self.valid(self.at(i)),
            self.order_of(self.at(i)) == Some(i as usize),
    {
    }

    pub fn new() -> (r: Self)
        ensures
            r.wf(),
            r.spec_len() == 0,
            r.slots() == 0,
    {
        RefList { entries: Vec::new(), items: Vec::new() }
    }

    pub fn len(&self) -> (r: usize)
        ensures
            r == self.spec_len(),
    {
        self.items.len()
    }

    /// Appends `t` at the end of the list and returns a handle to it.
    pub fn push(&mut self, t: T) -> (r: EntryRef)
        requires
            old(self).wf(),
        ensures
            final(self).wf(),
            final(self).spec_len() == old(self).spec_len() + 1,
            final(self).slots() == old(self).slots() + 1,
            r.spec_id() == old(self).slots(),
            final(self).valid(r),
            final(self).order_of(r) == Some(old(self).spec_len() as usize),
            final(self).value_of(r) == t,
            final(self).at(old(self).spec_len() as int) == r,
            forall|j: int| 0 <= j < old(self).spec_len() ==> final(self).at(j) == old(self).at(j),
            forall|h: EntryRef|
                old(self).valid(h) ==> final(self).order_of(h) == old(self).order_of(h)
                    && final(self).value_of(h) == old(self).value_of(h),
    {
        let idx = self.items.len();
        let id = self.entries.len();
        self.entries.push(Entry { val: t, index: Some(idx) });
        self.items.push(id);
        EntryRef { id }
    }

    /// Replaces the value of the entry behind `h`, keeping its position.
    pub fn set_value(&mut self, h: &EntryRef, v: T)
        requires
            old(self).wf(),
            old(self).valid(*h),
        ensures
            final(self).wf(),
            final(self).spec_len() == old(self).spec_len(),
            final(self).slots() == old(self).slots(),
            final(self).value_of(*h) == v,
            forall|k: int| 0 <= k < old(self).spec_len() ==> final(self).at(k) == old(self).at(k),
            forall|g: EntryRef|
                #![trigger final(self).order_of(g)]
                old(self).valid(g) ==> final(self).order_of(g) == old(self).order_of(g) && (g != *h
                    ==> final(self).value_of(g) == old(self).value_of(g)),
    {
        let index = self.entries[h.id].index;
        self.entries.set(h.id, Entry { val: v, index });
    }

    /// Whether `h` is a handle of this list.
    pub fn contains(&self, h: &EntryRef) -> (r: bool)
        ensures
            r == self.valid(*h),
    {
        h.id < self.entries.len()
    }

    /// Reads the entry behind `h`.
    pub fn read(&self, h: &EntryRef) -> (r: &Entry<T>)
        requires
            self.valid(*h),
        ensures
            r.spec_order() == self.order_of(*h),
            r.spec_value() == self.value_of(*h),
    {
        &self.entries[h.id]
    }

    /// A handle to the entry at position `idx`, if there is one.
    pub fn get(&self, idx: usize) -> (r: Option<EntryRef>)
        requires
            self.wf(),
        ensures
            idx < self.spec_len() <==> r is Some,
            r matches Some(h) ==> self.valid(h) && self.order_of(h) == Some(idx) && h
                == self.at(idx as int),
    {
        if idx < self.items.len() {
            Some(EntryRef { id: self.items[idx] })
        } else {
            None
        }
    }

    pub fn begin_delete(&self) -> (r: DeleteTransaction)
        ensures
            r.spec_deleted().len() == 0,
    {
        DeleteTransaction { deleted: Vec::new() }
    }

    /// Deletes the entries at the given positions, which are strictly
    /// increasing. Deleted entries become detached; each survivor moves down
    /// by the number of deleted positions below it.
    pub fn delete(&mut self, indices: &[usize])
        requires
            old(self).wf(),
            strictly_increasing(indices@),
            forall|i: int| 0 <= i < indices@.len() ==> indices@[i] < old(self).spec_len(),
        ensures
            final(self).wf(),
            final(self).slots() == old(self).slots(),
            final(self).spec_len() == old(self).spec_len() - indices@.len(),
            forall|h: EntryRef|
                #![trigger final(self).order_of(h)]
                old(self).valid(h) ==> final(self).value_of(h) == old(self).value_of(h) && (
                match old(self).order_of(h) {
                    None => final(self).order_of(h) is None,
                    Some(k) => if indices@.contains(k) {
                        final(self).order_of(h) is None
                    } else {
                        final(self).order_of(h) == Some(
                            (k - count_below(indices@, k as int)) as usize,
                        )
                    },
                }),
    {
        let ghost old_list = *self;
        let mut new_items: Vec<usize> = Vec::new();
        let mut k: usize = 0;
        let mut p: usize = 0;
        let n = self.items.len();
        while k < n
            invariant
                n == old_list.items@.len(),
                self.items == old_list.items,
                self.entries@.len() == old_list.entries@.len(),
                old_list.wf(),
                strictly_increasing(indices@),
                forall|i: int| 0 <= i < indices@.len() ==> indices@[i] < n,
                0 <= p <= indices@.len(),
                k <= n,
                forall|i: int| 0 <= i < p ==> indices@[i] < k,
                p < indices@.len() ==> indices@[p as int] >= k,
                new_items@.len() == k - p,
                forall|j: int|
                    0 <= j < new_items@.len() ==> {
                        let id = (#[trigger] new_items@[j]) as int;
                        &&& 0 <= id < self.entries@.len()
                        &&& self.entries@[id].index == Some(j as usize)
                        &&& old_list.entries@[id].index matches Some(ok) && ok < k
                    },
                forall|id: int|
                    0 <= id < self.entries@.len() ==> match (#[trigger] self.entries@[id].index, old_list.entries@[id].index) {
                        (Some(j), Some(ok)) => ok < k ==> j < new_items@.len() && new_items@[j as int] == id,
                        _ => true,
                    },
                forall|id: int|
                    0 <= id < self.entries@.len() ==> {
                        &&& (#[trigger] self.entries@[id]).val == old_list.entries@[id].val
                        &&& match old_list.entries@[id].index {
                            None => self.entries@[id].index is None,
                            Some(ok) => if ok >= k {
                                self.entries@[id].index == Some(ok)
                            } else if indices@.contains(ok) {
                                self.entries@[id].index is None
                            } else {
                                self.entries@[id].index == Some(
                                    (ok - count_below(indices@, ok as int)) as usize,
                                )
                            },
                        }
                    },
            decreases n - k,
        {
            let id = self.items[k];
            proof {
                lemma_count_below_split(indices@, p as int, k as int);
            }
            if p < indices.len() && indices[p] == k {
                self.entries[id].index = None;
                p = p + 1;
            } else {
                proof {
                    lemma_not_contained(indices@, p as int, k);
                }
                let pos = new_items.len();
                self.entries[id].index = Some(pos);
                new_items.push(id);
            }
            k = k + 1;
        }
        proof {
            assert(p == indices@.len()) by {
                if p < indices@.len() {
                    assert(indices@[p as int] < n);
                }
            }
        }
        self.items = new_items;
    }

    /// Deletes the entry at position `index`.
    pub fn delete_one(&mut self, index: usize)
        requires
            old(self).wf(),
            index < old(self).spec_len(),
        ensures
            final(self).wf(),
            final(self).slots() == old(self).slots(),
            final(self).spec_len() == old(self).spec_len() - 1,
            forall|h: EntryRef|
                #![trigger final(self).order_of(h)]
                old(self).valid(h) ==> final(self).value_of(h) == old(self).value_of(h) && (
                match old(self).order_of(h) {
                    None => final(self).order_of(h) is None,
                    Some(k) => if k == index {
                        final(self).order_of(h) is None
                    } else if k < index {
                        final(self).order_of(h) == Some(k)
                    } else {
                        final(self).order_of(h) == Some((k - 1) as usize)
                    },
                }),
    {
        let v: Vec<usize> = vec![index];
        proof {
            assert(v@ =~= seq![index]);
            assert(v@.drop_last() =~= Seq::<usize>::empty());
            reveal_with_fuel(count_below, 2);
            assert forall|k: usize| k != index implies !v@.contains(k) && #[trigger] count_below(v@, k as int) == if k < index { 0nat } else { 1nat } by {
                if v@.contains(k) {
                    let i = choose|i: int| 0 <= i < v@.len() && v@[i] == k;
                    assert(v@[i] == index);
                }
            }
            assert(v@.contains(index)) by {
                assert(v@[0] == index);
            }
        }
        self.delete(v.as_slice());
    }

    /// A list holding copies of the items of `list`, in order.
    pub fn from_slice(list: &[T]) -> (r: Self)
        where
            T: Clone,
        ensures
            r.wf(),
            r.spec_len() == list@.len(),
            r.slots() == list@.len(),
            forall|i: int|
                0 <= i < list@.len() ==> r.at(i).spec_id() == i && r.order_of(r.at(i)) == Some(
                    i as usize,
                ) && cloned(list@[i], r.value_of(r.at(i))),
    {
        let mut res = Self::new();
        let mut i: usize = 0;
        while i < list.len()
            invariant
                res.wf(),
                i <= list@.len(),
                res.spec_len() == i,
                res.slots() == i,
                forall|j: int|
                    0 <= j < i ==> res.at(j).spec_id() == j && res.order_of(res.at(j)) == Some(
                        j as usize,
                    ) && cloned(list@[j], res.value_of(res.at(j))),
            decreases list@.len() - i,
        {
            let ghost r0 = res;
            let v = list[i].clone();
            let h = res.push(v);
            proof {
                assert forall|j: int| 0 <= j < i implies res.value_of(res.at(j)) == r0.value_of(r0.at(j)) by {
                    r0.lemma_at(j);
                    assert(res.order_of(r0.at(j)) == r0.order_of(r0.at(j)));
                }
            }
            i = i + 1;
        }
        res
    }
}

/// Positions to delete from a list, gathered before one deletion.
pub struct DeleteTransaction {
    deleted: Vec<usize>,
}

impl DeleteTransaction {
    pub closed spec fn spec_deleted(&self) -> Seq<usize> {
        self.deleted@
    }

    /// Adds position `idx` to the positions to delete.
    pub fn push(self, idx: usize) -> (r: Self)
        ensures
            r.spec_deleted() == self.spec_deleted().push(idx),
    {
        let mut tx = self;
        tx.deleted.push(idx);
        tx
    }

    /// Deletes the gathered positions from `list`, as `RefList::delete` does.
    pub fn done<T>(self, list: &mut RefList<T>)
        requires
            old(list).wf(),
            strictly_increasing(self.spec_deleted()),
            forall|i: int|
                0 <= i < self.spec_deleted().len() ==> self.spec_deleted()[i] < old(list).spec_len(),
        ensures
            final(list).wf(),
            final(list).slots() == old(list).slots(),
            final(list).spec_len() == old(list).spec_len() - self.spec_deleted().len(),
            forall|h: EntryRef|
                #![trigger final(list).order_of(h)]
                old(list).valid(h) ==> final(list).value_of(h) == old(list).value_of(h) && (
                match old(list).order_of(h) {
                    None => final(list).order_of(h) is None,
                    Some(k) => if self.spec_deleted().contains(k) {
                        final(list).order_of(h) is None
                    } else {
                        final(list).order_of(h) == Some(
                            (k - count_below(self.spec_deleted(), k as int)) as usize,
                        )
                    },
                }),
    {
        list.delete(self.deleted.as_slice());
    }
}

/// In a strictly increasing `s` whose first `p` elements lie below `k` and the
/// rest at or above it, `p` elements lie below `k`, and below `k + 1` one more
/// exactly when `s[p] == k`.
proof fn lemma_count_below_split(s: Seq<usize>, p: int, k: int)
    requires
        strictly_increasing(s),
        0 <= p <= s.len(),
        forall|i: int| 0 <= i < p ==> s[i] < k,
        p < s.len() ==> s[p] >= k,
    ensures
        count_below(s, k) == p,
        forall|j: int| #![trigger count_below(s, j)] j <= k ==> count_below(s, j) <= p,
    decreases s.len(),
{
    if s.len() > 0 {
        let t = s.drop_last();
        if p == s.len() {
            lemma_count_below_split(t, p - 1, k);
        } else {
            assert(s.last() >= k) by {
                if s.len() - 1 > p {
                    assert(s[p] < s[s.len() - 1]);
                }
            }
            lemma_count_below_split(t, p, k);
        }
        assert forall|j: int| #![trigger count_below(s, j)] j <= k implies count_below(s, j) <= p by {
            lemma_count_below_mono(s, j, k);
        }
    }
}

proof fn lemma_count_below_mono(s: Seq<usize>, j: int, k: int)
    requires
        j <= k,
    ensures
        count_below(s, j) <= count_below(s, k),
    decreases s.len(),
{
    if s.len() > 0 {
        lemma_count_below_mono(s.drop_last(), j, k);
    }
}

proof fn lemma_not_contained(s: Seq<usize>, p: int, k: usize)
    requires
        strictly_increasing(s),
        0 <= p <= s.len(),
        forall|i: int| 0 <= i < p ==> s[i] < k,
        p < s.len() ==> s[p] > k,
    ensures
        !s.contains(k),
{
    if s.contains(k) {
        let i = choose|i: int| 0 <= i < s.len() && s[i] == k;
        if i > p {
            assert(s[p] < s[i]);
        }
    }
}

} // verus!
