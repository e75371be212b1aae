//! A slot-reuse vector: the worker-slot bookkeeping primitive. Elements
//! are kept in option slots; an insert reuses the first free slot before
//! growing, and a drain removes exactly the elements a predicate selects,
//! leaving their slots free for reuse.

use vstd::prelude::*;

verus! {

/// How many slots of `s` are occupied.
pub open spec fn count_some<T>(s: Seq<Option<T>>) -> int
    decreases s.len(),
{
    if s.len() == 0 {
        0
    } else {
        count_some(s.drop_last()) + if s.last() is Some {
            1int
        } else {
            0int
        }
    }
}

pub proof fn lemma_count_some_nonneg<T>(s: Seq<Option<T>>)
    ensures
        count_some(s) >= 0,
    decreases s.len(),
{
    if s.len() > 0 {
        lemma_count_some_nonneg(s.drop_last());
    }
}

pub proof fn lemma_count_some_le_len<T>(s: Seq<Option<T>>)
    ensures
        count_some(s) <= s.len(),
    decreases s.len(),
{
    if s.len() > 0 {
        lemma_count_some_le_len(s.drop_last());
    }
}

pub proof fn lemma_count_some_push<T>(s: Seq<Option<T>>, v: Option<T>)
    ensures
        count_some(s.push(v)) == count_some(s) + if v is Some {
            1int
        } else {
            0int
        },
{
    assert(s.push(v).drop_last() =~= s);
}

pub proof fn lemma_count_some_update<T>(s: Seq<Option<T>>, i: int, v: Option<T>)
    requires
        0 <= i < s.len(),
    ensures
        count_some(s.update(i, v)) == count_some(s) - (if s[i] is Some {
            1int
        } else {
            0int
        }) + (if v is Some {
            1int
        } else {
            0int
        }),
    decreases s.len(),
{
    if i == s.len() - 1 {
        assert(s.update(i, v).drop_last() =~= s.drop_last());
    } else {
        assert(s.update(i, v).drop_last() =~= s.drop_last().update(i, v));
        lemma_count_some_update(s.drop_last(), i, v);
    }
}

/// A vector of reusable slots; the view is the slot sequence.
#[derive(Clone, Debug)]
pub struct SlotVec<T> {
    base: Vec<Option<T>>,
    len: usize,
}

impl<T> View for SlotVec<T> {
    type V = Seq<Option<T>>;

    closed spec fn view(&self) -> Seq<Option<T>> {
        self.base@
    }
}

impl<T> SlotVec<T> {
    /// The element counter matches the occupied slots.
    pub closed spec fn wf(&self) -> bool {
        self.len as int == count_some(self.base@)
    }

    /// How many elements are held.
    pub fn len(&self) -> (r: usize)
        requires
            self.wf(),
        ensures
            r as int == count_some(self@),
    {
        self.len
    }

    /// No element is held.
    pub fn is_empty(&self) -> (r: bool)
        requires
            self.wf(),
        ensures
            r == (count_some(self@) == 0),
    {
        self.len == 0
    }

    /// Stores an element in the first free slot, or in a fresh slot at
    /// the end if every slot is occupied. No held element is disturbed.
    pub fn insert(&mut self, elt: T) -> (at: usize)
        requires
            old(self).wf(),
            count_some(old(self)@) < usize::MAX,
        ensures
            final(self).wf(),
            count_some(final(self)@) == count_some(old(self)@) + 1,
            forall|i: int|
                0 <= i < old(self)@.len() && (#[trigger] old(self)@[i]) is Some
                    ==> final(self)@[i] == old(self)@[i],
            (at as int) < final(self)@.len(),
            old(self)@.len() <= at as int || old(self)@[at as int] is None,
            (final(self)@[at as int] matches Some(v) && v == elt),
    {
        let n = self.base.len();
        let mut i: usize = 0;
        while i < n
            invariant
                self.wf(),
                count_some(old(self)@) < usize::MAX,
                self.base@ == old(self)@,
                n == self.base@.len(),
                0 <= i <= n,
                forall|k: int| 0 <= k < i ==> (#[trigger] self.base@[k]) is Some,
            decreases n - i,
        {
            if self.base[i].is_none() {
                let ghost pre = self.base@;
                let _gone = self.base.remove(i);
                self.base.insert(i, Option::Some(elt));
                proof {
                    assert(self.base@ =~= pre.update(i as int, Option::Some(elt)));
                    lemma_count_some_update(pre, i as int, Option::Some(elt));
                    assert(old(self)@[i as int] is None);
                    assert((self@[i as int] matches Some(v) && v == elt));
                }
                self.len = self.len + 1;
                return i;
            }
            i += 1;
        }
        proof {
            lemma_count_some_push(self.base@, Option::Some(elt));
            lemma_count_some_le_len(self.base@);
        }
        self.base.push(Option::Some(elt));
        self.len = self.len + 1;
        n
    }

    /// Removes and returns exactly the elements the predicate selects,
    /// in slot order; every kept element stays in its slot, and the
    /// predicate was consulted for each held element.
    pub fn drain<F: Fn(&T) -> bool>(&mut self, f: F) -> (out: Vec<T>)
        requires
            old(self).wf(),
            forall|t: T| #[trigger] f.requires((&t,)),
        ensures
            final(self).wf(),
            final(self)@.len() == old(self)@.len(),
            count_some(final(self)@) + out@.len() == count_some(old(self)@),
            forall|i: int|
                0 <= i < final(self)@.len() ==> ((#[trigger] final(self)@[i]) is Some
                    ==> final(self)@[i] == old(self)@[i]
                    && f.ensures((&final(self)@[i]->0,), false)),
            forall|j: int| 0 <= j < out@.len() ==> f.ensures((&#[trigger] out@[j],), true),
    {
        let n = self.base.len();
        let mut out: Vec<T> = Vec::new();
        let mut i: usize = 0;
        while i < n
            invariant
                self.wf(),
                forall|t: T| #[trigger] f.requires((&t,)),
                n == self.base@.len(),
                n == old(self)@.len(),
                0 <= i <= n,
                count_some(self.base@) + out@.len() == count_some(old(self)@),
                forall|k: int| i <= k < n ==> self.base@[k] == old(self)@[k],
                forall|k: int|
                    0 <= k < i ==> ((#[trigger] self.base@[k]) is Some
                        ==> self.base@[k] == old(self)@[k]
                        && f.ensures((&self.base@[k]->0,), false)),
                forall|j: int| 0 <= j < out@.len() ==> f.ensures((&#[trigger] out@[j],), true),
            decreases n - i,
        {
            let ghost pre = self.base@;
            let slot = self.base.remove(i);
            match slot {
                Option::Some(v) => {
                    if f(&v) {
                        self.base.insert(i, Option::None);
                        out.push(v);
                        proof {
                            assert(self.base@ =~= pre.update(i as int, Option::None));
                            lemma_count_some_update::<T>(pre, i as int, Option::None);
                            lemma_count_some_nonneg(self.base@);
                        }
                        self.len = self.len - 1;
                    } else {
                        self.base.insert(i, Option::Some(v));
                        proof {
                            assert(self.base@ =~= pre);
                        }
                    }
                },
                Option::None => {
                    self.base.insert(i, Option::None);
                    proof {
                        assert(self.base@ =~= pre);
                    }
                },
            }
            i += 1;
        }
        out
    }
}

impl<T> Default for SlotVec<T> {
    /// An empty slot vector.
    fn default() -> (r: SlotVec<T>)
        ensures
            r.wf(),
            r@.len() == 0,
    {
        SlotVec { base: Vec::new(), len: 0 }
    }
}

} // verus!
