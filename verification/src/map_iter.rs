//! Iterators over the elements of a [`crate::map::HashMap`], in slot order.

use vstd::prelude::*;
use crate::table::{
    Bucket, pairs, slot_pairs, same_keys, lemma_pairs_front, lemma_pairs_back, lemma_pairs_concat,
    lemma_pairs_single, lemma_same_keys_concat, lemma_pairs_len,
};

verus! {

/// An iterator over the key-value pairs of a `HashMap`. Created by
/// [`crate::map::HashMap::iter`].
pub struct Iter<'a, K, V> {
    entries: &'a [Option<Bucket<K, V>>],
    pos: usize,
    end: usize,
    remain: usize,
}

impl<'a, K, V> View for Iter<'a, K, V> {
    type V = Seq<(K, V)>;

    /// The pairs not yet visited, in the order they will be visited.
    closed spec fn view(&self) -> Seq<(K, V)> {
        pairs(self.entries@.subrange(self.pos as int, self.end as int))
    }
}

impl<'a, K, V> Iter<'a, K, V> {
    pub closed spec fn wf(&self) -> bool {
        &&& self.pos <= self.end <= self.entries@.len()
        &&& self.remain == self@.len()
    }

    pub(crate) fn new(entries: &'a [Option<Bucket<K, V>>], remain: usize) -> (it: Iter<'a, K, V>)
        requires
            remain == pairs(entries@).len(),
        ensures
            it.wf(),
            it@ == pairs(entries@),
    {
        let it = Iter { entries, pos: 0, end: entries.len(), remain };
        assert(entries@.subrange(0, entries@.len() as int) =~= entries@);
        it
    }

    /// Visits the next pair.
    pub fn next(&mut self) -> (r: Option<(&'a K, &'a V)>)
        requires
            old(self).wf(),
        ensures
            final(self).wf(),
            old(self)@.len() == 0 ==> r is None && final(self)@ == old(self)@,
            old(self)@.len() > 0 ==> (r matches Some((k, v)) && *k == old(self)@[0].0 && *v
                == old(self)@[0].1 && final(self)@ == old(self)@.drop_first()),
    {
        if self.remain == 0 {
            return None;
        }
        let entries = self.entries;
        let ghost s = entries@;
        let ghost target = self@;
        loop
            invariant
                self.entries == entries,
                s == entries@,
                self.pos <= self.end <= s.len(),
                self.remain == target.len() > 0,
                self@ == target,
                target == old(self)@,
            decreases self.end - self.pos,
        {
            if self.pos >= self.end {
                return None;
            }
            let p = self.pos;
            proof {
                lemma_pairs_front(s, p as int, self.end as int);
            }
            self.pos = p + 1;
            match &entries[p] {
                Some(b) => {
                    self.remain -= 1;
                    proof {
                        assert(target =~= seq![(b.key, b.value)] + self@);
                        assert(self@ =~= target.drop_first());
                    }
                    return Some((&b.key, &b.value));
                },
                None => {
                    proof {
                        assert(target =~= self@);
                    }
                },
            }
        }
    }

    /// The number of pairs left to visit, as lower and upper bound.
    pub fn size_hint(&self) -> (r: (usize, Option<usize>))
        requires
            self.wf(),
        ensures
            r == (self@.len() as usize, Some(self@.len() as usize)),
    {
        (self.remain, Some(self.remain))
    }

    /// The number of pairs left to visit.
    pub fn count(self) -> (r: usize)
        requires
            self.wf(),
        ensures
            r == self@.len(),
    {
        self.remain
    }

    /// The number of pairs left to visit.
    pub fn len(&self) -> (r: usize)
        requires
            self.wf(),
        ensures
            r == self@.len(),
    {
        self.remain
    }

    /// The last pair that would be visited.
    pub fn last(self) -> (r: Option<(&'a K, &'a V)>)
        requires
            self.wf(),
        ensures
            self@.len() == 0 ==> r is None,
            self@.len() > 0 ==> (r matches Some((k, v)) && *k == self@.last().0 && *v
                == self@.last().1),
    {
        if self.remain == 0 {
            return None;
        }
        let entries = self.entries;
        let ghost s = entries@;
        let pos = self.pos;
        let mut end = self.end;
        loop
            invariant
                s == entries@,
                pos <= end <= s.len(),
                self@.len() > 0,
                pairs(s.subrange(pos as int, end as int)).len() > 0,
                pairs(s.subrange(pos as int, end as int)).last() == self@.last(),
            decreases end,
        {
            if end <= pos {
                assert(s.subrange(pos as int, end as int).len() == 0);
                assert(false);
                return None;
            }
            proof {
                lemma_pairs_back(s, pos as int, end as int);
            }
            end -= 1;
            match &entries[end] {
                Some(b) => {
                    return Some((&b.key, &b.value));
                },
                None => {
                    proof {
                        assert(pairs(s.subrange(pos as int, end + 1)) =~= pairs(
                            s.subrange(pos as int, end as int),
                        ));
                    }
                },
            }
        }
    }
}

/// An iterator over the keys of a `HashMap`. Created by
/// [`crate::map::HashMap::keys`].
pub struct Keys<'a, K, V> {
    inner: Iter<'a, K, V>,
}

impl<'a, K, V> View for Keys<'a, K, V> {
    type V = Seq<(K, V)>;

    closed spec fn view(&self) -> Seq<(K, V)> {
        self.inner@
    }
}

impl<'a, K, V> Keys<'a, K, V> {
    pub closed spec fn wf(&self) -> bool {
        self.inner.wf()
    }

    pub(crate) fn new(inner: Iter<'a, K, V>) -> (it: Keys<'a, K, V>)
        requires
            inner.wf(),
        ensures
            it.wf(),
            it@ == inner@,
    {
        Keys { inner }
    }

    /// Visits the next key.
    pub fn next(&mut self) -> (r: Option<&'a K>)
        requires
            old(self).wf(),
        ensures
            final(self).wf(),
            old(self)@.len() == 0 ==> r is None && final(self)@ == old(self)@,
            old(self)@.len() > 0 ==> (r matches Some(k) && *k == old(self)@[0].0 && final(self)@
                == old(self)@.drop_first()),
    {
        match self.inner.next() {
            Some((k, _)) => Some(k),
            None => None,
        }
    }

    pub fn size_hint(&self) -> (r: (usize, Option<usize>))
        requires
            self.wf(),
        ensures
            r == (self@.len() as usize, Some(self@.len() as usize)),
    {
        self.inner.size_hint()
    }

    pub fn count(self) -> (r: usize)
        requires
            self.wf(),
        ensures
            r == self@.len(),
    {
        self.inner.count()
    }

    pub fn len(&self) -> (r: usize)
        requires
            self.wf(),
        ensures
            r == self@.len(),
    {
        self.inner.len()
    }

    /// The last key that would be visited.
    pub fn last(self) -> (r: Option<&'a K>)
        requires
            self.wf(),
        ensures
            self@.len() == 0 ==> r is None,
            self@.len() > 0 ==> (r matches Some(k) && *k == self@.last().0),
    {
        match self.inner.last() {
            Some((k, _)) => Some(k),
            None => None,
        }
    }
}

/// An iterator over the values of a `HashMap`. Created by
/// [`crate::map::HashMap::values`].
pub struct Values<'a, K, V> {
    inner: Iter<'a, K, V>,
}

impl<'a, K, V> View for Values<'a, K, V> {
    type V = Seq<(K, V)>;

    closed spec fn view(&self) -> Seq<(K, V)> {
        self.inner@
    }
}

impl<'a, K, V> Values<'a, K, V> {
    pub closed spec fn wf(&self) -> bool {
        self.inner.wf()
    }

    pub(crate) fn new(inner: Iter<'a, K, V>) -> (it: Values<'a, K, V>)
        requires
            inner.wf(),
        ensures
            it.wf(),
            it@ == inner@,
    {
        Values { inner }
    }

    /// Visits the next value.
    pub fn next(&mut self) -> (r: Option<&'a V>)
        requires
            old(self).wf(),
        ensures
            final(self).wf(),
            old(self)@.len() == 0 ==> r is None && final(self)@ == old(self)@,
            old(self)@.len() > 0 ==> (r matches Some(v) && *v == old(self)@[0].1 && final(self)@
                == old(self)@.drop_first()),
    {
        match self.inner.next() {
            Some((_, v)) => Some(v),
            None => None,
        }
    }

    pub fn size_hint(&self) -> (r: (usize, Option<usize>))
        requires
            self.wf(),
        ensures
            r == (self@.len() as usize, Some(self@.len() as usize)),
    {
        self.inner.size_hint()
    }

    pub fn count(self) -> (r: usize)
        requires
            self.wf(),
        ensures
            r == self@.len(),
    {
        self.inner.count()
    }

    pub fn len(&self) -> (r: usize)
        requires
            self.wf(),
        ensures
            r == self@.len(),
    {
        self.inner.len()
    }

    /// The last value that would be visited.
    pub fn last(self) -> (r: Option<&'a V>)
        requires
            self.wf(),
        ensures
            self@.len() == 0 ==> r is None,
            self@.len() > 0 ==> (r matches Some(v) && *v == self@.last().1),
    {
        match self.inner.last() {
            Some((_, v)) => Some(v),
            None => None,
        }
    }
}

/// An owning iterator over the key-value pairs of a `HashMap`. Created by
/// [`crate::map::HashMap::into_iter`].
pub struct IntoIter<K, V> {
    entries: Vec<Option<Bucket<K, V>>>,
    pos: usize,
    end: usize,
    remain: usize,
}

impl<K, V> View for IntoIter<K, V> {
    type V = Seq<(K, V)>;

    closed spec fn view(&self) -> Seq<(K, V)> {
        pairs(self.entries@.subrange(self.pos as int, self.end as int))
    }
}

impl<K: Copy, V: Clone> IntoIter<K, V> {
    /// An iterator over copies of the pairs not yet visited: the same keys in
    /// the same order, each with a clone of its value.
    pub fn clone(&self) -> (r: IntoIter<K, V>)
        requires
            self.wf(),
        ensures
            r.wf(),
            r@.len() == self@.len(),
            forall|i: int| 0 <= i < self@.len() ==> (#[trigger] r@[i]).0 == self@[i].0 && cloned::<V>(
                self@[i].1,
                r@[i].1,
            ),
    {
        let ghost s = self.entries@;
        let mut out: Vec<Option<Bucket<K, V>>> = Vec::new();
        let mut p = self.pos;
        let mut n: usize = 0;
        proof {
            assert(s.subrange(self.pos as int, p as int) =~= Seq::<Option<Bucket<K, V>>>::empty());
            assert(pairs(s.subrange(self.pos as int, p as int)) =~= Seq::<(K, V)>::empty());
            assert(pairs(out@) =~= Seq::<(K, V)>::empty());
        }
        while p < self.end
            invariant
                s == self.entries@,
                self.wf(),
                self.pos <= p <= self.end,
                n == pairs(out@).len(),
                n <= p - self.pos,
                pairs(out@).len() == pairs(s.subrange(self.pos as int, p as int)).len(),
                forall|i: int|
                    0 <= i < pairs(out@).len() ==> (#[trigger] pairs(out@)[i]).0 == pairs(
                        s.subrange(self.pos as int, p as int),
                    )[i].0 && cloned::<V>(pairs(s.subrange(self.pos as int, p as int))[i].1, pairs(out@)[i].1),
            decreases self.end - p,
        {
            let ghost before = out@;
            proof {
                lemma_pairs_back(s, self.pos as int, p + 1);
                lemma_pairs_concat(before, seq![s[p as int]]);
            }
            match &self.entries[p] {
                Some(b) => {
                    let v = b.value.clone();
                    out.push(Some(Bucket { key: b.key, value: v, hash: b.hash }));
                    n = n + 1;
                    proof {
                        assert(out@ =~= before + seq![out@[before.len() as int]]);
                        lemma_pairs_concat(before, seq![out@[before.len() as int]]);
                        lemma_pairs_single(out@[before.len() as int]);
                        lemma_pairs_single(s[p as int]);
                    }
                },
                None => {
                    proof {
                        lemma_pairs_single(s[p as int]);
                    }
                },
            }
            p = p + 1;
        }
        proof {
            lemma_pairs_len(out@);
        }
        IntoIter::new(out, n)
    }
}

impl<K, V> IntoIter<K, V> {
    pub closed spec fn wf(&self) -> bool {
        &&& self.pos <= self.end <= self.entries@.len()
        &&& self.remain == self@.len()
    }

    pub(crate) fn new(entries: Vec<Option<Bucket<K, V>>>, remain: usize) -> (it: IntoIter<K, V>)
        requires
            remain == pairs(entries@).len(),
        ensures
            it.wf(),
            it@ == pairs(entries@),
    {
        let end = entries.len();
        let it = IntoIter { entries, pos: 0, end, remain };
        assert(it.entries@.subrange(0, end as int) =~= it.entries@);
        it
    }

    /// Moves out the next pair.
    pub fn next(&mut self) -> (r: Option<(K, V)>)
        requires
            old(self).wf(),
        ensures
            final(self).wf(),
            old(self)@.len() == 0 ==> r is None && final(self)@ == old(self)@,
            old(self)@.len() > 0 ==> r == Some(old(self)@[0]) && final(self)@ == old(
                self,
            )@.drop_first(),
    {
        if self.remain == 0 {
            return None;
        }
        let ghost target = self@;
        loop
            invariant
                self.pos <= self.end <= self.entries@.len(),
                self.remain == target.len() > 0,
                self@ == target,
                target == old(self)@,
            decreases self.end - self.pos,
        {
            if self.pos >= self.end {
                return None;
            }
            let p = self.pos;
            let ghost s = self.entries@;
            proof {
                lemma_pairs_front(s, p as int, self.end as int);
            }
            let mut slot: Option<Bucket<K, V>> = None;
            std::mem::swap(&mut self.entries[p], &mut slot);
            self.pos = p + 1;
            proof {
                assert(self.entries@.subrange(p + 1, self.end as int) =~= s.subrange(
                    p + 1,
                    self.end as int,
                ));
            }
            match slot {
                Some(b) => {
                    self.remain -= 1;
                    proof {
                        assert(target =~= seq![(b.key, b.value)] + self@);
                        assert(self@ =~= target.drop_first());
                    }
                    return Some((b.key, b.value));
                },
                None => {
                    proof {
                        assert(target =~= self@);
                    }
                },
            }
        }
    }

    pub fn size_hint(&self) -> (r: (usize, Option<usize>))
        requires
            self.wf(),
        ensures
            r == (self@.len() as usize, Some(self@.len() as usize)),
    {
        (self.remain, Some(self.remain))
    }

    pub fn count(self) -> (r: usize)
        requires
            self.wf(),
        ensures
            r == self@.len(),
    {
        self.remain
    }

    pub fn len(&self) -> (r: usize)
        requires
            self.wf(),
        ensures
            r == self@.len(),
    {
        self.remain
    }

    /// Moves out the last pair that would be visited.
    pub fn last(self) -> (r: Option<(K, V)>)
        requires
            self.wf(),
        ensures
            self@.len() == 0 ==> r is None,
            self@.len() > 0 ==> r == Some(self@.last()),
    {
        if self.remain == 0 {
            return None;
        }
        let ghost whole = self@;
        let mut entries = self.entries;
        let ghost s = entries@;
        let pos = self.pos;
        let mut end = self.end;
        loop
            invariant
                s.len() == entries@.len(),
                pos <= end <= s.len(),
                forall|j: int| 0 <= j < end ==> entries@[j] == s[j],
                whole == self@,
                whole.len() > 0,
                pairs(s.subrange(pos as int, end as int)).len() > 0,
                pairs(s.subrange(pos as int, end as int)).last() == whole.last(),
            decreases end,
        {
            if end <= pos {
                assert(s.subrange(pos as int, end as int).len() == 0);
                assert(false);
                return None;
            }
            proof {
                lemma_pairs_back(s, pos as int, end as int);
            }
            end -= 1;
            let mut slot: Option<Bucket<K, V>> = None;
            std::mem::swap(&mut entries[end], &mut slot);
            match slot {
                Some(b) => {
                    return Some((b.key, b.value));
                },
                None => {
                    proof {
                        assert(pairs(s.subrange(pos as int, end + 1)) =~= pairs(
                            s.subrange(pos as int, end as int),
                        ));
                    }
                },
            }
        }
    }
}

/// An iterator over the key-value pairs of a `HashMap`, with mutable
/// references to the values. Created by [`crate::map::HashMap::iter_mut`].
///
/// `slots` is the part of the table not yet visited. What is written through
/// the handed-out references reaches the table: the final value of `slots`
/// is the final value of the part of the table it was taken from.
pub struct IterMut<'a, K, V> {
    pub slots: &'a mut [Option<Bucket<K, V>>],
    pub remain: usize,
}

impl<'a, K, V> View for IterMut<'a, K, V> {
    type V = Seq<(K, V)>;

    /// The pairs not yet visited, in the order they will be visited.
    closed spec fn view(&self) -> Seq<(K, V)> {
        pairs(self.slots@)
    }
}

impl<'a, K, V> IterMut<'a, K, V> {
    pub closed spec fn wf(&self) -> bool {
        self.remain == self@.len()
    }

    pub(crate) fn new(slots: &'a mut [Option<Bucket<K, V>>], remain: usize) -> (it: IterMut<'a, K, V>)
        requires
            remain == pairs(old(slots)@).len(),
        ensures
            it.wf(),
            it@ == pairs(old(slots)@),
            it.slots@ == old(slots)@,
            final(it.slots)@ == final(slots)@,
    {
        IterMut { slots, remain }
    }

    /// Visits the next pair.
    pub fn next(&mut self) -> (r: Option<(&'a K, &'a mut V)>)
        requires
            old(self).wf(),
        ensures
            final(self).wf(),
            old(self)@.len() == 0 ==> r is None && *final(self) == *old(self),
            old(self)@.len() > 0 ==> (r matches Some((k, v)) && *k == old(self)@[0].0 && *v
                == old(self)@[0].1 && final(self)@ == old(self)@.drop_first()
                && pairs(final(old(self).slots)@) == seq![(*k, *final(v))] + pairs(
                final(final(self).slots)@,
            ) && (same_keys(final(self).slots@, final(final(self).slots)@) ==> same_keys(
                old(self).slots@,
                final(old(self).slots)@,
            ))),
    {
        if self.remain == 0 {
            return None;
        }
        let ghost target = self@;
        loop
            invariant
                self.remain == target.len() > 0,
                self@ == target,
                target == old(self)@,
                pairs(final(old(self).slots)@) == pairs(final(self.slots)@),
                same_keys(self.slots@, final(self.slots)@) ==> same_keys(
                    old(self).slots@,
                    final(old(self).slots)@,
                ),
            decreases self.slots@.len(),
        {
            if self.slots.len() == 0 {
                proof {
                    assert(self.slots@ =~= Seq::<Option<Bucket<K, V>>>::empty());
                }
                return None;
            }
            let mut slice: &'a mut [Option<Bucket<K, V>>] = &mut [];
            std::mem::swap(&mut self.slots, &mut slice);
            let ghost whole = slice@;
            let ghost whole_final = final(slice)@;
            let (first, rest) = slice.split_at_mut(1);
            proof {
                assert(whole =~= first@ + rest@);
                lemma_pairs_concat(first@, rest@);
                lemma_pairs_concat(final(first)@, final(rest)@);
                lemma_pairs_single(first@[0]);
                assert(first@ =~= seq![first@[0]]);
            }
            self.slots = rest;
            let ghost ff = final(first)@;
            let ghost f0 = first@;
            match first.first_mut() {
                Some(Some(b)) => {
                    let Bucket { key, value, hash: _ } = b;
                    let key: &'a K = key;
                    self.remain = self.remain - 1;
                    proof {
                        assert(ff.len() == 1);
                        lemma_pairs_single(ff[0]);
                        assert(ff =~= seq![ff[0]]);
                        assert(ff[0] is Some);
                        assert(ff[0]->Some_0.key == *key);
                        assert(ff[0]->Some_0.value == *final(value));
                        assert(ff[0]->Some_0.hash == f0[0]->Some_0.hash);
                        assert(target =~= seq![(*key, *value)] + self@);
                        assert(self@ =~= target.drop_first());
                        assert(same_keys(f0, ff));
                        lemma_same_keys_concat(f0, self.slots@, ff, final(self.slots)@);
                    }
                    return Some((key, value));
                },
                _ => {
                    proof {
                        assert(ff.len() == 1);
                        lemma_pairs_single(ff[0]);
                        assert(ff =~= seq![ff[0]]);
                        assert(ff[0] is None);
                        assert(target =~= self@);
                        assert(same_keys(f0, ff));
                        lemma_same_keys_concat(f0, self.slots@, ff, final(self.slots)@);
                    }
                },
            }
        }
    }

    /// The number of pairs left to visit.
    pub fn count(self) -> (r: usize)
        requires
            self.wf(),
        ensures
            r == self@.len(),
    {
        self.remain
    }

    /// The last pair that would be visited. The pairs before it keep their
    /// values.
    pub fn last(self) -> (r: Option<(&'a K, &'a mut V)>)
        requires
            self.wf(),
        ensures
            self@.len() == 0 ==> r is None,
            self@.len() > 0 ==> (r matches Some((k, v)) && *k == self@.last().0 && *v
                == self@.last().1 && pairs(final(self.slots)@) == self@.drop_last().push(
                (*k, *final(v)),
            ) && same_keys(old(self.slots)@, final(self.slots)@)),
    {
        if self.remain == 0 {
            return None;
        }
        let ghost whole = self.slots@;
        let ghost target = self@;
        let mut slice = self.slots;
        loop
            invariant
                target == pairs(whole),
                target == self@,
                whole == old(self.slots)@,
                target.len() > 0,
                slice@.len() <= whole.len(),
                slice@ == whole.subrange(0, slice@.len() as int),
                pairs(slice@).len() > 0,
                pairs(slice@).last() == target.last(),
                pairs(whole) == pairs(slice@) + pairs(whole.subrange(slice@.len() as int, whole.len() as int)),
                pairs(whole.subrange(slice@.len() as int, whole.len() as int)).len() == 0,
                final(self.slots)@ == final(slice)@ + whole.subrange(slice@.len() as int, whole.len() as int),
            decreases slice@.len(),
        {
            let n = slice.len();
            if n == 0 {
                proof {
                    assert(slice@ =~= Seq::<Option<Bucket<K, V>>>::empty());
                }
                return None;
            }
            let ghost sv = slice@;
            let (front, back) = slice.split_at_mut(n - 1);
            proof {
                assert(sv =~= front@ + back@);
                lemma_pairs_concat(front@, back@);
                lemma_pairs_single(back@[0]);
                assert(back@ =~= seq![back@[0]]);
            }
            let ghost bf = final(back)@;
            let ghost b0 = back@;
            match back.first_mut() {
                Some(Some(b)) => {
                    let Bucket { key, value, hash: _ } = b;
                    let key: &'a K = key;
                    proof {
                        assert(bf.len() == 1);
                        lemma_pairs_single(bf[0]);
                        assert(bf =~= seq![bf[0]]);
                        lemma_pairs_concat(final(front)@, bf);
                        assert(pairs(whole.subrange(n as int, whole.len() as int)) =~= Seq::<(K, V)>::empty());
                        assert(target =~= pairs(front@).push((*key, *value)));
                        assert(target.drop_last() =~= pairs(front@));
                        lemma_pairs_concat(front@ + bf, whole.subrange(n as int, whole.len() as int));
                        assert(final(self.slots)@ =~= (front@ + bf) + whole.subrange(n as int, whole.len() as int));
                        assert(pairs(front@ + bf) =~= pairs(front@).push((*key, *final(value))));
                        assert(pairs(final(self.slots)@) =~= target.drop_last().push((*key, *final(value))));
                        assert(final(self.slots)@ =~= whole.update(n - 1, bf[0]));
                        assert(same_keys(whole, final(self.slots)@));
                    }
                    return Some((key, value));
                },
                _ => {
                    proof {
                        assert(bf.len() == 1);
                        assert(bf[0] is None);
                        assert(bf =~= b0);
                        lemma_pairs_concat(whole.subrange(n - 1, n as int), whole.subrange(n as int, whole.len() as int));
                        assert(whole.subrange(n - 1, whole.len() as int) =~= whole.subrange(n - 1, n as int) + whole.subrange(n as int, whole.len() as int));
                        assert(whole.subrange(n - 1, n as int) =~= b0);
                        assert(whole.subrange(0, n - 1) =~= front@);
                    }
                    slice = front;
                },
            }
        }
    }

    /// The number of pairs left to visit, as lower and upper bound.
    pub fn size_hint(&self) -> (r: (usize, Option<usize>))
        requires
            self.wf(),
        ensures
            r == (self@.len() as usize, Some(self@.len() as usize)),
    {
        (self.remain, Some(self.remain))
    }

    /// The number of pairs left to visit.
    pub fn len(&self) -> (r: usize)
        requires
            self.wf(),
        ensures
            r == self@.len(),
    {
        self.remain
    }
}

/// An iterator over mutable references to the values of a `HashMap`. Created
/// by [`crate::map::HashMap::values_mut`].
pub struct ValuesMut<'a, K, V> {
    pub inner: IterMut<'a, K, V>,
}

impl<'a, K, V> View for ValuesMut<'a, K, V> {
    type V = Seq<(K, V)>;

    /// The pairs whose values are not yet visited, in visiting order.
    closed spec fn view(&self) -> Seq<(K, V)> {
        self.inner@
    }
}

impl<'a, K, V> ValuesMut<'a, K, V> {
    pub closed spec fn wf(&self) -> bool {
        self.inner.wf() && self@ == self.inner@
    }

    pub(crate) fn new(inner: IterMut<'a, K, V>) -> (it: ValuesMut<'a, K, V>)
        requires
            inner.wf(),
        ensures
            it.wf(),
            it@ == inner@,
            it.inner == inner,
    {
        ValuesMut { inner }
    }

    /// Visits the next value.
    pub fn next(&mut self) -> (r: Option<&'a mut V>)
        requires
            old(self).wf(),
        ensures
            final(self).wf(),
            old(self)@.len() == 0 ==> r is None && *final(self) == *old(self),
            old(self)@.len() > 0 ==> (r matches Some(v) && *v == old(self)@[0].1 && final(self)@
                == old(self)@.drop_first() && pairs(final(old(self).inner.slots)@) == seq![
                (old(self)@[0].0, *final(v)),
            ] + pairs(final(final(self).inner.slots)@) && (same_keys(
                final(self).inner.slots@,
                final(final(self).inner.slots)@,
            ) ==> same_keys(old(self).inner.slots@, final(old(self).inner.slots)@))),
    {
        match self.inner.next() {
            Some((_, v)) => Some(v),
            None => None,
        }
    }

    /// The number of values left to visit.
    pub fn count(self) -> (r: usize)
        requires
            self.wf(),
        ensures
            r == self@.len(),
    {
        self.inner.count()
    }

    /// The last value that would be visited; the values before it keep theirs.
    pub fn last(self) -> (r: Option<&'a mut V>)
        requires
            self.wf(),
        ensures
            self@.len() == 0 ==> r is None,
            self@.len() > 0 ==> (r matches Some(v) && *v == self@.last().1 && pairs(
                final(self.inner.slots)@,
            ) == self@.drop_last().push((self@.last().0, *final(v))) && same_keys(
                old(self.inner.slots)@,
                final(self.inner.slots)@,
            )),
    {
        match self.inner.last() {
            Some((_, v)) => Some(v),
            None => None,
        }
    }

    /// The number of values left to visit, as lower and upper bound.
    pub fn size_hint(&self) -> (r: (usize, Option<usize>))
        requires
            self.wf(),
        ensures
            r == (self@.len() as usize, Some(self@.len() as usize)),
    {
        self.inner.size_hint()
    }

    /// The number of values left to visit.
    pub fn len(&self) -> (r: usize)
        requires
            self.wf(),
        ensures
            r == self@.len(),
    {
        self.inner.len()
    }
}

} // verus!
