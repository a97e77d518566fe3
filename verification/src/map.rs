//! A hash map implemented with linear probing and Robin Hood hashing.

use vstd::prelude::*;
use vstd::arithmetic::power2::{pow2, lemma_pow2_unfold, lemma_pow2_strictly_increases};
use vstd::arithmetic::div_mod::lemma_mod_add_multiples_vanish;
use crate::key::MapKey;
use crate::random_state::{RandomState, hash_of};
use crate::map_iter::{Iter, Keys, Values, IntoIter, IterMut, ValuesMut};
use crate::table::{
    Bucket, is_pow2, home, at, occ, bkt, disp, has_key_at, keys_distinct, rh_ok, hashes_ok,
    contains, contents, count_occ, lemma_mask_is_mod, lemma_at_facts, lemma_at_disp,
    lemma_absent, lemma_dom_len, lemma_count_bound, lemma_unique, prv, nxt, lemma_nxt_prv,
    rh_at, pairs, same_keys, lemma_same_keys_shape, lemma_pairs_len, lemma_pairs_contents, lemma_shift_below, with_value, lemma_set_value, shift_seq, lemma_swap, lemma_rh_shift, lemma_take, lemma_at_inj, lemma_prefix_step, lemma_prefix_count, lemma_rh_put, lemma_hashes_put, lemma_put_empty, lemma_put_evict, lemma_put_same_key,
};

verus! {

/// The largest table a map may have: a slot takes at least sixteen bytes and
/// no allocation spans more than half the address space.
pub open spec fn max_capacity() -> int {
    usize::MAX as int / 32
}

/// A table grown for `cap` elements fits in memory.
pub open spec fn table_fits(cap: int) -> bool {
    &&& cap <= max_capacity()
    &&& forall|r: int| capacity_for(cap, r) ==> r <= max_capacity()
}

/// The number of slots that a table grown for `cap` elements has: none for
/// none, at least 32, and otherwise the least power of two that holds `cap`.
pub open spec fn capacity_for(cap: int, r: int) -> bool {
    if cap == 0 {
        r == 0
    } else if cap < 32 {
        r == 32
    } else {
        is_pow2(r) && cap <= r < 2 * cap
    }
}

/// The number of elements a table of `cap` slots holds before it grows
/// (about nine tenths).
pub open spec fn load_capacity_spec(cap: int) -> int {
    cap - cap / 8
}

/// The number of slots a table that must hold `cap` elements is resized to:
/// the table grown for `cap`, doubled if `cap` would already make it grow.
pub open spec fn resize_for(cap: int, r: int) -> bool {
    exists|n: int|
        capacity_for(cap, n) && r == (if cap > load_capacity_spec(n) {
            2 * n
        } else {
            n
        })
}

/// A table size that tables are made with: none, or a power of two of at least 32.
pub open spec fn valid_capacity(r: int) -> bool {
    r == 0 || (32 <= r && is_pow2(r))
}

/// The most elements a map can hold: growing a table of more elements would
/// need a table larger than [`max_capacity`].
pub open spec fn max_len() -> int {
    usize::MAX as int / 80
}

/// A valid table size is the size grown for itself.
proof fn lemma_capacity_for_valid(r: int)
    requires
        valid_capacity(r),
    ensures
        capacity_for(r, r),
{
}

/// The elements of `v` in reverse order.
fn reversed<T>(v: Vec<T>) -> (r: Vec<T>)
    ensures
        r@ == v@.reverse(),
{
    let ghost all = v@;
    let mut v = v;
    let mut r: Vec<T> = Vec::new();
    while v.len() > 0
        invariant
            v@.len() <= all.len(),
            v@ == all.subrange(0, v@.len() as int),
            r@ == all.subrange(v@.len() as int, all.len() as int).reverse(),
        decreases v@.len(),
    {
        let ghost k = v@.len() as int;
        let ghost r0 = r@;
        let x = v.pop().unwrap();
        r.push(x);
        proof {
            assert(x == all[k - 1]);
            let want = all.subrange(k - 1, all.len() as int).reverse();
            assert forall|j: int| 0 <= j < r@.len() implies r@[j] == want[j] by {
                if j < r0.len() {
                    assert(r@[j] == r0[j]);
                }
            }
            assert(r@ =~= want);
            assert(v@ =~= all.subrange(0, k - 1));
        }
    }
    assert(all.subrange(0, all.len() as int) =~= all);
    r
}

/// The number of slots after an insertion into a table of `cap` slots holding
/// `len` elements: a first table of 32 slots, or twice the slots once the
/// table holds more than its load capacity, or no change.
pub open spec fn grown_capacity(cap: int, len: int) -> int {
    if cap == 0 {
        32
    } else if len > load_capacity_spec(cap) {
        2 * cap
    } else {
        cap
    }
}

/// The map after inserting each pair of `items` in order.
pub open spec fn insert_all<K, V>(m: Map<K, V>, items: Seq<(K, V)>) -> Map<K, V>
    decreases items.len(),
{
    if items.len() == 0 {
        m
    } else {
        insert_all(m, items.drop_last()).insert(items.last().0, items.last().1)
    }
}

proof fn lemma_insert_all_step<K, V>(m: Map<K, V>, items: Seq<(K, V)>, i: int)
    requires
        0 <= i < items.len(),
    ensures
        insert_all(m, items.subrange(0, i + 1)) == insert_all(m, items.subrange(0, i)).insert(
            items[i].0,
            items[i].1,
        ),
{
    assert(items.subrange(0, i + 1).drop_last() =~= items.subrange(0, i));
}

/// Every element count up to the map limit has a table that fits.
proof fn lemma_table_fits_small(cap: int)
    requires
        0 <= cap < max_len(),
    ensures
        table_fits(cap),
{
}

/// Only one table size is grown for a given element count.
proof fn lemma_capacity_for_unique(cap: int, r1: int, r2: int)
    requires
        capacity_for(cap, r1),
        capacity_for(cap, r2),
    ensures
        r1 == r2,
{
    if cap >= 32 {
        let a = choose|k: nat| pow2(k) == r1;
        let b = choose|k: nat| pow2(k) == r2;
        if a < b {
            lemma_pow2_strictly_increases(a, b);
            lemma_pow2_unfold(a + 1);
            if a + 1 < b {
                lemma_pow2_strictly_increases(a + 1, b);
            }
        } else if b < a {
            lemma_pow2_strictly_increases(b, a);
            lemma_pow2_unfold(b + 1);
            if b + 1 < a {
                lemma_pow2_strictly_increases(b + 1, a);
            }
        }
    }
}

/// Twice a power of two is a power of two.
proof fn lemma_pow2_double(r: int)
    requires
        is_pow2(r),
    ensures
        is_pow2(2 * r),
{
    let k = choose|k: nat| pow2(k) == r;
    lemma_pow2_unfold(k + 1);
    assert(pow2(k + 1) == 2 * r);
}

/// The least power of two that is at least `n`.
fn next_power_of_two(n: usize) -> (r: usize)
    requires
        1 <= n <= usize::MAX / 4,
    ensures
        is_pow2(r as int),
        n <= r < 2 * n,
{
    let mut p: usize = 1;
    let ghost mut k: nat = 0;
    assert(pow2(0) == 1) by {
        vstd::arithmetic::power2::lemma2_to64();
    }
    while p < n
        invariant
            p == pow2(k),
            1 <= p < 2 * n,
            n <= usize::MAX / 4,
        decreases 2 * n - p,
    {
        p = p * 2;
        proof {
            lemma_pow2_unfold(k + 1);
            k = k + 1;
        }
    }
    assert(pow2(k) == p);
    p
}

fn calculate_capacity(cap: usize) -> (r: usize)
    requires
        cap <= usize::MAX / 4,
    ensures
        capacity_for(cap as int, r as int),
{
    if cap == 0 {
        0
    } else if cap < 32 {
        32
    } else {
        next_power_of_two(cap)
    }
}

fn load_capacity(cap: usize) -> (r: usize)
    ensures
        r == load_capacity_spec(cap as int),
{
    cap - cap / 8
}

fn resize_capacity(cap: usize) -> (r: usize)
    requires
        cap <= max_len(),
    ensures
        resize_for(cap as int, r as int),
        valid_capacity(r as int),
        cap <= load_capacity_spec(r as int),
        7 * r <= 16 * cap + 448,
{
    let mut new_size = calculate_capacity(cap);
    let ghost n = new_size as int;
    proof {
        vstd::arithmetic::power2::lemma2_to64();
        assert(pow2(5) == 32);
    }
    if cap > load_capacity(new_size) {
        proof {
            lemma_pow2_double(n);
        }
        new_size *= 2;
    }
    assert(capacity_for(cap as int, n));
    new_size
}

/// Exchanges two slots of a table.
fn swap_slots<T>(v: &mut Vec<Option<T>>, i: usize, j: usize)
    requires
        i < old(v)@.len(),
        j < old(v)@.len(),
        i != j,
    ensures
        final(v)@ == old(v)@.update(i as int, old(v)@[j as int]).update(j as int, old(v)@[i as int]),
{
    let mut tmp: Option<T> = None;
    std::mem::swap(&mut v[i], &mut tmp);
    std::mem::swap(&mut v[j], &mut tmp);
    std::mem::swap(&mut v[i], &mut tmp);
    assert(v@ =~= old(v)@.update(i as int, old(v)@[j as int]).update(j as int, old(v)@[i as int]));
}

/// A hash map implemented with linear probing and Robin Hood hashing
pub struct HashMap<K, V> {
    entries: Vec<Option<Bucket<K, V>>>,
    len: usize,
    hasher: RandomState,
}

impl<K, V> View for HashMap<K, V> {
    type V = Map<K, V>;

    closed spec fn view(&self) -> Map<K, V> {
        contents(self.entries@)
    }
}

impl<K: MapKey, V> HashMap<K, V> {
    /// The table invariant: a power-of-two number of slots (at least 32), at
    /// least one empty slot, a correct element count, distinct keys, cached
    /// hashes that match the map's hasher, and Robin Hood ordering.
    pub closed spec fn wf(&self) -> bool {
        let s = self.entries@;
        &&& (s.len() == 0 || (32 <= s.len() && is_pow2(s.len() as int)))
        &&& s.len() <= max_capacity()
        &&& self.len <= max_len()
        &&& self.len == count_occ(s)
        &&& (s.len() > 0 ==> self.len < s.len())
        &&& (s.len() > 0 ==> self.len <= load_capacity_spec(s.len() as int) + 1)
        &&& keys_distinct(s)
        &&& rh_ok(s)
        &&& hashes_ok(s, self.hasher@)
    }

    /// The keys of the hasher the map hashes its keys with.
    pub closed spec fn hasher_state(&self) -> crate::ahash::HasherState {
        self.hasher@
    }

    /// The number of slots of the table.
    pub closed spec fn spec_capacity(&self) -> nat {
        self.entries@.len()
    }

    /// The key-value pairs of the map in the order the iterators visit them.
    pub closed spec fn pairs_seq(&self) -> Seq<(K, V)> {
        pairs(self.entries@)
    }

    /// Creates an empty `HashMap`.
    ///
    /// The map is initially allocated with no capacity and grows on the first
    /// insertion.
    pub fn new() -> (m: HashMap<K, V>)
        ensures
            m.wf(),
            m@ == Map::<K, V>::empty(),
            m.spec_capacity() == 0,
    {
        let m = HashMap { entries: Vec::new(), len: 0, hasher: RandomState::system() };
        assert(m@ =~= Map::<K, V>::empty());
        m
    }

    /// Creates an empty `HashMap` that hashes its keys with `hasher`.
    ///
    /// The map is initially allocated with no capacity. A table it grows into
    /// gets keys of its own.
    pub fn with_hasher(hasher: RandomState) -> (m: HashMap<K, V>)
        ensures
            m.wf(),
            m@ == Map::<K, V>::empty(),
            m.spec_capacity() == 0,
            m.hasher_state() == hasher@,
    {
        let m = HashMap { entries: Vec::new(), len: 0, hasher };
        assert(m@ =~= Map::<K, V>::empty());
        m
    }

    /// Creates an empty `HashMap` with room for at least `cap` elements.
    ///
    /// The map holds `cap` elements without growing. The table size is a power
    /// of two, with a minimum of 32 slots: the table `reserve` would make for
    /// `cap` elements.
    pub fn with_capacity(cap: usize) -> (m: HashMap<K, V>)
        requires
            cap <= max_len(),
        ensures
            m.wf(),
            m@ == Map::<K, V>::empty(),
            cap == 0 ==> m.spec_capacity() == 32,
            cap > 0 ==> resize_for(cap as int, m.spec_capacity() as int),
            cap <= load_capacity_spec(m.spec_capacity() as int),
    {
        let size = if cap == 0 {
            32
        } else {
            resize_capacity(cap)
        };
        proof {
            vstd::arithmetic::power2::lemma2_to64();
            assert(pow2(5) == 32);
            assert(is_pow2(32));
        }
        HashMap::with_table_size(size)
    }

    /// An empty map whose table has exactly `size` slots.
    fn with_table_size(size: usize) -> (m: HashMap<K, V>)
        requires
            valid_capacity(size as int),
            size <= max_capacity(),
        ensures
            m.wf(),
            m@ == Map::<K, V>::empty(),
            m.spec_capacity() == size,
    {
        let cap = size;
        let mut entries: Vec<Option<Bucket<K, V>>> = Vec::new();
        let mut i: usize = 0;
        while i < cap
            invariant
                i <= cap,
                entries@.len() == i,
                forall|j: int| 0 <= j < i ==> !(#[trigger] occ(entries@, j)),
            decreases cap - i,
        {
            let ghost before = entries@;
            entries.push(None);
            assert forall|j: int| 0 <= j < i + 1 implies !(#[trigger] occ(entries@, j)) by {
                assert(entries@ == before.push(None));
                if j < i {
                    assert(!occ(before, j));
                    assert(entries@[j] == before[j]);
                } else {
                    assert(entries@[j] == None::<Bucket<K, V>>);
                }
            }
            i = i + 1;
        }
        let m = HashMap { entries, len: 0, hasher: RandomState::system() };
        proof {
            lemma_empty_table(m.entries@);
        }
        assert(m@ =~= Map::<K, V>::empty());
        m
    }

    /// Returns the number of elements in the map.
    pub fn len(&self) -> (r: usize)
        requires
            self.wf(),
        ensures
            r == self@.len(),
    {
        proof {
            lemma_dom_len(self.entries@);
        }
        self.len
    }

    /// Returns `true` if the map contains no elements.
    pub fn is_empty(&self) -> (r: bool)
        requires
            self.wf(),
        ensures
            r == (self@.len() == 0),
    {
        proof {
            lemma_dom_len(self.entries@);
        }
        self.len == 0
    }

    /// Returns the number of slots of the table. The map grows before it is
    /// full, once it holds more than about nine tenths of this.
    pub fn capacity(&self) -> (r: usize)
        ensures
            r == self.spec_capacity(),
    {
        self.entries.len()
    }

    /// The number of elements this map holds before it grows.
    fn load_capacity(&self) -> (r: usize)
        ensures
            r == load_capacity_spec(self.spec_capacity() as int),
    {
        load_capacity(self.capacity())
    }

    fn should_resize(&self) -> (r: bool)
        ensures
            r == (self.len > load_capacity_spec(self.spec_capacity() as int)),
    {
        self.len > self.load_capacity()
    }

    fn mask(&self) -> (r: usize)
        requires
            self.spec_capacity() > 0,
        ensures
            r == self.spec_capacity() - 1,
    {
        self.capacity() - 1
    }

    fn desired_pos(&self, hash: u64) -> (r: usize)
        requires
            self.wf(),
            self.spec_capacity() > 0,
        ensures
            r == home(hash, self.spec_capacity() as int),
            r < self.spec_capacity(),
    {
        let m = self.mask();
        proof {
            lemma_mask_is_mod(hash as usize, self.entries@.len() as usize);
        }
        hash as usize & m
    }

    fn dist(&self, hash: u64, idx: usize) -> (r: usize)
        requires
            self.wf(),
            idx < self.spec_capacity(),
        ensures
            r == (idx - home(hash, self.spec_capacity() as int)) % (self.spec_capacity() as int),
    {
        let cap = self.capacity();
        let d = self.desired_pos(hash);
        let x = idx + cap - d;
        proof {
            lemma_mask_is_mod(x, cap);
            lemma_mod_add_multiples_vanish(idx - d, cap as int);
        }
        x & self.mask()
    }

    /// The slot holding `key`, if the map holds it.
    fn get_helper(&self, key: &K) -> (r: Option<usize>)
        requires
            self.wf(),
        ensures
            match r {
                Some(p) => has_key_at(self.entries@, p as int, *key),
                None => !contains(self.entries@, *key),
            },
    {
        if self.entries.len() == 0 || self.len == 0 {
            proof {
                lemma_dom_len(self.entries@);
                if contains(self.entries@, *key) {
                    assert(self@.dom().contains(*key));
                }
            }
            return None;
        }
        let ghost s = self.entries@;
        let ghost cap = s.len() as int;
        let hash = self.hasher.hash_one(key);
        let mut pos = self.desired_pos(hash);
        let mut dist: usize = 0;
        let ghost d = home(hash, cap);
        proof {
            lemma_count_bound(s);
        }
        let ghost e = choose|i: int| 0 <= i < cap && !(#[trigger] occ(s, i));
        proof {
            lemma_at_disp(d, e, cap);
            lemma_at_facts(d, 0, cap);
        }
        loop
            invariant
                self.wf(),
                s == self.entries@,
                cap == s.len(),
                32 <= cap,
                hash == hash_of(self.hasher@, *key),
                d == home(hash, cap),
                0 <= d < cap,
                0 <= e < cap,
                !occ(s, e),
                at(d, (e - d) % cap, cap) == e,
                0 <= dist <= (e - d) % cap < cap,
                pos == at(d, dist as int, cap),
                forall|t: int| 0 <= t < dist ==> !has_key_at(s, #[trigger] at(d, t, cap), *key),
            decreases (e - d) % cap - dist,
        {
            proof {
                lemma_at_facts(d, dist as int, cap);
            }
            match &self.entries[pos] {
                None => {
                    proof {
                        lemma_absent(s, self.hasher@, *key, dist as int);
                    }
                    return None;
                },
                Some(b) => {
                    let bd = self.dist(b.hash, pos);
                    if dist > bd {
                        proof {
                            if bkt(s, pos as int).key == *key {
                                assert(occ(s, pos as int));
                                assert(occ(s, pos as int));
                            assert(bkt(s, pos as int).hash == hash);
                            }
                            lemma_absent(s, self.hasher@, *key, dist as int);
                        }
                        return None;
                    }
                    if b.hash == hash && b.key.key_eq(key) {
                        return Some(pos);
                    }
                    proof {
                        if bkt(s, pos as int).key == *key {
                            assert(occ(s, pos as int));
                            assert(bkt(s, pos as int).hash == hash);
                        }
                        assert(!has_key_at(s, pos as int, *key));
                        assert(dist < (e - d) % cap);
                    }
                },
            }
            proof {
                lemma_mask_is_mod((pos + 1) as usize, cap as usize);
            }
            pos = (pos + 1) & self.mask();
            dist += 1;
        }
    }

    /// Puts `key` with `value` into a table that has room for one more
    /// element, moving richer buckets out of the way (Robin Hood insertion).
    /// Returns the slot that ends up holding `key`, and the value it replaced.
    fn place(&mut self, key: K, value: V, hash: u64) -> (r: (usize, Option<V>))
        requires
            old(self).wf(),
            32 <= old(self).spec_capacity(),
            old(self).len + 1 < old(self).spec_capacity(),
            old(self).len < max_len(),
            !old(self)@.contains_key(key) ==> old(self).len <= load_capacity_spec(
                old(self).spec_capacity() as int,
            ),
            hash == hash_of(old(self).hasher@, key),
        ensures
            final(self).wf(),
            final(self).hasher == old(self).hasher,
            final(self).spec_capacity() == old(self).spec_capacity(),
            final(self)@ == old(self)@.insert(key, value),
            r.1 == (if old(self)@.contains_key(key) {
                Some(old(self)@[key])
            } else {
                None::<V>
            }),
            final(self).len == old(self).len + (if old(self)@.contains_key(key) {
                0int
            } else {
                1int
            }),
            has_key_at(final(self).entries@, r.0 as int, key),
    {
        let cap = self.capacity();
        let ghost icap = cap as int;
        let ghost rs = self.hasher@;
        let ghost s0 = self.entries@;
        let ghost target = contents(s0).insert(key, value);
        let ghost new_bucket = Bucket { key, value, hash };
        let mut current = Bucket { key, value, hash };
        let mut pos = self.desired_pos(hash);
        let mut dist: usize = 0;
        let mut key_pos: Option<usize> = None;
        let ghost d = home(hash, icap);
        let ghost mut steps: int = 0;
        let ghost mut t0: int = 0;
        let ghost mut was_absent: bool = false;
        proof {
            lemma_count_bound(s0);
        }
        let ghost e = choose|i: int| 0 <= i < icap && !(#[trigger] occ(s0, i));
        proof {
            lemma_at_disp(d, e, icap);
            lemma_at_facts(d, 0, icap);
            lemma_at_facts(d, 1, icap);
        }
        loop
            invariant
                self.hasher == old(self).hasher,
                rs == self.hasher@,
                hash == hash_of(rs, key),
                new_bucket == (Bucket { key, value, hash }),
                s0 == old(self).entries@,
                s0.len() == icap,
                target == contents(s0).insert(key, value),
                self.entries@.len() == icap,
                icap == cap,
                32 <= cap <= max_capacity(),
                is_pow2(icap),
                self.len == old(self).len,
                self.len + 1 < cap,
                self.len < max_len(),
                self.len <= load_capacity_spec(icap) + 1,
                !old(self)@.contains_key(key) ==> old(self).len <= load_capacity_spec(icap),
                count_occ(self.entries@) == self.len,
                keys_distinct(self.entries@),
                rh_ok(self.entries@),
                hashes_ok(self.entries@, rs),
                d == home(hash, icap),
                0 <= d < icap,
                0 <= e < icap,
                !occ(self.entries@, e),
                at(d, (e - d) % icap, icap) == e,
                0 <= steps <= (e - d) % icap < icap,
                pos == at(d, steps, icap),
                dist <= steps,
                current.hash == hash_of(rs, current.key),
                dist == (pos - home(current.hash, icap)) % icap,
                dist > 0 ==> occ(self.entries@, prv(pos as int, icap)) && disp(
                    self.entries@,
                    prv(pos as int, icap),
                ) + 1 >= dist,
                key_pos is None ==> {
                    &&& self.entries@ == s0
                    &&& current == new_bucket
                    &&& dist == steps
                    &&& forall|t: int|
                        0 <= t < steps ==> !has_key_at(s0, #[trigger] at(d, t, icap), key)
                },
                key_pos is Some ==> {
                    &&& was_absent
                    &&& !contains(s0, key)
                    &&& !contains(self.entries@, current.key)
                    &&& contents(self.entries@).insert(current.key, current.value) == target
                    &&& 0 <= t0 < steps
                    &&& key_pos->Some_0 == at(d, t0, icap)
                    &&& has_key_at(self.entries@, key_pos->Some_0 as int, key)
                },
            decreases (e - d) % icap - steps,
        {
            let ghost s = self.entries@;
            proof {
                lemma_at_facts(d, steps, icap);
                lemma_nxt_prv(pos as int, icap);
                lemma_at_disp(home(current.hash, icap), pos as int, icap);
            }
            let (is_free, same, exist_dist) = match &self.entries[pos] {
                None => (true, false, 0),
                Some(b) => {
                    let same = b.hash == current.hash && b.key.key_eq(&current.key);
                    (false, same, self.dist(b.hash, pos))
                },
            };
            if is_free {
                proof {
                    assert(!occ(s, pos as int));
                    if key_pos is None {
                        assert(hash == hash_of(rs, key));
                        lemma_absent(s0, rs, key, dist as int);
                        was_absent = true;
                    }
                    lemma_rh_put(s, pos as int, current);
                    lemma_hashes_put(s, rs, pos as int, Some(current));
                    lemma_put_empty(s, pos as int, current);
                    if key_pos is Some {
                        let kp = key_pos->Some_0 as int;
                        lemma_at_facts(d, t0, icap);
                        assert(kp != pos);
                    }
                }
                self.entries.set(pos, Some(current));
                self.len += 1;
                proof {
                    if key_pos is Some {
                        let kp = key_pos->Some_0 as int;
                        assert(self.entries@[kp] == s[kp]);
                    } else {
                        assert(has_key_at(self.entries@, pos as int, key));
                    }
                    assert(!old(self)@.contains_key(key));
                }
                let kp = match key_pos {
                    Some(kp) => kp,
                    None => pos,
                };
                return (kp, None);
            }
            proof {
                assert(occ(s, pos as int));
            }
            if same {
                proof {
                    if key_pos is Some {
                        assert(has_key_at(s, pos as int, current.key));
                    }
                    assert(has_key_at(s0, pos as int, key));
                    lemma_unique(s0, pos as int, key);
                    assert(rh_at(s, prv(pos as int, icap)));
                    lemma_rh_put(s, pos as int, current);
                    lemma_hashes_put(s, rs, pos as int, Some(current));
                    lemma_put_same_key(s, pos as int, current);
                    lemma_count_bound(s);
                }
                let mut tmp = Some(current);
                std::mem::swap(&mut self.entries[pos], &mut tmp);
                let replaced = tmp.unwrap();
                proof {
                    assert(has_key_at(self.entries@, pos as int, key));
                }
                return (pos, Some(replaced.value));
            }
            if exist_dist < dist {
                proof {
                    if key_pos is None {
                        assert(bkt(s, pos as int).key != key);
                        lemma_absent(s0, rs, key, dist as int);
                        was_absent = true;
                    }
                    lemma_rh_put(s, pos as int, current);
                    lemma_hashes_put(s, rs, pos as int, Some(current));
                    lemma_put_evict(s, pos as int, current);
                    lemma_unique(s, pos as int, bkt(s, pos as int).key);
                }
                let mut tmp = Some(current);
                std::mem::swap(&mut self.entries[pos], &mut tmp);
                current = tmp.unwrap();
                proof {
                    assert(current == bkt(s, pos as int));
                    let s2 = self.entries@;
                    assert(s2 == s.update(pos as int, Some(s2[pos as int]->Some_0)));
                    assert(contents(s2).insert(current.key, current.value) =~= target);
                    if key_pos is Some {
                        let kp = key_pos->Some_0 as int;
                        lemma_at_facts(d, t0, icap);
                        assert(kp != pos);
                        assert(s2[kp] == s[kp]);
                    } else {
                        t0 = steps;
                        assert(has_key_at(s2, pos as int, key));
                    }
                    assert(s2[e] == s[e]);
                }
                if key_pos.is_none() {
                    key_pos = Some(pos);
                }
                dist = exist_dist;
            }
            proof {
                assert(pos != e);
                assert(steps < (e - d) % icap);
                lemma_at_disp(home(current.hash, icap), pos as int, icap);
                lemma_at_facts(home(current.hash, icap), dist as int, icap);
                lemma_at_facts(home(current.hash, icap), dist + 1, icap);
                lemma_mask_is_mod((pos + 1) as usize, cap);
                if key_pos is None {
                    assert(bkt(s0, pos as int).key != key);
                }
            }
            pos = (pos + 1) & self.mask();
            dist += 1;
            proof {
                steps = steps + 1;
            }
        }
    }

    /// Moves every element into a fresh table of the size grown for
    /// `new_size`, with fresh hasher keys.
    #[verifier::rlimit(40)]
    fn rehash_helper(&mut self, new_size: usize)
        requires
            old(self).wf(),
            new_size <= max_capacity(),
            valid_capacity(new_size as int),
            old(self).len <= load_capacity_spec(new_size as int),
        ensures
            final(self).wf(),
            final(self)@ == old(self)@,
            final(self).len == old(self).len,
            final(self).spec_capacity() == new_size,
    {
        let mut old = HashMap::with_table_size(new_size);
        std::mem::swap(self, &mut old);
        let ghost s_old = old.entries@;
        proof {
            lemma_capacity_for_valid(new_size as int);
            lemma_capacity_for_unique(new_size as int, new_size as int, self.entries@.len() as int);
            lemma_prefix_count(s_old, s_old.len() as int);
            assert(s_old.take(0) =~= Seq::<Option<Bucket<K, V>>>::empty());
            assert(self@ =~= contents(s_old.take(0)));
            lemma_dom_len(self.entries@);
        }
        let n = old.entries.len();
        let mut i: usize = 0;
        while i < n
            invariant
                self.wf(),
                self.spec_capacity() == new_size,
                new_size <= max_capacity(),
                valid_capacity(new_size as int),
                old.entries@.len() == n,
                s_old.len() == n,
                0 <= i <= n,
                forall|j: int| i <= j < n ==> old.entries@[j] == s_old[j],
                keys_distinct(s_old),
                count_occ(s_old) <= load_capacity_spec(new_size as int),
                count_occ(s_old) <= max_len(),
                self@ == contents(s_old.take(i as int)),
                self.len == count_occ(s_old.take(i as int)),
            decreases n - i,
        {
            let mut slot: Option<Bucket<K, V>> = None;
            std::mem::swap(&mut old.entries[i], &mut slot);
            proof {
                assert(slot == s_old[i as int]);
                lemma_prefix_step(s_old, i as int);
                lemma_prefix_count(s_old, i as int);
            }
            match slot {
                Some(b) => {
                    let h = self.hasher.hash_one(&b.key);
                    proof {
                        assert(!self@.contains_key(b.key));
                        assert(self.len < count_occ(s_old));
                        assert(new_size > 0);
                    }
                    self.place(b.key, b.value, h);
                },
                None => {},
            }
            i += 1;
        }
        proof {
            assert(s_old.take(n as int) =~= s_old);
        }
    }

    fn insert_helper(&mut self, key: K, value: V) -> (r: (usize, Option<V>))
        requires
            old(self).wf(),
            old(self)@.len() < max_len(),
        ensures
            final(self).wf(),
            final(self)@ == old(self)@.insert(key, value),
            r.1 == (if old(self)@.contains_key(key) {
                Some(old(self)@[key])
            } else {
                None::<V>
            }),
            has_key_at(final(self).entries@, r.0 as int, key),
            final(self).spec_capacity() == grown_capacity(
                old(self).spec_capacity() as int,
                old(self)@.len() as int,
            ),
    {
        proof {
            lemma_dom_len(self.entries@);
        }
        if self.capacity() == 0 {
            proof {
                lemma_empty_table(self.entries@);
            }
            let mut i: usize = 0;
            while i < 32
                invariant
                    i <= 32,
                    self.entries@.len() == i,
                    forall|j: int| 0 <= j < i ==> !(#[trigger] occ(self.entries@, j)),
                    self.len == 0,
                    old(self)@ == Map::<K, V>::empty(),
                    self.hasher == old(self).hasher,
                decreases 32 - i,
            {
                let ghost before = self.entries@;
                self.entries.push(None);
                proof {
                    assert forall|j: int| 0 <= j < i + 1 implies !(#[trigger] occ(self.entries@, j)) by {
                        if j < i {
                            assert(!occ(before, j));
                            assert(self.entries@[j] == before[j]);
                        } else {
                            assert(self.entries@[j] == None::<Bucket<K, V>>);
                        }
                    }
                }
                i += 1;
            }
            proof {
                lemma_empty_table(self.entries@);
                vstd::arithmetic::power2::lemma2_to64();
                assert(pow2(5) == 32);
                assert(is_pow2(32));
            }
        } else if self.should_resize() {
            proof {
                lemma_pow2_double(self.entries@.len() as int);
            }
            self.rehash_helper(self.capacity() * 2);
        }
        let hash = self.hasher.hash_one(&key);
        self.place(key, value, hash)
    }

    /// Inserts a key-value pair into the map.
    ///
    /// If the map did not have this key present, `None` is returned. If the map
    /// did have this key present, the value is updated and the old value is
    /// returned
    pub fn insert(&mut self, key: K, value: V) -> (r: Option<V>)
        requires
            old(self).wf(),
            old(self)@.len() < max_len(),
        ensures
            final(self).wf(),
            final(self)@ == old(self)@.insert(key, value),
            r == (if old(self)@.contains_key(key) {
                Some(old(self)@[key])
            } else {
                None::<V>
            }),
            final(self).spec_capacity() == grown_capacity(
                old(self).spec_capacity() as int,
                old(self)@.len() as int,
            ),
    {
        self.insert_helper(key, value).1
    }

    /// Reserves space for `n` elements
    pub fn reserve(&mut self, n: usize)
        requires
            old(self).wf(),
            old(self)@.len() + n <= max_len(),
        ensures
            final(self).wf(),
            final(self)@ == old(self)@,
            resize_for(old(self)@.len() + n, final(self).spec_capacity() as int),
    {
        proof {
            lemma_dom_len(self.entries@);
        }
        let new_size = resize_capacity(self.len + n);
        if new_size != self.capacity() {
            self.rehash_helper(new_size);
        }
    }

    /// Shrinks capacity to `n` (can't shrink below `self.len()`)
    pub fn shrink_to(&mut self, n: usize)
        requires
            old(self).wf(),
            n <= max_len(),
        ensures
            final(self).wf(),
            final(self)@ == old(self)@,
            resize_for(
                if old(self)@.len() > n {
                    old(self)@.len() as int
                } else {
                    n as int
                },
                final(self).spec_capacity() as int,
            ),
    {
        proof {
            lemma_dom_len(self.entries@);
        }
        let new_size = resize_capacity(if self.len > n { self.len } else { n });
        if new_size != self.capacity() {
            self.rehash_helper(new_size);
        }
    }

    /// Shrinks the map to lowest possible capacity
    pub fn shrink_to_fit(&mut self)
        requires
            old(self).wf(),
        ensures
            final(self).wf(),
            final(self)@ == old(self)@,
            resize_for(old(self)@.len() as int, final(self).spec_capacity() as int),
    {
        proof {
            lemma_dom_len(self.entries@);
        }
        let new_size = resize_capacity(self.len);
        if new_size != self.capacity() {
            self.rehash_helper(new_size);
        }
    }

    /// Removes the bucket in slot `idx` by backward-shift deletion: the
    /// displaced buckets after it each move back one slot.
    fn remove_helper(&mut self, idx: usize) -> (r: V)
        requires
            old(self).wf(),
            idx < old(self).spec_capacity(),
            occ(old(self).entries@, idx as int),
        ensures
            final(self).wf(),
            final(self)@ == old(self)@.remove(bkt(old(self).entries@, idx as int).key),
            r == bkt(old(self).entries@, idx as int).value,
            final(self).len == old(self).len - 1,
            final(self).spec_capacity() == old(self).spec_capacity(),
            final(self).hasher == old(self).hasher,
            exists|n: int|
                0 <= n <= old(self).spec_capacity() - 2 && final(self).entries@ == shift_seq(
                    old(self).entries@.update(idx as int, None),
                    idx as int,
                    n,
                ),
    {
        let ghost s = self.entries@;
        let ghost cap = s.len() as int;
        let ghost a = idx as int;
        proof {
            lemma_count_bound(s);
        }
        let ghost e = choose|i: int| 0 <= i < cap && !(#[trigger] occ(s, i));
        proof {
            lemma_at_disp(a, e, cap);
            lemma_at_facts(a, 0, cap);
            lemma_at_facts(a, 1, cap);
            lemma_mask_is_mod((idx + 1) as usize, cap as usize);
            assert(e != a);
            if (e - a) % cap == 0 {
                lemma_at_facts(a, 0, cap);
            }
        }
        // Find the stop slot: the first slot after `idx` that is empty or holds
        // a bucket in its home slot.
        let mut stop = (idx + 1) & self.mask();
        let ghost mut k: int = 1;
        loop
            invariant
                self.wf(),
                self.entries@ == s,
                cap == s.len(),
                32 <= cap,
                0 <= a < cap,
                occ(s, a),
                0 <= e < cap,
                !occ(s, e),
                at(a, (e - a) % cap, cap) == e,
                1 <= k <= (e - a) % cap < cap,
                stop == at(a, k, cap),
                forall|t: int|
                    1 <= t < k ==> occ(s, #[trigger] at(a, t, cap)) && disp(s, at(a, t, cap)) > 0,
            ensures
                1 <= k <= (e - a) % cap,
                stop == at(a, k, cap),
                forall|t: int|
                    1 <= t < k ==> occ(s, #[trigger] at(a, t, cap)) && disp(s, at(a, t, cap)) > 0,
                !occ(s, stop as int) || disp(s, stop as int) == 0,
            decreases (e - a) % cap - k,
        {
            proof {
                lemma_at_facts(a, k, cap);
            }
            let free = self.entries[stop].is_none();
            if free {
                break;
            }
            let b_hash = self.entries[stop].as_ref().unwrap().hash;
            if self.dist(b_hash, stop) == 0 {
                break;
            }
            proof {
                assert(stop != e);
                lemma_mask_is_mod((stop + 1) as usize, cap as usize);
                k = k + 1;
            }
            stop = (stop + 1) & self.mask();
        }
        let ghost n = k - 1;
        // Delete the element.
        let mut taken: Option<Bucket<K, V>> = None;
        std::mem::swap(&mut self.entries[idx], &mut taken);
        let ret = taken.unwrap();
        proof {
            lemma_take(s, a);
        }
        self.len -= 1;
        let ghost s1 = self.entries@;
        proof {
            assert(s1 == s.update(a, None));
            lemma_take(s, a);
            lemma_hashes_put(s, self.hasher@, a, None);
            assert forall|j: int| 0 <= j < cap implies self.entries@[j] == shift_seq(s1, a, 0)[j] by {
                lemma_at_disp(a, j, cap);
                if (j - a) % cap == 0 {
                    lemma_at_facts(a, 0, cap);
                }
            }
            assert(self.entries@ =~= shift_seq(s1, a, 0));
        }
        // Shift backwards everything after idx and before stop.
        let mut i = idx;
        let ghost mut o: int = 0;
        loop
            invariant
                self.hasher == old(self).hasher,
                self.len == old(self).len - 1,
                self.entries@.len() == cap,
                cap == s.len(),
                32 <= cap <= max_capacity(),
                is_pow2(cap),
                0 <= a < cap,
                0 <= n <= cap - 2,
                stop == at(a, n + 1, cap),
                0 <= o <= n,
                i == at(a, o, cap),
                self.entries@ == shift_seq(s1, a, o),
                keys_distinct(self.entries@),
                hashes_ok(self.entries@, self.hasher@),
                contents(self.entries@) == contents(s1),
                count_occ(self.entries@) == count_occ(s1),
            ensures
                o == n,
                self.entries@ == shift_seq(s1, a, n),
                keys_distinct(self.entries@),
                hashes_ok(self.entries@, self.hasher@),
                contents(self.entries@) == contents(s1),
                count_occ(self.entries@) == count_occ(s1),
            decreases n - o,
        {
            proof {
                lemma_at_facts(a, o, cap);
                lemma_mask_is_mod((i + 1) as usize, cap as usize);
            }
            let next = (i + 1) & self.mask();
            if next == stop {
                proof {
                    lemma_at_inj(a, o + 1, n + 1, cap);
                }
                break;
            }
            proof {
                if o == n {
                    assert(next == stop);
                }
                assert(next != i) by {
                    if next == i {
                        lemma_at_inj(a, o + 1, o, cap);
                    }
                }
                lemma_swap(self.entries@, self.hasher@, i as int, next as int);
            }
            let ghost before = self.entries@;
            swap_slots(&mut self.entries, i, next);
            proof {
                lemma_at_facts(a, o + 1, cap);
                assert forall|j: int| 0 <= j < cap implies self.entries@[j] == shift_seq(
                    s1,
                    a,
                    o + 1,
                )[j] by {
                    let tj = (j - a) % cap;
                    lemma_at_disp(a, j, cap);
                    if j == i {
                        lemma_at_inj(a, tj, o, cap);
                    } else if j == next {
                        lemma_at_inj(a, tj, o + 1, cap);
                    } else {
                        if tj == o || tj == o + 1 {
                            assert(false);
                        }
                    }
                }
                assert(self.entries@ =~= shift_seq(s1, a, o + 1));
                o = o + 1;
            }
            i = next;
        }
        proof {
            assert forall|t: int| 1 <= t <= n implies occ(s, #[trigger] at(a, t, cap)) && disp(
                s,
                at(a, t, cap),
            ) > 0 by {
                assert(t < k);
            }
            lemma_rh_shift(s, a, n);
            lemma_dom_len(self.entries@);
        }
        ret.value
    }

    /// Removes a key from the map, returning the value at the key if the key
    /// was previously in the map
    pub fn remove(&mut self, key: &K) -> (r: Option<V>)
        requires
            old(self).wf(),
        ensures
            final(self).wf(),
            final(self)@ == old(self)@.remove(*key),
            r == (if old(self)@.contains_key(*key) {
                Some(old(self)@[*key])
            } else {
                None::<V>
            }),
            final(self).spec_capacity() == old(self).spec_capacity(),
    {
        let pos = match self.get_helper(key) {
            Some(p) => p,
            None => {
                proof {
                    assert(self@.remove(*key) =~= self@);
                }
                return None;
            },
        };
        proof {
            lemma_unique(self.entries@, pos as int, *key);
        }
        Some(self.remove_helper(pos))
    }

    /// Clears the map, removing all key-value pairs. Keeps the allocated
    /// capacity for reuse.
    pub fn clear(&mut self)
        requires
            old(self).wf(),
        ensures
            final(self).wf(),
            final(self)@ == Map::<K, V>::empty(),
            final(self).spec_capacity() == old(self).spec_capacity(),
    {
        let n = self.entries.len();
        let mut i: usize = 0;
        while i < n
            invariant
                self.entries@.len() == n,
                n == old(self).entries@.len(),
                i <= n,
                forall|j: int| 0 <= j < i ==> !(#[trigger] occ(self.entries@, j)),
                self.hasher == old(self).hasher,
                self.len == old(self).len,
            decreases n - i,
        {
            let ghost before = self.entries@;
            self.entries.set(i, None);
            proof {
                assert forall|j: int| 0 <= j < i + 1 implies !(#[trigger] occ(self.entries@, j)) by {
                    if j < i {
                        assert(!occ(before, j));
                    }
                }
            }
            i += 1;
        }
        self.len = 0;
        proof {
            lemma_empty_table(self.entries@);
        }
    }

    /// Returns a mutable reference to the value corresponding to the key
    pub fn get_mut(&mut self, key: &K) -> (r: Option<&mut V>)
        requires
            old(self).wf(),
        ensures
            final(self).wf(),
            match r {
                Some(v) => {
                    &&& old(self)@.contains_key(*key)
                    &&& *v == old(self)@[*key]
                    &&& final(self)@ == old(self)@.insert(*key, *final(v))
                },
                None => !old(self)@.contains_key(*key) && final(self)@ == old(self)@,
            },
            final(self).spec_capacity() == old(self).spec_capacity(),
    {
        let pos = match self.get_helper(key) {
            Some(p) => p,
            None => return None,
        };
        proof {
            lemma_unique(self.entries@, pos as int, *key);
            lemma_set_value(self.entries@, self.hasher@, pos as int);
        }
        Some(self.value_at_mut(pos))
    }

    /// A mutable reference to the value in the occupied slot `pos`.
    fn value_at_mut(&mut self, pos: usize) -> (r: &mut V)
        requires
            old(self).wf(),
            pos < old(self).spec_capacity(),
            occ(old(self).entries@, pos as int),
        ensures
            *r == bkt(old(self).entries@, pos as int).value,
            final(self).entries@ == with_value(old(self).entries@, pos as int, *final(r)),
            final(self).len == old(self).len,
            final(self).hasher == old(self).hasher,
    {
        let b = self.entries[pos].as_mut().unwrap();
        &mut b.value
    }

    /// A mutable reference to the value of `key`, inserting `value` first if
    /// the map does not hold `key`.
    pub(crate) fn get_mut_or_insert(&mut self, key: K, value: V) -> (r: &mut V)
        requires
            old(self).wf(),
            old(self)@.len() < max_len(),
        ensures
            final(self).wf(),
            *r == (if old(self)@.contains_key(key) {
                old(self)@[key]
            } else {
                value
            }),
            final(self)@ == old(self)@.insert(key, *final(r)),
    {
        let pos = match self.get_helper(&key) {
            Some(p) => p,
            None => self.insert_helper(key, value).0,
        };
        proof {
            lemma_unique(self.entries@, pos as int, key);
            lemma_set_value(self.entries@, self.hasher@, pos as int);
        }
        self.value_at_mut(pos)
    }

    /// Gets the given key's corresponding entry in the map for in-place
    /// manipulation.
    ///
    /// Currently only `Entry::or_insert` is available on the returned entry.
    pub fn entry(&mut self, key: K) -> (e: Entry<'_, K, V>)
        ensures
            e.key == key,
            *e.map == *old(self),
            *final(self) == *final(e.map),
    {
        Entry::new(key, self)
    }

    /// Retains only the elements specified by the predicate.
    ///
    /// In other words, removes all pairs `(k, v)` for which `f(&k, &v)`
    /// returns `false`. The elements are visited in unspecified order.
    #[verifier::spinoff_prover]
    pub fn retain<F: Fn(&K, &V) -> bool>(&mut self, f: F)
        requires
            old(self).wf(),
            forall|k: K, v: V| f.requires((&k, &v)),
        ensures
            final(self).wf(),
            final(self).spec_capacity() == old(self).spec_capacity(),
            forall|k: K|
                #[trigger] final(self)@.contains_key(k) ==> old(self)@.contains_key(k)
                    && final(self)@[k] == old(self)@[k] && f.ensures((&k, &old(self)@[k]), true),
            forall|k: K|
                old(self)@.contains_key(k) && !(#[trigger] final(self)@.contains_key(k))
                    ==> f.ensures((&k, &old(self)@[k]), false),
    {
        let mut i: usize = 0;
        while i < self.capacity()
            invariant
                self.wf(),
                self.spec_capacity() == old(self).spec_capacity(),
                i <= self.spec_capacity(),
                forall|k: K, v: V| f.requires((&k, &v)),
                forall|j: int|
                    0 <= j < i && #[trigger] occ(self.entries@, j) ==> f.ensures(
                        (&bkt(self.entries@, j).key, &bkt(self.entries@, j).value),
                        true,
                    ),
                forall|k: K|
                    #[trigger] self@.contains_key(k) ==> old(self)@.contains_key(k) && self@[k]
                        == old(self)@[k],
                forall|k: K|
                    old(self)@.contains_key(k) && !(#[trigger] self@.contains_key(k)) ==> f.ensures(
                        (&k, &old(self)@[k]),
                        false,
                    ),
            decreases self.len + self.spec_capacity() - i,
        {
            if self.entries[i].is_none() {
                i += 1;
                continue;
            }
            let ghost s = self.entries@;
            let keep = {
                let b = self.entries[i].as_ref().unwrap();
                f(&b.key, &b.value)
            };
            if !keep {
                proof {
                    lemma_unique(s, i as int, bkt(s, i as int).key);
                }
                self.remove_helper(i);
                proof {
                    let s2 = self.entries@;
                    let n = choose|n: int|
                        0 <= n <= s.len() - 2 && s2 == shift_seq(s.update(i as int, None), i as int, n);
                    assert forall|j: int| 0 <= j < i && #[trigger] occ(s2, j) implies f.ensures(
                        (&bkt(s2, j).key, &bkt(s2, j).value),
                        true,
                    ) by {
                        lemma_shift_below(s.update(i as int, None), i as int, n, j);
                        if s2[j] == s[j] {
                            assert(occ(s, j));
                        } else {
                            assert(s2[j] == s[j + 1]);
                            assert(occ(s, j + 1));
                        }
                    }
                }
            } else {
                i += 1;
            }
        }
        proof {
            assert forall|k: K| #[trigger] self@.contains_key(k) implies f.ensures(
                (&k, &old(self)@[k]),
                true,
            ) by {
                let j = choose|j: int| has_key_at(self.entries@, j, k);
                lemma_unique(self.entries@, j, k);
                assert(occ(self.entries@, j));
            }
        }
    }

    /// The value of a key the map holds.
    pub fn index(&self, key: &K) -> (r: &V)
        requires
            self.wf(),
            self@.contains_key(*key),
        ensures
            *r == self@[*key],
    {
        let pos = self.get_helper(key).unwrap();
        proof {
            lemma_unique(self.entries@, pos as int, *key);
        }
        &self.entries[pos].as_ref().unwrap().value
    }

    /// An iterator visiting all key-value pairs in unspecified order.
    pub fn iter(&self) -> (it: Iter<'_, K, V>)
        requires
            self.wf(),
        ensures
            it.wf(),
            it@ == self.pairs_seq(),
    {
        proof {
            lemma_pairs_len(self.entries@);
        }
        Iter::new(self.entries.as_slice(), self.len)
    }

    /// An iterator visiting all key-value pairs in unspecified order, with
    /// mutable references to the values.
    ///
    /// The map ends up holding the pairs the iterator's table ends up holding;
    /// as the iterator hands out no reference to a key, the keys stay and the
    /// map stays well formed.
    pub fn iter_mut(&mut self) -> (it: IterMut<'_, K, V>)
        requires
            old(self).wf(),
        ensures
            it.wf(),
            it@ == old(self).pairs_seq(),
            final(self).pairs_seq() == pairs(final(it.slots)@),
            same_keys(it.slots@, final(it.slots)@) ==> final(self).wf() && final(self)@.dom()
                == old(self)@.dom() && final(self).spec_capacity() == old(self).spec_capacity(),
    {
        proof {
            lemma_pairs_len(self.entries@);
        }
        let ghost s = self.entries@;
        let ghost rs = self.hasher@;
        let len = self.len;
        let it = IterMut::new(self.entries.as_mut_slice(), len);
        proof {
            lemma_same_keys_shape(s, final(it.slots)@, rs);
        }
        it
    }

    /// An iterator visiting mutable references to all values in unspecified
    /// order; see [`HashMap::iter_mut`].
    pub fn values_mut(&mut self) -> (it: ValuesMut<'_, K, V>)
        requires
            old(self).wf(),
        ensures
            it.wf(),
            it@ == old(self).pairs_seq(),
            final(self).pairs_seq() == pairs(final(it.inner.slots)@),
            same_keys(it.inner.slots@, final(it.inner.slots)@) ==> final(self).wf()
                && final(self)@.dom() == old(self)@.dom()
                && final(self).spec_capacity() == old(self).spec_capacity(),
    {
        ValuesMut::new(self.iter_mut())
    }

    /// An iterator visiting all keys in unspecified order.
    pub fn keys(&self) -> (it: Keys<'_, K, V>)
        requires
            self.wf(),
        ensures
            it.wf(),
            it@ == self.pairs_seq(),
    {
        Keys::new(self.iter())
    }

    /// An iterator visiting all values in unspecified order.
    pub fn values(&self) -> (it: Values<'_, K, V>)
        requires
            self.wf(),
        ensures
            it.wf(),
            it@ == self.pairs_seq(),
    {
        Values::new(self.iter())
    }

    /// An owning iterator over all key-value pairs in unspecified order.
    pub fn into_iter(self) -> (it: IntoIter<K, V>)
        requires
            self.wf(),
        ensures
            it.wf(),
            it@ == self.pairs_seq(),
    {
        proof {
            lemma_pairs_len(self.entries@);
        }
        IntoIter::new(self.entries, self.len)
    }

    /// A map holding the given pairs; a later pair for the same key replaces
    /// an earlier one.
    pub fn from_iter(items: Vec<(K, V)>) -> (m: HashMap<K, V>)
        requires
            items@.len() < max_len(),
        ensures
            m.wf(),
            m@ == insert_all(Map::empty(), items@),
    {
        let n = items.len();
        let mut map = HashMap::with_capacity(n);
        proof {
            lemma_table_fits_small(n as int);
        }
        map.extend(items);
        map
    }

    /// Inserts every given pair, in order.
    pub fn extend(&mut self, items: Vec<(K, V)>)
        requires
            old(self).wf(),
            old(self)@.len() + items@.len() < max_len(),
        ensures
            final(self).wf(),
            final(self)@ == insert_all(old(self)@, items@),
    {
        proof {
            lemma_dom_len(self.entries@);
        }
        let reserve = items.len();
        self.reserve(reserve);
        let ghost all = items@;
        let mut rest = reversed(items);
        let ghost m0 = self@;
        let mut i: usize = 0;
        let n = rest.len();
        while i < n
            invariant
                self.wf(),
                n == all.len(),
                rest@ == all.subrange(i as int, n as int).reverse(),
                i <= n,
                self@ == insert_all(m0, all.subrange(0, i as int)),
                m0.len() + all.len() < max_len(),
                self@.len() <= m0.len() + i,
            decreases n - i,
        {
            let ghost before = rest@;
            let (k, v) = rest.pop().unwrap();
            proof {
                assert(rest@ =~= all.subrange(i + 1, n as int).reverse());
                assert((k, v) == all[i as int]);
                lemma_dom_len(self.entries@);
                lemma_insert_all_step(m0, all, i as int);
            }
            self.insert(k, v);
            proof {
                lemma_dom_len(self.entries@);
                if old(self)@.contains_key(k) {
                } 
            }
            i += 1;
        }
        proof {
            assert(all.subrange(0, n as int) =~= all);
        }
    }

    /// Returns a reference to the value corresponding to the key
    pub fn get(&self, key: &K) -> (r: Option<&V>)
        requires
            self.wf(),
        ensures
            match r {
                Some(v) => self@.contains_key(*key) && *v == self@[*key],
                None => !self@.contains_key(*key),
            },
    {
        let pos = self.get_helper(key)?;
        proof {
            lemma_unique(self.entries@, pos as int, *key);
        }
        Some(&self.entries[pos].as_ref().unwrap().value)
    }

    /// Returns `true` if the map contains a value for the specified key
    pub fn contains_key(&self, key: &K) -> (r: bool)
        requires
            self.wf(),
        ensures
            r == self@.contains_key(*key),
    {
        self.get(key).is_some()
    }
}

/// A view into a single entry of a map, which may or may not hold a value.
pub struct Entry<'a, K, V> {
    /// The key of the entry.
    pub key: K,
    /// The map the entry belongs to.
    pub map: &'a mut HashMap<K, V>,
}

impl<'a, K: MapKey, V> Entry<'a, K, V> {
    pub(crate) fn new(key: K, map: &'a mut HashMap<K, V>) -> (e: Entry<'a, K, V>)
        ensures
            e.key == key,
            *e.map == *old(map),
            *final(map) == *final(e.map),
    {
        Entry { key, map }
    }

    /// Ensures a value is in the entry by inserting `value` if empty, and
    /// returns a mutable reference to the value in the entry.
    pub fn or_insert(self, value: V) -> (r: &'a mut V)
        requires
            self.map.wf(),
            self.map@.len() < max_len(),
        ensures
            final(self.map).wf(),
            *r == (if old(self.map)@.contains_key(self.key) {
                old(self.map)@[self.key]
            } else {
                value
            }),
            final(self.map)@ == old(self.map)@.insert(self.key, *final(r)),
    {
        self.map.get_mut_or_insert(self.key, value)
    }
}

impl<K: MapKey, V> Default for HashMap<K, V> {
    /// An empty map, as [`HashMap::new`] makes.
    fn default() -> (m: HashMap<K, V>)
        ensures
            m.wf(),
            m@ == Map::<K, V>::empty(),
            m.spec_capacity() == 0,
    {
        HashMap::new()
    }
}

/// A prefix of a table with distinct keys has distinct keys.
proof fn lemma_take_distinct<K, V>(s: Seq<Option<Bucket<K, V>>>, i: int)
    requires
        keys_distinct(s),
        0 <= i <= s.len(),
    ensures
        keys_distinct(s.take(i)),
{
    let t = s.take(i);
    assert forall|a: int, b: int|
        0 <= a < t.len() && 0 <= b < t.len() && occ(t, a) && occ(t, b) && #[trigger] bkt(t, a).key
            == #[trigger] bkt(t, b).key implies a == b by {
        assert(t[a] == s[a] && t[b] == s[b]);
        assert(bkt(s, a) == bkt(t, a) && bkt(s, b) == bkt(t, b));
    }
}

impl<K: MapKey + Copy, V: Clone> HashMap<K, V> {
    /// A map with the same keys, each with a clone of its value; the copy gets
    /// a hasher of its own.
    pub fn clone(&self) -> (r: HashMap<K, V>)
        requires
            self.wf(),
        ensures
            r.wf(),
            r@.dom() == self@.dom(),
            forall|k: K| #[trigger] r@.contains_key(k) ==> cloned::<V>(self@[k], r@[k]),
            r.spec_capacity() == self.spec_capacity(),
    {
        let ghost s = self.entries@;
        let mut copy: HashMap<K, V> = HashMap::with_table_size(self.capacity());
        proof {
            lemma_prefix_count(s, s.len() as int);
            assert(s.take(0) =~= Seq::<Option<Bucket<K, V>>>::empty());
            assert(copy@.dom() =~= contents(s.take(0)).dom());
            lemma_dom_len(s.take(0));
            lemma_dom_len(copy.entries@);
        }
        let n = self.entries.len();
        let mut i: usize = 0;
        while i < n
            invariant
                self.wf(),
                s == self.entries@,
                n == s.len(),
                0 <= i <= n,
                copy.wf(),
                copy.spec_capacity() == n,
                copy@.dom() == contents(s.take(i as int)).dom(),
                forall|k: K| #[trigger] copy@.contains_key(k) ==> cloned::<V>(
                    contents(s.take(i as int))[k],
                    copy@[k],
                ),
                copy@.len() == count_occ(s.take(i as int)),
            decreases n - i,
        {
            proof {
                lemma_prefix_step(s, i as int);
                lemma_prefix_count(s, i as int);
                lemma_take_distinct(s, i as int);
                lemma_take_distinct(s, i + 1);
                lemma_dom_len(s.take(i as int));
                lemma_dom_len(s.take(i + 1));
            }
            match &self.entries[i] {
                Some(b) => {
                    let k = b.key;
                    let v = b.value.clone();
                    proof {
                        assert(copy@.len() < max_len());
                    }
                    copy.insert(k, v);
                    proof {
                        assert(copy@.dom() =~= contents(s.take(i + 1)).dom());
                    }
                },
                None => {},
            }
            i += 1;
        }
        proof {
            assert(s.take(n as int) =~= s);
        }
        copy
    }
}

impl<K: MapKey, V> HashMap<K, V> {
    /// Reading a key after writing it gives the written value; every other
    /// key reads as before.
    pub proof fn law_read_after_write(before: &Self, after: &Self, k: K, v: V, other: K)
        requires
            after@ == before@.insert(k, v),
        ensures
            after@.contains_key(k),
            after@[k] == v,
            other != k ==> after@.contains_key(other) == before@.contains_key(other),
            other != k && before@.contains_key(other) ==> after@[other] == before@[other],
    {
    }

    /// Inserting a new key adds one element; overwriting a key keeps the
    /// number of elements.
    pub proof fn law_len_after_insert(before: &Self, after: &Self, k: K, v: V)
        requires
            before.wf(),
            after@ == before@.insert(k, v),
        ensures
            after@.len() == before@.len() + if before@.contains_key(k) {
                0int
            } else {
                1int
            },
    {
        lemma_dom_len(before.entries@);
        if before@.contains_key(k) {
            assert(after@.dom() =~= before@.dom());
        }
    }

    /// Removing a key makes it absent, and removes one element exactly when
    /// the key was present.
    pub proof fn law_remove(before: &Self, after: &Self, k: K)
        requires
            before.wf(),
            after@ == before@.remove(k),
        ensures
            !after@.contains_key(k),
            after@.len() == before@.len() - if before@.contains_key(k) {
                1int
            } else {
                0int
            },
    {
        lemma_dom_len(before.entries@);
        if !before@.contains_key(k) {
            assert(after@.dom() =~= before@.dom());
        }
    }

    /// Inserting an absent key and removing it again gives back the map.
    pub proof fn law_insert_remove(before: &Self, mid: &Self, after: &Self, k: K, v: V)
        requires
            !before@.contains_key(k),
            mid@ == before@.insert(k, v),
            after@ == mid@.remove(k),
        ensures
            after@ == before@,
    {
        assert(after@ =~= before@);
    }

    /// Iterating a map visits each of its pairs exactly once.
    pub proof fn law_iteration_visits_each_pair_once(m: &Self)
        requires
            m.wf(),
        ensures
            m.pairs_seq().len() == m@.len(),
            forall|i: int|
                0 <= i < m.pairs_seq().len() ==> m@.contains_key(#[trigger] m.pairs_seq()[i].0)
                    && m@[m.pairs_seq()[i].0] == m.pairs_seq()[i].1,
            forall|k: K|
                #[trigger] m@.contains_key(k) ==> exists|i: int|
                    0 <= i < m.pairs_seq().len() && #[trigger] m.pairs_seq()[i].0 == k,
            forall|i: int, j: int|
                0 <= i < m.pairs_seq().len() && 0 <= j < m.pairs_seq().len() && i != j
                    ==> #[trigger] m.pairs_seq()[i].0 != #[trigger] m.pairs_seq()[j].0,
    {
        lemma_pairs_contents(m.entries@);
        assert forall|k: K| #[trigger] m@.contains_key(k) implies exists|i: int|
            0 <= i < m.pairs_seq().len() && #[trigger] m.pairs_seq()[i].0 == k by {
            let i = choose|i: int| 0 <= i < pairs(m.entries@).len() && #[trigger] pairs(m.entries@)[i].0 == k;
            assert(m.pairs_seq()[i].0 == k);
        }
    }

    /// A table is empty or a power of two of at least 32 slots, never larger
    /// than the memory limit, and always keeps an empty slot.
    pub proof fn law_table_shape(m: &Self)
        requires
            m.wf(),
        ensures
            valid_capacity(m.spec_capacity() as int),
            m.spec_capacity() <= max_capacity(),
            m.spec_capacity() > 0 ==> m@.len() < m.spec_capacity(),
            m.spec_capacity() > 0 ==> m@.len() <= load_capacity_spec(m.spec_capacity() as int) + 1,
            m.spec_capacity() == 0 ==> m@.len() == 0,
    {
        lemma_dom_len(m.entries@);
    }
}

/// Extending a map with pairs (as `extend` and `from_iter` do) holds the keys
/// it held and the keys of the pairs; a key of the pairs gets the value of its
/// last pair, and every other key keeps its value.
#[verifier::spinoff_prover]
#[verifier::rlimit(40)]
pub proof fn law_extend_last_wins<K, V>(m: Map<K, V>, items: Seq<(K, V)>, k: K)
    ensures
        insert_all(m, items).contains_key(k) <==> (m.contains_key(k) || exists|i: int|
            0 <= i < items.len() && #[trigger] items[i].0 == k),
        forall|j: int|
            0 <= j < items.len() && #[trigger] items[j].0 == k && (forall|i: int|
                j < i < items.len() ==> #[trigger] items[i].0 != k) ==> insert_all(m, items)[k]
                == items[j].1,
        m.contains_key(k) && (forall|i: int| 0 <= i < items.len() ==> #[trigger] items[i].0 != k)
            ==> insert_all(m, items)[k] == m[k],
    decreases items.len(),
{
    if items.len() > 0 {
        let rest = items.drop_last();
        let n = items.len() - 1;
        law_extend_last_wins(m, rest, k);
        if items[n].0 == k {
            assert(items[n].0 == k);
        } else {
            assert forall|i: int| 0 <= i < rest.len() && #[trigger] rest[i].0 == k implies exists|
                i2: int,
            | 0 <= i2 < items.len() && #[trigger] items[i2].0 == k by {
                assert(items[i] == rest[i]);
            }
            assert forall|i: int| 0 <= i < items.len() && #[trigger] items[i].0 == k implies exists|
                i2: int,
            | 0 <= i2 < rest.len() && #[trigger] rest[i2].0 == k by {
                assert(i != n);
                assert(items[i] == rest[i]);
            }
            assert forall|j: int|
                0 <= j < items.len() && #[trigger] items[j].0 == k && (forall|i: int|
                    j < i < items.len() ==> #[trigger] items[i].0 != k) implies insert_all(
                m,
                items,
            )[k] == items[j].1 by {
                assert(j != n);
                assert(items[j] == rest[j]);
                assert forall|i: int| j < i < rest.len() implies #[trigger] rest[i].0 != k by {
                    assert(items[i] == rest[i]);
                }
            }
            if m.contains_key(k) && (forall|i: int| 0 <= i < items.len() ==> #[trigger] items[i].0 != k) {
                assert forall|i: int| 0 <= i < rest.len() implies #[trigger] rest[i].0 != k by {
                    assert(items[i] == rest[i]);
                }
            }
        }
    }
}

/// After reserving room for `total` elements (`reserve`, `shrink_to`,
/// `shrink_to_fit`), the table takes that many elements without growing.
pub proof fn law_reserved_room(total: int, r: int, len: int)
    requires
        total > 0,
        resize_for(total, r),
        0 <= len < total,
    ensures
        total <= load_capacity_spec(r),
        grown_capacity(r, len) == r,
{
    let n = choose|n: int|
        capacity_for(total, n) && r == (if total > load_capacity_spec(n) {
            2 * n
        } else {
            n
        });
    assert(n >= 32);
    assert(r >= n);
}

/// A map made by `with_capacity(cap)` (a table of `r` slots) takes `cap`
/// elements without growing.
pub proof fn law_capacity_room(cap: int, r: int, len: int)
    requires
        0 <= cap,
        cap == 0 ==> r == 32,
        cap > 0 ==> resize_for(cap, r),
        0 <= len < cap,
    ensures
        cap <= load_capacity_spec(r),
        grown_capacity(r, len) == r,
{
    law_reserved_room(cap, r, len);
}


/// A table with no occupied slot holds nothing.
proof fn lemma_empty_table<K, V>(s: Seq<Option<Bucket<K, V>>>)
    requires
        forall|j: int| 0 <= j < s.len() ==> !(#[trigger] occ(s, j)),
    ensures
        count_occ(s) == 0,
        keys_distinct(s),
        rh_ok(s),
        contents(s) == Map::<K, V>::empty(),
    decreases s.len(),
{
    if s.len() > 0 {
        let t = s.drop_last();
        assert forall|j: int| 0 <= j < t.len() implies !(#[trigger] occ(t, j)) by {
            assert(occ(s, j) == occ(t, j));
        }
        lemma_empty_table(t);
        assert(!occ(s, s.len() - 1));
    }
    assert forall|k: K| !contains(s, k) by {
        if contains(s, k) {
            let i = choose|i: int| has_key_at(s, i, k);
            assert(occ(s, i));
        }
    }
    assert(contents(s) =~= Map::<K, V>::empty());
}

} // verus!
