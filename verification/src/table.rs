//! The slot table behind [`crate::map::HashMap`]: its buckets, the
//! mathematical model of a table of slots, and the facts about it that the
//! probing algorithms rely on.

use vstd::prelude::*;
use vstd::arithmetic::power2::{pow2, lemma_pow2_strictly_increases, lemma_pow2_pos, lemma2_to64};
use vstd::bits::{low_bits_mask, lemma_usize_low_bits_mask_is_mod};
use vstd::arithmetic::div_mod::{lemma_small_mod, lemma_add_mod_noop, lemma_sub_mod_noop, lemma_mod_add_multiples_vanish};
use crate::ahash::HasherState;
use crate::key::MapKey;
use crate::random_state::hash_of;

verus! {

/// One occupied slot: a key, its value and the cached hash of the key.
pub struct Bucket<K, V> {
    pub key: K,
    pub value: V,
    pub hash: u64,
}

pub open spec fn is_pow2(n: int) -> bool {
    exists|k: nat| pow2(k) == n
}

/// The slot a hash wants to live in, for a table of `cap` slots.
pub open spec fn home(h: u64, cap: int) -> int {
    (h as usize) as int % cap
}

/// The slot after `i`, wrapping around.
pub open spec fn nxt(i: int, cap: int) -> int {
    (i + 1) % cap
}

/// The slot before `i`, wrapping around.
pub open spec fn prv(i: int, cap: int) -> int {
    (i + cap - 1) % cap
}

/// The slot `t` places after `a`, wrapping around.
pub open spec fn at(a: int, t: int, cap: int) -> int {
    (a + t) % cap
}

pub open spec fn occ<K, V>(s: Seq<Option<Bucket<K, V>>>, i: int) -> bool {
    s[i] is Some
}

pub open spec fn bkt<K, V>(s: Seq<Option<Bucket<K, V>>>, i: int) -> Bucket<K, V> {
    s[i]->Some_0
}

/// How far the bucket in slot `i` sits from its home slot.
pub open spec fn disp<K, V>(s: Seq<Option<Bucket<K, V>>>, i: int) -> int {
    (i - home(bkt(s, i).hash, s.len() as int)) % (s.len() as int)
}

/// The Robin Hood ordering between slot `i` and the slot after it: a bucket
/// that is displaced follows an occupied slot whose bucket is displaced at
/// most one less.
pub open spec fn rh_at<K, V>(s: Seq<Option<Bucket<K, V>>>, i: int) -> bool {
    let n = nxt(i, s.len() as int);
    occ(s, n) && disp(s, n) > 0 ==> occ(s, i) && disp(s, i) + 1 >= disp(s, n)
}

pub open spec fn rh_ok<K, V>(s: Seq<Option<Bucket<K, V>>>) -> bool {
    forall|i: int| 0 <= i < s.len() ==> #[trigger] rh_at(s, i)
}

pub open spec fn has_key_at<K, V>(s: Seq<Option<Bucket<K, V>>>, i: int, k: K) -> bool {
    0 <= i < s.len() && s[i] is Some && bkt(s, i).key == k
}

/// No key occupies two slots.
pub open spec fn keys_distinct<K, V>(s: Seq<Option<Bucket<K, V>>>) -> bool {
    forall|i: int, j: int|
        #![trigger bkt(s, i), bkt(s, j)]
        0 <= i < s.len() && 0 <= j < s.len() && occ(s, i) && occ(s, j) && bkt(s, i).key == bkt(
            s,
            j,
        ).key ==> i == j
}

pub open spec fn hashes_ok<K: MapKey, V>(s: Seq<Option<Bucket<K, V>>>, rs: HasherState) -> bool {
    forall|i: int|
        0 <= i < s.len() && #[trigger] occ(s, i) ==> bkt(s, i).hash == hash_of(rs, bkt(s, i).key)
}

pub open spec fn contains<K, V>(s: Seq<Option<Bucket<K, V>>>, k: K) -> bool {
    exists|i: int| #[trigger] has_key_at(s, i, k)
}

pub open spec fn index_of<K, V>(s: Seq<Option<Bucket<K, V>>>, k: K) -> int {
    choose|i: int| #[trigger] has_key_at(s, i, k)
}

/// The map from keys to values that a table of slots holds.
pub open spec fn contents<K, V>(s: Seq<Option<Bucket<K, V>>>) -> Map<K, V> {
    Map::new(|k: K| contains(s, k), |k: K| bkt(s, index_of(s, k)).value)
}

/// The number of occupied slots.
pub open spec fn count_occ<K, V>(s: Seq<Option<Bucket<K, V>>>) -> nat
    decreases s.len(),
{
    if s.len() == 0 {
        0
    } else {
        count_occ(s.drop_last()) + if s.last() is Some { 1nat } else { 0nat }
    }
}

/// With a power-of-two capacity, masking by `cap - 1` is reduction modulo `cap`.
pub proof fn lemma_mask_is_mod(x: usize, cap: usize)
    requires
        cap > 0,
        is_pow2(cap as int),
    ensures
        x & ((cap - 1) as usize) == x % cap,
{
    let k = choose|k: nat| pow2(k) == cap as int;
    if k >= usize::BITS {
        if k > usize::BITS {
            lemma_pow2_strictly_increases(usize::BITS as nat, k);
        }
        lemma2_to64();
        assert(usize::BITS == 32 || usize::BITS == 64);
        assert(false);
    }
    lemma_usize_low_bits_mask_is_mod(x, k);
    lemma_pow2_pos(k);
}


pub proof fn lemma_distinct_pair<K, V>(s: Seq<Option<Bucket<K, V>>>, i: int, j: int)
    requires
        keys_distinct(s),
        0 <= i < s.len(),
        0 <= j < s.len(),
        occ(s, i),
        occ(s, j),
        bkt(s, i).key == bkt(s, j).key,
    ensures
        i == j,
{
    assert(bkt(s, i) == bkt(s, i) && bkt(s, j) == bkt(s, j));
}

/// A key held in slot `i` is found there by `index_of`, with its value.
pub proof fn lemma_unique<K, V>(s: Seq<Option<Bucket<K, V>>>, i: int, k: K)
    requires
        keys_distinct(s),
        has_key_at(s, i, k),
    ensures
        contains(s, k),
        index_of(s, k) == i,
        contents(s).dom().contains(k),
        contents(s)[k] == bkt(s, i).value,
{
    assert(has_key_at(s, i, k));
    let j = index_of(s, k);
    assert(has_key_at(s, j, k));
    assert(bkt(s, i).key == bkt(s, j).key);
}

/// How many slots are occupied after one slot is overwritten.
pub proof fn lemma_count_update<K, V>(s: Seq<Option<Bucket<K, V>>>, p: int, x: Option<Bucket<K, V>>)
    requires
        0 <= p < s.len(),
    ensures
        count_occ(s.update(p, x)) == count_occ(s) - (if s[p] is Some { 1int } else { 0int }) + (
        if x is Some { 1int } else { 0int }),
    decreases s.len(),
{
    let s2 = s.update(p, x);
    if p == s.len() - 1 {
        assert(s2.drop_last() =~= s.drop_last());
    } else {
        lemma_count_update(s.drop_last(), p, x);
        assert(s2.drop_last() =~= s.drop_last().update(p, x));
    }
}

/// At most every slot is occupied; if fewer are, some slot is empty.
pub proof fn lemma_count_bound<K, V>(s: Seq<Option<Bucket<K, V>>>)
    ensures
        count_occ(s) <= s.len(),
        count_occ(s) < s.len() ==> exists|i: int| 0 <= i < s.len() && !(#[trigger] occ(s, i)),
    decreases s.len(),
{
    if s.len() > 0 {
        let t = s.drop_last();
        lemma_count_bound(t);
        if count_occ(s) < s.len() {
            if s.last() is Some {
                let i = choose|i: int| 0 <= i < t.len() && !(#[trigger] occ(t, i));
                assert(s[i] == t[i]);
                assert(!occ(s, i));
            } else {
                assert(!occ(s, s.len() - 1));
            }
        }
    }
}

/// Overwriting the bucket of a key with a bucket for the same key.
pub proof fn lemma_put_same_key<K, V>(s: Seq<Option<Bucket<K, V>>>, p: int, b: Bucket<K, V>)
    requires
        keys_distinct(s),
        has_key_at(s, p, b.key),
    ensures
        keys_distinct(s.update(p, Some(b))),
        contents(s.update(p, Some(b))) == contents(s).insert(b.key, b.value),
        count_occ(s.update(p, Some(b))) == count_occ(s),
{
    let s2 = s.update(p, Some(b));
    lemma_count_update(s, p, Some(b));
    assert(has_key_at(s2, p, b.key));
    assert forall|i: int, j: int|
        0 <= i < s2.len() && 0 <= j < s2.len() && occ(s2, i) && occ(s2, j) && #[trigger] bkt(
            s2,
            i,
        ).key == #[trigger] bkt(s2, j).key implies i == j by {
        if i != p {
            assert(s2[i] == s[i]);
        }
        if j != p {
            assert(s2[j] == s[j]);
        }
        let ii = if i == p { p } else { i };
        let jj = if j == p { p } else { j };
        lemma_distinct_pair(s, ii, jj);
    }
    lemma_unique(s2, p, b.key);
    let m = contents(s).insert(b.key, b.value);
    assert forall|k: K| #[trigger] contents(s2).dom().contains(k) <==> m.dom().contains(k) by {
        if k != b.key {
            if contains(s2, k) {
                let i = choose|i: int| has_key_at(s2, i, k);
                assert(has_key_at(s, i, k));
            }
            if contains(s, k) {
                let i = choose|i: int| has_key_at(s, i, k);
                assert(has_key_at(s2, i, k));
            }
        }
    }
    assert forall|k: K| #[trigger] contents(s2).dom().contains(k) implies contents(s2)[k] == m[k] by {
        if k != b.key {
            let i = index_of(s2, k);
            assert(has_key_at(s2, i, k));
            assert(has_key_at(s, i, k));
            lemma_unique(s, i, k);
        }
    }
    assert(contents(s2) =~= m);
}

/// Putting a bucket for an absent key into an empty slot.
pub proof fn lemma_put_empty<K, V>(s: Seq<Option<Bucket<K, V>>>, p: int, b: Bucket<K, V>)
    requires
        keys_distinct(s),
        0 <= p < s.len(),
        !occ(s, p),
        !contains(s, b.key),
    ensures
        keys_distinct(s.update(p, Some(b))),
        contents(s.update(p, Some(b))) == contents(s).insert(b.key, b.value),
        count_occ(s.update(p, Some(b))) == count_occ(s) + 1,
{
    let s2 = s.update(p, Some(b));
    lemma_count_update(s, p, Some(b));
    assert forall|i: int, j: int|
        0 <= i < s2.len() && 0 <= j < s2.len() && occ(s2, i) && occ(s2, j) && #[trigger] bkt(
            s2,
            i,
        ).key == #[trigger] bkt(s2, j).key implies i == j by {
        if i != p {
            assert(s2[i] == s[i]);
        }
        if j != p {
            assert(s2[j] == s[j]);
        }
        if i == p && j != p {
            assert(has_key_at(s, j, b.key));
        } else if j == p && i != p {
            assert(has_key_at(s, i, b.key));
        } else if i != p && j != p {
            lemma_distinct_pair(s, i, j);
        }
    }
    assert(has_key_at(s2, p, b.key));
    lemma_unique(s2, p, b.key);
    let m = contents(s).insert(b.key, b.value);
    assert forall|k: K| #[trigger] contents(s2).dom().contains(k) <==> m.dom().contains(k) by {
        if k != b.key {
            if contains(s2, k) {
                let i = choose|i: int| has_key_at(s2, i, k);
                assert(has_key_at(s, i, k));
            }
            if contains(s, k) {
                let i = choose|i: int| has_key_at(s, i, k);
                assert(has_key_at(s2, i, k));
            }
        }
    }
    assert forall|k: K| #[trigger] contents(s2).dom().contains(k) implies contents(s2)[k] == m[k] by {
        if k != b.key {
            let i = index_of(s2, k);
            assert(has_key_at(s2, i, k));
            assert(has_key_at(s, i, k));
            lemma_unique(s, i, k);
        }
    }
    assert(contents(s2) =~= m);
}

/// Replacing the bucket in an occupied slot by a bucket for an absent key.
pub proof fn lemma_put_evict<K, V>(s: Seq<Option<Bucket<K, V>>>, p: int, b: Bucket<K, V>)
    requires
        keys_distinct(s),
        0 <= p < s.len(),
        occ(s, p),
        !contains(s, b.key),
    ensures
        keys_distinct(s.update(p, Some(b))),
        contents(s.update(p, Some(b))) == contents(s).remove(bkt(s, p).key).insert(b.key, b.value),
        count_occ(s.update(p, Some(b))) == count_occ(s),
        !contains(s.update(p, Some(b)), bkt(s, p).key),
{
    let s2 = s.update(p, Some(b));
    let e = bkt(s, p);
    lemma_count_update(s, p, Some(b));
    assert(has_key_at(s, p, e.key));
    assert forall|i: int, j: int|
        0 <= i < s2.len() && 0 <= j < s2.len() && occ(s2, i) && occ(s2, j) && #[trigger] bkt(
            s2,
            i,
        ).key == #[trigger] bkt(s2, j).key implies i == j by {
        if i != p {
            assert(s2[i] == s[i]);
        }
        if j != p {
            assert(s2[j] == s[j]);
        }
        if i == p && j != p {
            assert(has_key_at(s, j, b.key));
        } else if j == p && i != p {
            assert(has_key_at(s, i, b.key));
        } else if i != p && j != p {
            lemma_distinct_pair(s, i, j);
        }
    }
    if contains(s2, e.key) {
        let i = choose|i: int| has_key_at(s2, i, e.key);
        if i == p {
            assert(has_key_at(s, p, b.key));
        } else {
            assert(has_key_at(s, i, e.key));
            assert(bkt(s, i) == bkt(s, i));
        }
    }
    assert(has_key_at(s2, p, b.key));
    lemma_unique(s2, p, b.key);
    let m = contents(s).remove(e.key).insert(b.key, b.value);
    assert forall|k: K| #[trigger] contents(s2).dom().contains(k) <==> m.dom().contains(k) by {
        if k != b.key && k != e.key {
            if contains(s2, k) {
                let i = choose|i: int| has_key_at(s2, i, k);
                assert(has_key_at(s, i, k));
            }
            if contains(s, k) {
                let i = choose|i: int| has_key_at(s, i, k);
                assert(has_key_at(s2, i, k));
            }
        }
    }
    assert forall|k: K| #[trigger] contents(s2).dom().contains(k) implies contents(s2)[k] == m[k] by {
        if k != b.key {
            let i = index_of(s2, k);
            assert(has_key_at(s2, i, k));
            assert(has_key_at(s, i, k));
            lemma_unique(s, i, k);
        }
    }
    assert(contents(s2) =~= m);
}

/// Emptying an occupied slot.
pub proof fn lemma_take<K, V>(s: Seq<Option<Bucket<K, V>>>, p: int)
    requires
        keys_distinct(s),
        0 <= p < s.len(),
        occ(s, p),
    ensures
        keys_distinct(s.update(p, None)),
        contents(s.update(p, None)) == contents(s).remove(bkt(s, p).key),
        count_occ(s.update(p, None)) == count_occ(s) - 1,
{
    let s2 = s.update(p, None::<Bucket<K, V>>);
    let e = bkt(s, p);
    lemma_count_update(s, p, None);
    assert forall|i: int, j: int|
        0 <= i < s2.len() && 0 <= j < s2.len() && occ(s2, i) && occ(s2, j) && #[trigger] bkt(
            s2,
            i,
        ).key == #[trigger] bkt(s2, j).key implies i == j by {
        assert(s2[i] == s[i]);
        assert(s2[j] == s[j]);
        lemma_distinct_pair(s, i, j);
    }
    let m = contents(s).remove(e.key);
    assert forall|k: K| #[trigger] contents(s2).dom().contains(k) <==> m.dom().contains(k) by {
        if contains(s2, k) {
            let i = choose|i: int| has_key_at(s2, i, k);
            assert(has_key_at(s, i, k));
            if k == e.key {
                assert(has_key_at(s, p, k));
                assert(bkt(s, i) == bkt(s, i));
            }
        }
        if k != e.key && contains(s, k) {
            let i = choose|i: int| has_key_at(s, i, k);
            assert(has_key_at(s2, i, k));
        }
    }
    assert forall|k: K| #[trigger] contents(s2).dom().contains(k) implies contents(s2)[k] == m[k] by {
        let i = index_of(s2, k);
        assert(has_key_at(s2, i, k));
        assert(has_key_at(s, i, k));
        lemma_unique(s, i, k);
    }
    assert(contents(s2) =~= m);
}


/// Wrap-around arithmetic on slot numbers.
pub proof fn lemma_at_facts(a: int, t: int, cap: int)
    requires
        1 < cap,
        0 <= a < cap,
        0 <= t,
    ensures
        0 <= at(a, t, cap) < cap,
        nxt(at(a, t, cap), cap) == at(a, t + 1, cap),
        t < cap ==> (at(a, t, cap) - a) % cap == t,
        at(a, 0, cap) == a,
{
    lemma_add_mod_noop(a + t, 1, cap);
    lemma_small_mod(1, cap as nat);
    lemma_small_mod(a as nat, cap as nat);
    if t < cap {
        lemma_sub_mod_noop(a + t, a, cap);
        lemma_small_mod(t as nat, cap as nat);
    }
}

/// A slot is reached from `a` by stepping forward as many places as it lies
/// after `a`.
pub proof fn lemma_at_disp(a: int, p: int, cap: int)
    requires
        1 < cap,
        0 <= a < cap,
        0 <= p < cap,
    ensures
        0 <= (p - a) % cap < cap,
        at(a, (p - a) % cap, cap) == p,
{
    lemma_add_mod_noop(a, p - a, cap);
    lemma_small_mod(a as nat, cap as nat);
    lemma_small_mod(p as nat, cap as nat);
}

/// Going back from a slot to the home of its bucket, every slot on the way is
/// occupied by a bucket displaced at least as far as that slot is from the home.
pub proof fn lemma_probe_path<K, V>(s: Seq<Option<Bucket<K, V>>>, p: int, t: int)
    requires
        rh_ok(s),
        1 < s.len(),
        0 <= p < s.len(),
        occ(s, p),
        0 <= t < disp(s, p),
    ensures
        occ(s, at(home(bkt(s, p).hash, s.len() as int), t, s.len() as int)),
        disp(s, at(home(bkt(s, p).hash, s.len() as int), t, s.len() as int)) >= t,
    decreases disp(s, p) - t,
{
    let cap = s.len() as int;
    let h = home(bkt(s, p).hash, cap);
    let q = at(h, t + 1, cap);
    let i = at(h, t, cap);
    lemma_at_facts(h, t, cap);
    lemma_at_disp(h, p, cap);
    if t + 1 < disp(s, p) {
        lemma_probe_path(s, p, t + 1);
    }
    assert(occ(s, q) && disp(s, q) >= t + 1);
    assert(rh_at(s, i));
}

/// A probe for a key that starts at its home slot and passes `dist` slots
/// holding other keys, then meets an empty slot or a bucket displaced less
/// than `dist`, proves the key absent.
pub proof fn lemma_absent<K: MapKey, V>(
    s: Seq<Option<Bucket<K, V>>>,
    rs: HasherState,
    k: K,
    dist: int,
)
    requires
        rh_ok(s),
        hashes_ok(s, rs),
        1 < s.len(),
        0 <= dist < s.len(),
        forall|t: int|
            0 <= t < dist ==> !has_key_at(
                s,
                #[trigger] at(home(hash_of(rs, k), s.len() as int), t, s.len() as int),
                k,
            ),
        ({
            let q = at(home(hash_of(rs, k), s.len() as int), dist, s.len() as int);
            !occ(s, q) || (bkt(s, q).key != k && disp(s, q) < dist)
        }),
    ensures
        !contains(s, k),
{
    let cap = s.len() as int;
    let d = home(hash_of(rs, k), cap);
    lemma_at_facts(d, dist, cap);
    if contains(s, k) {
        let p = choose|p: int| has_key_at(s, p, k);
        assert(occ(s, p));
        assert(bkt(s, p).hash == hash_of(rs, k));
        let dd = disp(s, p);
        lemma_at_disp(d, p, cap);
        assert(at(d, dd, cap) == p);
        if dd < dist {
            assert(!has_key_at(s, at(d, dd, cap), k));
        } else if dd > dist {
            lemma_probe_path(s, p, dist);
        }
    }
}

/// The keys a table holds are exactly as many as its occupied slots.
pub proof fn lemma_dom_len<K, V>(s: Seq<Option<Bucket<K, V>>>)
    requires
        keys_distinct(s),
    ensures
        contents(s).dom().finite(),
        contents(s).dom().len() == count_occ(s),
    decreases s.len(),
{
    if s.len() == 0 {
        assert(contents(s).dom() =~= Set::empty());
    } else {
        let t = s.drop_last();
        let n = s.len() - 1;
        assert forall|i: int, j: int|
            0 <= i < t.len() && 0 <= j < t.len() && occ(t, i) && occ(t, j) && #[trigger] bkt(
                t,
                i,
            ).key == #[trigger] bkt(t, j).key implies i == j by {
            assert(t[i] == s[i] && t[j] == s[j]);
            lemma_distinct_pair(s, i, j);
        }
        lemma_dom_len(t);
        if s.last() is Some {
            let k = bkt(s, n).key;
            assert forall|x: K| #[trigger] contents(s).dom().contains(x) <==> contents(t).dom().insert(
                k,
            ).contains(x) by {
                if x != k {
                    if contains(s, x) {
                        let i = choose|i: int| has_key_at(s, i, x);
                        assert(has_key_at(t, i, x));
                    }
                    if contains(t, x) {
                        let i = choose|i: int| has_key_at(t, i, x);
                        assert(has_key_at(s, i, x));
                    }
                } else {
                    assert(has_key_at(s, n, k));
                }
            }
            assert(contents(s).dom() =~= contents(t).dom().insert(k));
            if contains(t, k) {
                let i = choose|i: int| has_key_at(t, i, k);
                assert(has_key_at(s, i, k));
                assert(s[i] == t[i]);
                lemma_distinct_pair(s, i, n);
            }
        } else {
            assert forall|x: K| #[trigger] contents(s).dom().contains(x) <==> contents(t).dom().contains(
                x,
            ) by {
                if contains(s, x) {
                    let i = choose|i: int| has_key_at(s, i, x);
                    assert(has_key_at(t, i, x));
                }
                if contains(t, x) {
                    let i = choose|i: int| has_key_at(t, i, x);
                    assert(has_key_at(s, i, x));
                }
            }
            assert(contents(s).dom() =~= contents(t).dom());
        }
    }
}


/// Stepping back and forth between neighbouring slots.
pub proof fn lemma_nxt_prv(p: int, cap: int)
    requires
        1 < cap,
        0 <= p < cap,
    ensures
        0 <= prv(p, cap) < cap,
        0 <= nxt(p, cap) < cap,
        nxt(p, cap) != p,
        nxt(prv(p, cap), cap) == p,
        prv(nxt(p, cap), cap) == p,
        forall|i: int| 0 <= i < cap && #[trigger] nxt(i, cap) == p ==> i == prv(p, cap),
{
    lemma_add_mod_noop(p + cap - 1, 1, cap);
    lemma_small_mod(1, cap as nat);
    lemma_mod_add_multiples_vanish(p, cap);
    lemma_small_mod(p as nat, cap as nat);
    if p + 1 < cap {
        lemma_small_mod((p + 1) as nat, cap as nat);
        lemma_small_mod(p as nat, cap as nat);
    } else {
        assert(nxt(p, cap) == 0) by {
            vstd::arithmetic::div_mod::lemma_mod_self_0(cap);
        }
        lemma_small_mod((cap - 1) as nat, cap as nat);
    }
    if p > 0 {
        lemma_small_mod((p - 1) as nat, cap as nat);
        lemma_mod_add_multiples_vanish(p - 1, cap);
    } else {
        lemma_small_mod((cap - 1) as nat, cap as nat);
    }
    assert forall|i: int| 0 <= i < cap && #[trigger] nxt(i, cap) == p implies i == prv(p, cap) by {
        if i + 1 < cap {
            lemma_small_mod((i + 1) as nat, cap as nat);
        } else {
            vstd::arithmetic::div_mod::lemma_mod_self_0(cap);
        }
    }
}

/// Writing a bucket into slot `p` keeps the Robin Hood ordering when the
/// bucket is displaced at least as far as the one it replaces, and the slot
/// before holds a bucket displaced at most one less.
pub proof fn lemma_rh_put<K, V>(s: Seq<Option<Bucket<K, V>>>, p: int, b: Bucket<K, V>)
    requires
        rh_ok(s),
        1 < s.len(),
        0 <= p < s.len(),
        !occ(s, p) || (p - home(b.hash, s.len() as int)) % (s.len() as int) >= disp(s, p),
        (p - home(b.hash, s.len() as int)) % (s.len() as int) > 0 ==> occ(s, prv(p, s.len() as int))
            && disp(s, prv(p, s.len() as int)) + 1 >= (p - home(b.hash, s.len() as int)) % (
        s.len() as int),
    ensures
        rh_ok(s.update(p, Some(b))),
{
    let cap = s.len() as int;
    let s2 = s.update(p, Some(b));
    lemma_nxt_prv(p, cap);
    assert forall|i: int| 0 <= i < s2.len() implies #[trigger] rh_at(s2, i) by {
        let n = nxt(i, cap);
        lemma_nxt_prv(i, cap);
        assert(rh_at(s, i));
        if i == p {
            assert(n != p);
            assert(s2[n] == s[n]);
        } else if n == p {
            assert(i == prv(p, cap));
            assert(s2[i] == s[i]);
        } else {
            assert(s2[n] == s[n]);
            assert(s2[i] == s[i]);
        }
    }
}


/// Writing a bucket whose cached hash is right keeps every cached hash right.
pub proof fn lemma_hashes_put<K: MapKey, V>(
    s: Seq<Option<Bucket<K, V>>>,
    rs: HasherState,
    p: int,
    x: Option<Bucket<K, V>>,
)
    requires
        hashes_ok(s, rs),
        0 <= p < s.len(),
        x is Some ==> x->Some_0.hash == hash_of(rs, x->Some_0.key),
    ensures
        hashes_ok(s.update(p, x), rs),
{
    let s2 = s.update(p, x);
    assert forall|i: int| 0 <= i < s2.len() && #[trigger] occ(s2, i) implies bkt(s2, i).hash
        == hash_of(rs, bkt(s2, i).key) by {
        if i != p {
            assert(s2[i] == s[i]);
            assert(occ(s, i));
        }
    }
}


/// Appending a slot to a table with distinct keys.
pub proof fn lemma_contents_push<K, V>(t: Seq<Option<Bucket<K, V>>>, x: Option<Bucket<K, V>>)
    requires
        keys_distinct(t.push(x)),
    ensures
        keys_distinct(t),
        count_occ(t.push(x)) == count_occ(t) + (if x is Some { 1int } else { 0int }),
        x is Some ==> !contains(t, x->Some_0.key) && contents(t.push(x)) == contents(t).insert(
            x->Some_0.key,
            x->Some_0.value,
        ),
        x is None ==> contents(t.push(x)) == contents(t),
{
    let s = t.push(x);
    let n = t.len() as int;
    assert(s.drop_last() =~= t);
    assert forall|i: int, j: int|
        0 <= i < t.len() && 0 <= j < t.len() && occ(t, i) && occ(t, j) && #[trigger] bkt(t, i).key
            == #[trigger] bkt(t, j).key implies i == j by {
        assert(t[i] == s[i] && t[j] == s[j]);
        lemma_distinct_pair(s, i, j);
    }
    assert forall|i: int, k: K| #[trigger] has_key_at(t, i, k) implies has_key_at(s, i, k) by {
        assert(t[i] == s[i]);
    }
    if x is Some {
        let b = x->Some_0;
        if contains(t, b.key) {
            let i = choose|i: int| has_key_at(t, i, b.key);
            assert(has_key_at(s, i, b.key));
            assert(has_key_at(s, n, b.key));
            lemma_distinct_pair(s, i, n);
        }
        let m = contents(t).insert(b.key, b.value);
        assert(has_key_at(s, n, b.key));
        lemma_unique(s, n, b.key);
        assert forall|k: K| #[trigger] contents(s).dom().contains(k) <==> m.dom().contains(k) by {
            if k != b.key && contains(s, k) {
                let i = choose|i: int| has_key_at(s, i, k);
                assert(i != n);
                assert(has_key_at(t, i, k));
            }
        }
        assert forall|k: K| #[trigger] contents(s).dom().contains(k) implies contents(s)[k] == m[k] by {
            if k != b.key {
                let i = index_of(s, k);
                assert(has_key_at(s, i, k));
                assert(i != n);
                assert(has_key_at(t, i, k));
                lemma_unique(t, i, k);
            }
        }
        assert(contents(s) =~= m);
    } else {
        assert forall|k: K| #[trigger] contents(s).dom().contains(k) <==> contents(t).dom().contains(
            k,
        ) by {
            if contains(s, k) {
                let i = choose|i: int| has_key_at(s, i, k);
                assert(i != n);
                assert(has_key_at(t, i, k));
            }
        }
        assert forall|k: K| #[trigger] contents(s).dom().contains(k) implies contents(s)[k] == contents(
            t,
        )[k] by {
            let i = index_of(s, k);
            assert(has_key_at(s, i, k));
            assert(i != n);
            assert(has_key_at(t, i, k));
            lemma_unique(t, i, k);
        }
        assert(contents(s) =~= contents(t));
    }
}

/// The table made of the first `i + 1` slots of `s`, from the first `i`.
pub proof fn lemma_prefix_step<K, V>(s: Seq<Option<Bucket<K, V>>>, i: int)
    requires
        keys_distinct(s),
        0 <= i < s.len(),
    ensures
        count_occ(s.take(i + 1)) == count_occ(s.take(i)) + (if occ(s, i) { 1int } else { 0int }),
        occ(s, i) ==> !contains(s.take(i), bkt(s, i).key) && contents(s.take(i + 1)) == contents(
            s.take(i),
        ).insert(bkt(s, i).key, bkt(s, i).value),
        !occ(s, i) ==> contents(s.take(i + 1)) == contents(s.take(i)),
{
    let t = s.take(i);
    assert(s.take(i + 1) =~= t.push(s[i]));
    assert forall|a: int, b: int|
        0 <= a < t.push(s[i]).len() && 0 <= b < t.push(s[i]).len() && occ(t.push(s[i]), a) && occ(
            t.push(s[i]),
            b,
        ) && #[trigger] bkt(t.push(s[i]), a).key == #[trigger] bkt(t.push(s[i]), b).key implies a
        == b by {
        assert(t.push(s[i])[a] == s[a] && t.push(s[i])[b] == s[b]);
        lemma_distinct_pair(s, a, b);
    }
    lemma_contents_push(t, s[i]);
}

/// A prefix of a table holds no more buckets than the table.
pub proof fn lemma_prefix_count<K, V>(s: Seq<Option<Bucket<K, V>>>, i: int)
    requires
        keys_distinct(s),
        0 <= i <= s.len(),
    ensures
        count_occ(s.take(i)) <= count_occ(s),
        i < s.len() && occ(s, i) ==> count_occ(s.take(i)) < count_occ(s),
    decreases s.len() - i,
{
    if i == s.len() {
        assert(s.take(i) =~= s);
    } else {
        lemma_prefix_step(s, i);
        lemma_prefix_count(s, i + 1);
    }
}


/// Distinct offsets below `cap` from the same slot reach distinct slots.
pub proof fn lemma_at_inj(a: int, t1: int, t2: int, cap: int)
    requires
        1 < cap,
        0 <= a < cap,
        0 <= t1 < cap,
        0 <= t2 < cap,
        at(a, t1, cap) == at(a, t2, cap),
    ensures
        t1 == t2,
{
    lemma_at_facts(a, t1, cap);
    lemma_at_facts(a, t2, cap);
}

/// A bucket moved back one slot is displaced one less.
pub proof fn lemma_disp_prev(p: int, h: int, cap: int)
    requires
        1 < cap,
        0 <= p < cap,
        0 <= h < cap,
        (p - h) % cap >= 1,
    ensures
        (prv(p, cap) - h) % cap == (p - h) % cap - 1,
{
    let d = (p - h) % cap;
    lemma_at_disp(h, p, cap);
    lemma_at_facts(h, d - 1, cap);
    lemma_nxt_prv(at(h, d - 1, cap), cap);
    lemma_nxt_prv(p, cap);
}

/// The table after the bucket in slot `a` is deleted and the `n` buckets
/// after it are shifted back one slot each, emptying the last of them.
pub open spec fn shift_seq<K, V>(s: Seq<Option<Bucket<K, V>>>, a: int, n: int) -> Seq<
    Option<Bucket<K, V>>,
> {
    Seq::new(
        s.len(),
        |j: int|
            {
                let cap = s.len() as int;
                let t = (j - a) % cap;
                if t < n {
                    s[at(a, t + 1, cap)]
                } else if t == n {
                    None
                } else {
                    s[j]
                }
            },
    )
}

/// After a backward-shift deletion at slot `a`, a slot before `a` holds what
/// it held, what the slot after it held, or nothing.
pub proof fn lemma_shift_below<K, V>(s1: Seq<Option<Bucket<K, V>>>, a: int, n: int, j: int)
    requires
        1 < s1.len(),
        0 <= j < a < s1.len(),
        0 <= n <= s1.len() - 2,
        s1[a] is None,
    ensures
        shift_seq(s1, a, n)[j] is None || shift_seq(s1, a, n)[j] == s1[j] || (j + 1 < a
            && shift_seq(s1, a, n)[j] == s1[j + 1]),
{
    let cap = s1.len() as int;
    let t = (j - a) % cap;
    lemma_mod_add_multiples_vanish(j - a, cap);
    lemma_small_mod((j - a + cap) as nat, cap as nat);
    assert(t == j - a + cap);
    if t < n {
        lemma_mod_add_multiples_vanish(j + 1, cap);
        lemma_small_mod((j + 1) as nat, cap as nat);
        assert(at(a, t + 1, cap) == j + 1);
    }
}

/// Exchanging two slots keeps what the table holds.
pub proof fn lemma_swap<K: MapKey, V>(s: Seq<Option<Bucket<K, V>>>, rs: HasherState, i: int, j: int)
    requires
        keys_distinct(s),
        hashes_ok(s, rs),
        0 <= i < s.len(),
        0 <= j < s.len(),
        i != j,
    ensures
        keys_distinct(s.update(i, s[j]).update(j, s[i])),
        hashes_ok(s.update(i, s[j]).update(j, s[i]), rs),
        contents(s.update(i, s[j]).update(j, s[i])) == contents(s),
        count_occ(s.update(i, s[j]).update(j, s[i])) == count_occ(s),
{
    let s2 = s.update(i, s[j]).update(j, s[i]);
    let pm = |x: int| if x == i { j } else if x == j { i } else { x };
    assert forall|x: int| 0 <= x < s.len() implies s2[x] == s[pm(x)] by {}
    lemma_count_update(s, i, s[j]);
    lemma_count_update(s.update(i, s[j]), j, s[i]);
    assert forall|x: int, y: int|
        0 <= x < s2.len() && 0 <= y < s2.len() && occ(s2, x) && occ(s2, y) && #[trigger] bkt(
            s2,
            x,
        ).key == #[trigger] bkt(s2, y).key implies x == y by {
        assert(s2[x] == s[pm(x)] && s2[y] == s[pm(y)]);
        lemma_distinct_pair(s, pm(x), pm(y));
    }
    assert forall|x: int| 0 <= x < s2.len() && #[trigger] occ(s2, x) implies bkt(s2, x).hash
        == hash_of(rs, bkt(s2, x).key) by {
        assert(s2[x] == s[pm(x)]);
        assert(occ(s, pm(x)));
    }
    assert forall|x: int, k: K| #[trigger] has_key_at(s2, x, k) <==> has_key_at(s, pm(x), k) by {
        if 0 <= x < s.len() {
            assert(s2[x] == s[pm(x)]);
        }
    }
    assert forall|k: K| #[trigger] contents(s2).dom().contains(k) <==> contents(s).dom().contains(
        k,
    ) by {
        if contains(s2, k) {
            let x = choose|x: int| has_key_at(s2, x, k);
            assert(has_key_at(s, pm(x), k));
        }
        if contains(s, k) {
            let x = choose|x: int| has_key_at(s, x, k);
            assert(has_key_at(s2, pm(x), k));
        }
    }
    assert forall|k: K| #[trigger] contents(s2).dom().contains(k) implies contents(s2)[k]
        == contents(s)[k] by {
        let x = index_of(s2, k);
        assert(has_key_at(s2, x, k));
        assert(has_key_at(s, pm(x), k));
        lemma_unique(s, pm(x), k);
    }
    assert(contents(s2) =~= contents(s));
}

/// Backward-shift deletion keeps the Robin Hood ordering: the slot `a` is
/// emptied, the `n` buckets after it, all displaced, move back one slot, and
/// the slot after them is empty or holds a bucket in its home slot.
pub proof fn lemma_rh_shift<K, V>(s: Seq<Option<Bucket<K, V>>>, a: int, n: int)
    requires
        rh_ok(s),
        1 < s.len(),
        0 <= a < s.len(),
        occ(s, a),
        0 <= n <= s.len() - 2,
        forall|t: int|
            1 <= t <= n ==> occ(s, #[trigger] at(a, t, s.len() as int)) && disp(
                s,
                at(a, t, s.len() as int),
            ) > 0,
        !occ(s, at(a, n + 1, s.len() as int)) || disp(s, at(a, n + 1, s.len() as int)) == 0,
    ensures
        rh_ok(shift_seq(s.update(a, None), a, n)),
{
    let cap = s.len() as int;
    let s1 = s.update(a, None);
    let f = shift_seq(s1, a, n);
    assert forall|i: int| 0 <= i < f.len() implies #[trigger] rh_at(f, i) by {
        let t = (i - a) % cap;
        lemma_at_disp(a, i, cap);
        lemma_at_facts(a, t, cap);
        lemma_at_facts(a, t + 1, cap);
        lemma_nxt_prv(i, cap);
        let ni = nxt(i, cap);
        if t < n {
            let p = at(a, t + 1, cap);
            lemma_at_facts(a, t + 1, cap);
            assert(p != a) by {
                if p == a {
                    lemma_at_inj(a, t + 1, 0, cap);
                }
            }
            assert(f[i] == s[p]);
            assert(occ(s, p) && disp(s, p) > 0);
            lemma_nxt_prv(p, cap);
            assert(prv(p, cap) == i);
            lemma_disp_prev(p, home(bkt(s, p).hash, cap), cap);
            assert(disp(f, i) == disp(s, p) - 1);
            if t + 1 < n {
                let p2 = at(a, t + 2, cap);
                lemma_at_facts(a, t + 2, cap);
                assert(p2 != a) by {
                    if p2 == a {
                        lemma_at_inj(a, t + 2, 0, cap);
                    }
                }
                assert((ni - a) % cap == t + 1);
                assert(f[ni] == s[p2]);
                assert(occ(s, p2) && disp(s, p2) > 0);
                lemma_nxt_prv(p2, cap);
                lemma_disp_prev(p2, home(bkt(s, p2).hash, cap), cap);
                assert(nxt(p, cap) == p2);
                assert(rh_at(s, p));
            } else {
                assert((ni - a) % cap == t + 1);
                assert(f[ni] is None);
            }
        } else if t == n {
            assert(f[i] is None);
            assert((ni - a) % cap == n + 1);
            let q = at(a, n + 1, cap);
            assert(q != a) by {
                if q == a {
                    lemma_at_inj(a, n + 1, 0, cap);
                }
            }
            assert(f[ni] == s[q]);
        } else if t < cap - 1 {
            assert(i != a) by {
                if i == a {
                    lemma_at_inj(a, t, 0, cap);
                }
            }
            assert((ni - a) % cap == t + 1);
            assert(ni != a) by {
                if ni == a {
                    lemma_at_inj(a, t + 1, 0, cap);
                }
            }
            assert(f[i] == s[i]);
            assert(f[ni] == s[ni]);
            assert(rh_at(s, i));
        } else {
            assert(i != a);
            assert(f[i] == s[i]);
            assert(ni == a) by {
                lemma_at_facts(a, cap, cap);
                vstd::arithmetic::div_mod::lemma_mod_add_multiples_vanish(a, cap);
                lemma_small_mod(a as nat, cap as nat);
            }
            assert((ni - a) % cap == 0) by {
                lemma_small_mod(0, cap as nat);
            }
            if n > 0 {
                let p = at(a, 1, cap);
                lemma_at_facts(a, 1, cap);
                assert(p != a) by {
                    if p == a {
                        lemma_at_inj(a, 1, 0, cap);
                    }
                }
                assert(f[ni] == s[p]);
                assert(occ(s, p) && disp(s, p) > 0);
                lemma_nxt_prv(p, cap);
                lemma_nxt_prv(a, cap);
                lemma_disp_prev(p, home(bkt(s, p).hash, cap), cap);
                assert(prv(p, cap) == a);
                assert(rh_at(s, a));
                assert(i == prv(a, cap));
                assert(rh_at(s, i));
            } else {
                assert(f[ni] is None);
            }
        }
    }
}


/// The table with the value of the bucket in slot `p` replaced by `v`.
pub open spec fn with_value<K, V>(s: Seq<Option<Bucket<K, V>>>, p: int, v: V) -> Seq<
    Option<Bucket<K, V>>,
> {
    s.update(p, Some(Bucket { value: v, ..bkt(s, p) }))
}

/// Replacing a value keeps every table property, whatever the new value.
pub proof fn lemma_set_value<K: MapKey, V>(s: Seq<Option<Bucket<K, V>>>, rs: HasherState, p: int)
    requires
        keys_distinct(s),
        rh_ok(s),
        hashes_ok(s, rs),
        1 < s.len(),
        0 <= p < s.len(),
        occ(s, p),
    ensures
        forall|v: V|
            {
                &&& keys_distinct(#[trigger] with_value(s, p, v))
                &&& rh_ok(with_value(s, p, v))
                &&& hashes_ok(with_value(s, p, v), rs)
                &&& count_occ(with_value(s, p, v)) == count_occ(s)
                &&& contents(with_value(s, p, v)) == contents(s).insert(bkt(s, p).key, v)
            },
{
    assert forall|v: V|
        {
            &&& keys_distinct(#[trigger] with_value(s, p, v))
            &&& rh_ok(with_value(s, p, v))
            &&& hashes_ok(with_value(s, p, v), rs)
            &&& count_occ(with_value(s, p, v)) == count_occ(s)
            &&& contents(with_value(s, p, v)) == contents(s).insert(bkt(s, p).key, v)
        } by {
        let b = Bucket { value: v, ..bkt(s, p) };
        assert(has_key_at(s, p, b.key));
        lemma_put_same_key(s, p, b);
        lemma_hashes_put(s, rs, p, Some(b));
        assert(occ(s, p));
        lemma_nxt_prv(p, s.len() as int);
        assert(rh_at(s, prv(p, s.len() as int)));
        lemma_rh_put(s, p, b);
    }
}


/// The key-value pairs of the occupied slots, in slot order.
pub open spec fn pairs<K, V>(s: Seq<Option<Bucket<K, V>>>) -> Seq<(K, V)>
    decreases s.len(),
{
    if s.len() == 0 {
        Seq::empty()
    } else if s.last() is Some {
        pairs(s.drop_last()).push((s.last()->Some_0.key, s.last()->Some_0.value))
    } else {
        pairs(s.drop_last())
    }
}

/// The pair a single slot contributes.
pub open spec fn slot_pairs<K, V>(x: Option<Bucket<K, V>>) -> Seq<(K, V)> {
    match x {
        Some(b) => seq![(b.key, b.value)],
        None => Seq::empty(),
    }
}

pub proof fn lemma_pairs_len<K, V>(s: Seq<Option<Bucket<K, V>>>)
    ensures
        pairs(s).len() == count_occ(s),
    decreases s.len(),
{
    if s.len() > 0 {
        lemma_pairs_len(s.drop_last());
    }
}

pub proof fn lemma_pairs_concat<K, V>(a: Seq<Option<Bucket<K, V>>>, b: Seq<Option<Bucket<K, V>>>)
    ensures
        pairs(a + b) == pairs(a) + pairs(b),
    decreases b.len(),
{
    if b.len() == 0 {
        assert(a + b =~= a);
        assert(pairs(a) + pairs(b) =~= pairs(a));
    } else {
        assert((a + b).drop_last() =~= a + b.drop_last());
        lemma_pairs_concat(a, b.drop_last());
        assert((a + b).last() == b.last());
        if b.last() is Some {
            assert(pairs(a + b) =~= pairs(a) + pairs(b));
        } else {
            assert(pairs(a + b) =~= pairs(a) + pairs(b));
        }
    }
}

/// The pairs of a window of slots, split off at its first slot.
pub proof fn lemma_pairs_front<K, V>(s: Seq<Option<Bucket<K, V>>>, p: int, e: int)
    requires
        0 <= p < e <= s.len(),
    ensures
        pairs(s.subrange(p, e)) == slot_pairs(s[p]) + pairs(s.subrange(p + 1, e)),
{
    assert(s.subrange(p, e) =~= seq![s[p]] + s.subrange(p + 1, e));
    lemma_pairs_concat(seq![s[p]], s.subrange(p + 1, e));
    let one = seq![s[p]];
    assert(one.drop_last() =~= Seq::<Option<Bucket<K, V>>>::empty());
    assert(pairs(one.drop_last()) =~= Seq::<(K, V)>::empty());
    assert(one.last() == s[p]);
    if s[p] is Some {
        assert(pairs(one) =~= slot_pairs(s[p]));
    } else {
        assert(pairs(one) =~= slot_pairs(s[p]));
    }
}

/// The pairs of a window of slots, split off at its last slot.
pub proof fn lemma_pairs_back<K, V>(s: Seq<Option<Bucket<K, V>>>, p: int, e: int)
    requires
        0 <= p < e <= s.len(),
    ensures
        pairs(s.subrange(p, e)) == pairs(s.subrange(p, e - 1)) + slot_pairs(s[e - 1]),
{
    assert(s.subrange(p, e).drop_last() =~= s.subrange(p, e - 1));
    assert(s.subrange(p, e).last() == s[e - 1]);
    if s[e - 1] is Some {
        assert(pairs(s.subrange(p, e)) =~= pairs(s.subrange(p, e - 1)) + slot_pairs(s[e - 1]));
    } else {
        assert(pairs(s.subrange(p, e)) =~= pairs(s.subrange(p, e - 1)) + slot_pairs(s[e - 1]));
    }
}

/// Listing the pairs of a table visits each key it holds exactly once, with
/// its value.
pub proof fn lemma_pairs_contents<K, V>(s: Seq<Option<Bucket<K, V>>>)
    requires
        keys_distinct(s),
    ensures
        pairs(s).len() == contents(s).len(),
        forall|i: int|
            0 <= i < pairs(s).len() ==> contents(s).contains_key(#[trigger] pairs(s)[i].0)
                && contents(s)[pairs(s)[i].0] == pairs(s)[i].1,
        forall|k: K|
            #[trigger] contents(s).contains_key(k) ==> exists|i: int|
                0 <= i < pairs(s).len() && #[trigger] pairs(s)[i].0 == k,
        forall|i: int, j: int|
            0 <= i < pairs(s).len() && 0 <= j < pairs(s).len() && i != j ==> #[trigger] pairs(
                s,
            )[i].0 != #[trigger] pairs(s)[j].0,
    decreases s.len(),
{
    lemma_pairs_len(s);
    lemma_dom_len(s);
    if s.len() > 0 {
        let t = s.drop_last();
        let x = s.last();
        assert(s =~= t.push(x));
        lemma_contents_push(t, x);
        lemma_pairs_contents(t);
        lemma_pairs_len(t);
        let pt = pairs(t);
        let ps = pairs(s);
        if x is Some {
            let b = x->Some_0;
            assert(ps =~= pt.push((b.key, b.value)));
            assert forall|i: int|
                0 <= i < ps.len() implies contents(s).contains_key(#[trigger] ps[i].0)
                && contents(s)[ps[i].0] == ps[i].1 by {
                if i < pt.len() {
                    assert(ps[i] == pt[i]);
                    assert(contents(t).contains_key(pt[i].0));
                }
            }
            assert forall|k: K| #[trigger] contents(s).contains_key(k) implies exists|i: int|
                0 <= i < ps.len() && #[trigger] ps[i].0 == k by {
                if k == b.key {
                    assert(ps[pt.len() as int].0 == k);
                } else {
                    assert(contents(t).contains_key(k));
                    let i = choose|i: int| 0 <= i < pt.len() && #[trigger] pt[i].0 == k;
                    assert(ps[i] == pt[i]);
                }
            }
            assert forall|i: int, j: int|
                0 <= i < ps.len() && 0 <= j < ps.len() && i != j implies #[trigger] ps[i].0
                != #[trigger] ps[j].0 by {
                if i < pt.len() && j < pt.len() {
                    assert(ps[i] == pt[i] && ps[j] == pt[j]);
                } else if i < pt.len() {
                    assert(ps[i] == pt[i]);
                    assert(contents(t).contains_key(pt[i].0));
                } else if j < pt.len() {
                    assert(ps[j] == pt[j]);
                    assert(contents(t).contains_key(pt[j].0));
                }
            }
        } else {
            assert(ps =~= pt);
        }
    }
}

/// Two tables occupy the same slots with the same keys and hashes; only the
/// values may differ.
pub open spec fn same_keys<K, V>(a: Seq<Option<Bucket<K, V>>>, b: Seq<Option<Bucket<K, V>>>) -> bool {
    &&& a.len() == b.len()
    &&& forall|i: int| 0 <= i < a.len() ==> (#[trigger] a[i] is Some <==> b[i] is Some)
    &&& forall|i: int|
        0 <= i < a.len() && #[trigger] occ(a, i) ==> bkt(a, i).key == bkt(b, i).key && bkt(a, i).hash
            == bkt(b, i).hash
}

/// The pairs of a single slot.
pub proof fn lemma_pairs_single<K, V>(x: Option<Bucket<K, V>>)
    ensures
        pairs(seq![x]) == slot_pairs(x),
{
    let one = seq![x];
    assert(one.drop_last() =~= Seq::<Option<Bucket<K, V>>>::empty());
    assert(pairs(one.drop_last()) =~= Seq::<(K, V)>::empty());
    assert(one.last() == x);
    assert(pairs(one) =~= slot_pairs(x));
}

/// Tables that agree on keys slot by slot agree when put side by side.
pub proof fn lemma_same_keys_concat<K, V>(
    a1: Seq<Option<Bucket<K, V>>>,
    a2: Seq<Option<Bucket<K, V>>>,
    b1: Seq<Option<Bucket<K, V>>>,
    b2: Seq<Option<Bucket<K, V>>>,
)
    ensures
        same_keys(a1, b1) && same_keys(a2, b2) ==> same_keys(a1 + a2, b1 + b2),
{
    if !(same_keys(a1, b1) && same_keys(a2, b2)) {
        return;
    }
    let a = a1 + a2;
    let b = b1 + b2;
    assert forall|i: int| 0 <= i < a.len() implies (#[trigger] a[i] is Some <==> b[i] is Some) by {
        if i < a1.len() {
            assert(a[i] == a1[i] && b[i] == b1[i]);
        } else {
            assert(a[i] == a2[i - a1.len()] && b[i] == b2[i - a1.len()]);
        }
    }
    assert forall|i: int| 0 <= i < a.len() && #[trigger] occ(a, i) implies bkt(a, i).key == bkt(
        b,
        i,
    ).key && bkt(a, i).hash == bkt(b, i).hash by {
        if i < a1.len() {
            assert(a[i] == a1[i] && b[i] == b1[i]);
            assert(occ(a1, i));
        } else {
            assert(a[i] == a2[i - a1.len()] && b[i] == b2[i - a1.len()]);
            assert(occ(a2, i - a1.len()));
        }
    }
}

/// The number of buckets depends only on which slots are occupied.
pub proof fn lemma_same_keys_count<K, V>(s: Seq<Option<Bucket<K, V>>>, t: Seq<Option<Bucket<K, V>>>)
    ensures
        same_keys(s, t) ==> count_occ(s) == count_occ(t),
    decreases s.len(),
{
    if same_keys(s, t) && s.len() > 0 {
        let s1 = s.drop_last();
        let t1 = t.drop_last();
        assert forall|i: int| 0 <= i < s1.len() implies (#[trigger] s1[i] is Some <==> t1[i] is Some) by {
            assert(s1[i] == s[i] && t1[i] == t[i]);
        }
        assert forall|i: int| 0 <= i < s1.len() && #[trigger] occ(s1, i) implies bkt(s1, i).key
            == bkt(t1, i).key && bkt(s1, i).hash == bkt(t1, i).hash by {
            assert(s1[i] == s[i] && t1[i] == t[i]);
            assert(occ(s, i));
        }
        lemma_same_keys_count(s1, t1);
        assert(s[s.len() - 1] is Some <==> t[t.len() - 1] is Some);
    }
}

/// A table whose values were changed in place, keys and hashes kept, keeps
/// the table invariants and holds the same keys.
pub proof fn lemma_same_keys_shape<K: MapKey, V>(
    s: Seq<Option<Bucket<K, V>>>,
    t: Seq<Option<Bucket<K, V>>>,
    rs: HasherState,
)
    ensures
        same_keys(s, t) ==> count_occ(s) == count_occ(t),
        same_keys(s, t) && keys_distinct(s) ==> keys_distinct(t),
        same_keys(s, t) && rh_ok(s) ==> rh_ok(t),
        same_keys(s, t) && hashes_ok(s, rs) ==> hashes_ok(t, rs),
        same_keys(s, t) ==> contents(t).dom() == contents(s).dom(),
{
    lemma_same_keys_count(s, t);
    if same_keys(s, t) {
        assert forall|i: int| 0 <= i < s.len() && occ(s, i) implies #[trigger] disp(t, i) == disp(s, i) by {
            assert(occ(s, i));
        }
        if keys_distinct(s) {
            assert forall|i: int, j: int|
                0 <= i < t.len() && 0 <= j < t.len() && occ(t, i) && occ(t, j) && #[trigger] bkt(
                    t,
                    i,
                ).key == #[trigger] bkt(t, j).key implies i == j by {
                assert(s[i] is Some && s[j] is Some);
                assert(occ(s, i) && occ(s, j));
                lemma_distinct_pair(s, i, j);
            }
        }
        if rh_ok(s) {
            assert forall|i: int| 0 <= i < t.len() implies #[trigger] rh_at(t, i) by {
                assert(rh_at(s, i));
                let n = nxt(i, t.len() as int);
                if occ(t, n) {
                    assert(s[n] is Some);
                    assert(occ(s, n));
                    assert(disp(t, n) == disp(s, n));
                }
                if occ(t, i) {
                    assert(s[i] is Some);
                    assert(occ(s, i));
                    assert(disp(t, i) == disp(s, i));
                }
            }
        }
        if hashes_ok(s, rs) {
            assert forall|i: int| 0 <= i < t.len() && #[trigger] occ(t, i) implies bkt(t, i).hash
                == hash_of(rs, bkt(t, i).key) by {
                assert(s[i] is Some);
                assert(occ(s, i));
            }
        }
        assert forall|k: K| #[trigger] contents(t).dom().contains(k) <==> contents(s).dom().contains(k) by {
            if contains(t, k) {
                let i = choose|i: int| has_key_at(t, i, k);
                assert(s[i] is Some);
                assert(occ(s, i));
                assert(has_key_at(s, i, k));
            }
            if contains(s, k) {
                let i = choose|i: int| has_key_at(s, i, k);
                assert(occ(s, i));
                assert(has_key_at(t, i, k));
            }
        }
        assert(contents(t).dom() =~= contents(s).dom());
    }
}

} // verus!
