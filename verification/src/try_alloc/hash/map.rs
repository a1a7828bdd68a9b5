use vstd::prelude::*;
use vstd::set_lib::{lemma_int_range, lemma_len_subset, set_int_range};

use crate::try_alloc::hash::hasher::{HashKey, KeyHasher};
use crate::try_alloc::hash::seed::SeedSupplier;
use crate::try_alloc::vec::TryVec;
use crate::try_alloc::AllocError;

verus! {

/// A slot of the table.
enum Entry<K, V> {
    Empty,
    Occupied { key: K, value: V },
    /// A removed entry; probing goes on past it.
    Tombstone,
}

/// A hash map with open addressing and linear probing. A removed entry
/// leaves a tombstone, so that probing for the keys placed after it goes on.
pub struct HashMap<K, V, H, S> {
    vec: Vec<Entry<K, V>>,
    key_hasher: H,
    seed_supplier: S,
    seed: u64,
    len: usize,
    tombstone: usize,
}

/// Slot `i` of `s` holds key `k`.
spec fn holds<K, V>(s: Seq<Entry<K, V>>, i: int, k: K) -> bool {
    0 <= i < s.len() && s[i] is Occupied && s[i]->key == k
}

/// The indices of the occupied slots.
spec fn occ_set<K, V>(s: Seq<Entry<K, V>>) -> Set<int> {
    Set::new(|i: int| 0 <= i < s.len() && s[i] is Occupied)
}

/// The indices of the tombstones.
spec fn tomb_set<K, V>(s: Seq<Entry<K, V>>) -> Set<int> {
    Set::new(|i: int| 0 <= i < s.len() && s[i] is Tombstone)
}

/// No key is held twice.
spec fn unique_keys<K, V>(s: Seq<Entry<K, V>>) -> bool {
    forall|i: int, j: int|
        #![trigger s[i], s[j]]
        0 <= i < s.len() && 0 <= j < s.len() && s[i] is Occupied && s[j] is Occupied && s[i]->key
            == s[j]->key ==> i == j
}

/// The keys held, each with its value.
spec fn entries_map<K, V>(s: Seq<Entry<K, V>>) -> Map<K, V> {
    Map::new(
        |k: K| exists|i: int| holds(s, i, k),
        |k: K| s[choose|i: int| holds(s, i, k)]->value,
    )
}

/// How many slots a probe from `h` goes forward to reach `i`, around the end.
spec fn dist(h: int, i: int, n: int) -> int {
    if h <= i {
        i - h
    } else {
        i + n - h
    }
}

/// The slot `j` steps from `h`, around the end.
spec fn probe_slot<K, V>(s: Seq<Entry<K, V>>, h: int, j: int) -> Entry<K, V> {
    s[(h + j) % (s.len() as int)]
}

/// No empty slot in the first `d` steps from `h`.
spec fn clear_path<K, V>(s: Seq<Entry<K, V>>, h: int, d: int) -> bool {
    forall|j: int| 0 <= j < d ==> !(#[trigger] probe_slot(s, h, j) is Empty)
}

/// The count of occupied slots is below `n`: some slot is free.
proof fn lemma_free_slot<K, V>(s: Seq<Entry<K, V>>)
    requires
        occ_set(s).len() < s.len(),
        occ_set(s).finite(),
    ensures
        exists|i: int| 0 <= i < s.len() && !(#[trigger] s[i] is Occupied),
{
    if forall|i: int| 0 <= i < s.len() ==> #[trigger] s[i] is Occupied {
        lemma_int_range(0, s.len() as int);
        assert(occ_set(s) =~= set_int_range(0, s.len() as int));
    }
}

/// Both index sets are finite, and hold at most `n` indices together.
proof fn lemma_sets_finite<K, V>(s: Seq<Entry<K, V>>)
    ensures
        occ_set(s).finite(),
        tomb_set(s).finite(),
        occ_set(s).len() + tomb_set(s).len() <= s.len(),
{
    lemma_int_range(0, s.len() as int);
    let u = occ_set(s).union(tomb_set(s));
    lemma_len_subset(u, set_int_range(0, s.len() as int));
    lemma_len_subset(occ_set(s), u);
    lemma_len_subset(tomb_set(s), u);
    vstd::set_lib::lemma_set_disjoint_lens(occ_set(s), tomb_set(s));
}

/// `x + 1` around `n`.
proof fn lemma_mod_succ(x: int, n: int)
    requires
        x >= 0,
        n > 0,
    ensures
        (x + 1) % n == if x % n + 1 == n {
            0
        } else {
            x % n + 1
        },
{
    vstd::arithmetic::div_mod::lemma_add_mod_noop(x, 1, n);
    if n == 1 {
        vstd::arithmetic::div_mod::lemma_mod_self_0(1);
        assert(x % 1 == 0);
    } else {
        vstd::arithmetic::div_mod::lemma_small_mod(1nat, n as nat);
        vstd::arithmetic::div_mod::lemma_mod_bound(x, n);
        if x % n + 1 == n {
            vstd::arithmetic::div_mod::lemma_mod_self_0(n);
        } else {
            vstd::arithmetic::div_mod::lemma_small_mod((x % n + 1) as nat, n as nat);
        }
    }
}

/// The distance from `h` to `i` is below `n`, and stepping it from `h`
/// reaches `i`; stepping `j` below `n` from `h` is at distance `j`.
proof fn lemma_dist(h: int, i: int, n: int)
    requires
        0 <= h < n,
        0 <= i < n,
    ensures
        0 <= dist(h, i, n) < n,
        (h + dist(h, i, n)) % n == i,
{
    if h <= i {
        vstd::arithmetic::div_mod::lemma_small_mod(i as nat, n as nat);
    } else {
        vstd::arithmetic::div_mod::lemma_mod_add_multiples_vanish(i, n);
        vstd::arithmetic::div_mod::lemma_small_mod(i as nat, n as nat);
    }
}

/// Stepping `j` below `n` from `h` lands at distance `j`; different steps
/// land on different slots.
proof fn lemma_step_dist(h: int, j: int, n: int)
    requires
        0 <= h < n,
        0 <= j < n,
    ensures
        0 <= (h + j) % n < n,
        dist(h, (h + j) % n, n) == j,
{
    if h + j < n {
        vstd::arithmetic::div_mod::lemma_small_mod((h + j) as nat, n as nat);
    } else {
        vstd::arithmetic::div_mod::lemma_mod_sub_multiples_vanish(h + j, n);
        vstd::arithmetic::div_mod::lemma_small_mod((h + j - n) as nat, n as nat);
    }
}

/// With unique keys, the value of a held key is the one in its slot.
proof fn lemma_value_at<K, V>(s: Seq<Entry<K, V>>, i: int, k: K)
    requires
        unique_keys(s),
        holds(s, i, k),
    ensures
        entries_map(s).contains_key(k),
        entries_map(s)[k] == s[i]->value,
{
    let c = choose|c: int| holds(s, c, k);
    assert(holds(s, c, k));
    assert(c == i);
}

/// Turning the slot of `k` into a tombstone removes `k`.
proof fn lemma_remove_entry<K, V>(s: Seq<Entry<K, V>>, i: int, k: K)
    requires
        unique_keys(s),
        holds(s, i, k),
    ensures
        unique_keys(s.update(i, Entry::Tombstone)),
        entries_map(s.update(i, Entry::Tombstone)) == entries_map(s).remove(k),
        occ_set(s.update(i, Entry::Tombstone)) == occ_set(s).remove(i),
        tomb_set(s.update(i, Entry::Tombstone)) == tomb_set(s).insert(i),
{
    let s2 = s.update(i, Entry::Tombstone);
    assert(occ_set(s2) =~= occ_set(s).remove(i));
    assert(tomb_set(s2) =~= tomb_set(s).insert(i));
    let m2 = entries_map(s2);
    let m = entries_map(s).remove(k);
    assert forall|k2: K| #[trigger] m2.dom().contains(k2) implies m.dom().contains(k2) && m2[k2] == m[k2] by {
        let j = choose|j: int| holds(s2, j, k2);
        assert(holds(s2, j, k2));
        assert(j != i);
        assert(holds(s, j, k2));
        if k2 == k {
            assert(s[i] is Occupied && s[j] is Occupied);
        }
        lemma_value_at(s, j, k2);
        lemma_value_at(s2, j, k2);
    }
    assert forall|k2: K| #[trigger] m.dom().contains(k2) implies m2.dom().contains(k2) by {
        let j = choose|j: int| holds(s, j, k2);
        assert(holds(s, j, k2));
        assert(j != i);
        assert(holds(s2, j, k2));
    }
    assert(m2 =~= m);
}

/// Putting `k`, which is not held, into a free slot adds it.
proof fn lemma_insert_entry<K, V>(s: Seq<Entry<K, V>>, i: int, k: K, v: V)
    requires
        unique_keys(s),
        0 <= i < s.len(),
        !(s[i] is Occupied),
        !entries_map(s).contains_key(k),
    ensures
        unique_keys(s.update(i, Entry::Occupied { key: k, value: v })),
        entries_map(s.update(i, Entry::Occupied { key: k, value: v })) == entries_map(s).insert(k, v),
        occ_set(s.update(i, Entry::Occupied { key: k, value: v })) == occ_set(s).insert(i),
        tomb_set(s.update(i, Entry::Occupied { key: k, value: v })) == tomb_set(s).remove(i),
{
    let s2 = s.update(i, Entry::Occupied { key: k, value: v });
    assert(occ_set(s2) =~= occ_set(s).insert(i));
    assert(tomb_set(s2) =~= tomb_set(s).remove(i));
    assert forall|a: int, b: int|
        0 <= a < s2.len() && 0 <= b < s2.len() && s2[a] is Occupied && s2[b] is Occupied
            && s2[a]->key == s2[b]->key implies a == b by {
        if a == i && b != i {
            assert(holds(s, b, k));
        } else if b == i && a != i {
            assert(holds(s, a, k));
        }
    }
    let m2 = entries_map(s2);
    let m = entries_map(s).insert(k, v);
    assert(holds(s2, i, k));
    lemma_value_at(s2, i, k);
    assert forall|k2: K| #[trigger] m2.dom().contains(k2) implies m.dom().contains(k2) && m2[k2] == m[k2] by {
        if k2 != k {
            let j = choose|j: int| holds(s2, j, k2);
            assert(holds(s2, j, k2));
            assert(j != i);
            assert(holds(s, j, k2));
            lemma_value_at(s, j, k2);
            lemma_value_at(s2, j, k2);
        }
    }
    assert forall|k2: K| #[trigger] m.dom().contains(k2) implies m2.dom().contains(k2) by {
        if k2 != k {
            let j = choose|j: int| holds(s, j, k2);
            assert(holds(s, j, k2));
            assert(j != i);
            assert(holds(s2, j, k2));
        }
    }
    assert(m2 =~= m);
}

/// Appending a slot to a table: an occupied slot with a new key adds the key.
proof fn lemma_push_entry<K, V>(t: Seq<Entry<K, V>>, e: Entry<K, V>)
    requires
        unique_keys(t),
        e is Occupied ==> !entries_map(t).contains_key(e->key),
    ensures
        unique_keys(t.push(e)),
        entries_map(t.push(e)) == if e is Occupied {
            entries_map(t).insert(e->key, e->value)
        } else {
            entries_map(t)
        },
        occ_set(t.push(e)) == if e is Occupied {
            occ_set(t).insert(t.len() as int)
        } else {
            occ_set(t)
        },
        !occ_set(t).contains(t.len() as int),
{
    let t2 = t.push(e);
    let n = t.len() as int;
    if e is Occupied {
        assert(occ_set(t2) =~= occ_set(t).insert(n));
    } else {
        assert(occ_set(t2) =~= occ_set(t));
    }
    assert forall|a: int, b: int|
        0 <= a < t2.len() && 0 <= b < t2.len() && t2[a] is Occupied && t2[b] is Occupied
            && t2[a]->key == t2[b]->key implies a == b by {
        if a == n && b != n {
            assert(holds(t, b, e->key));
        } else if b == n && a != n {
            assert(holds(t, a, e->key));
        } else if a != n && b != n {
            assert(t2[a] == t[a] && t2[b] == t[b]);
        }
    }
    let m2 = entries_map(t2);
    let m = if e is Occupied {
        entries_map(t).insert(e->key, e->value)
    } else {
        entries_map(t)
    };
    if e is Occupied {
        assert(holds(t2, n, e->key));
        lemma_value_at(t2, n, e->key);
    }
    assert forall|k2: K| #[trigger] m2.dom().contains(k2) implies m.dom().contains(k2) && m2[k2] == m[k2] by {
        if !(e is Occupied && k2 == e->key) {
            let j = choose|j: int| holds(t2, j, k2);
            assert(holds(t2, j, k2));
            assert(j != n);
            assert(holds(t, j, k2));
            lemma_value_at(t, j, k2);
            lemma_value_at(t2, j, k2);
        }
    }
    assert forall|k2: K| #[trigger] m.dom().contains(k2) implies m2.dom().contains(k2) by {
        if !(e is Occupied && k2 == e->key) {
            let j = choose|j: int| holds(t, j, k2);
            assert(holds(t, j, k2));
            assert(holds(t2, j, k2));
        }
    }
    assert(m2 =~= m);
}

/// At most three quarters of `n` slots, rounded down: the load limit.
pub open spec fn load_limit(n: int) -> int {
    n * 3 / 4
}

/// The load limit computed without overflow, and below `n`.
proof fn lemma_load_limit(n: int)
    requires
        n >= 0,
    ensures
        n / 4 * 3 + n % 4 * 3 / 4 == load_limit(n),
        load_limit(n) <= n,
{
    vstd::arithmetic::div_mod::lemma_fundamental_div_mod(n, 4);
    let q = n / 4;
    let r = n % 4;
    assert(n * 3 == 4 * (3 * q) + 3 * r);
    let (c, b) = if r == 0 {
        (0int, 0int)
    } else if r == 1 {
        (0int, 3int)
    } else if r == 2 {
        (1int, 2int)
    } else {
        (2int, 1int)
    };
    assert(n * 3 == 4 * (3 * q + c) + b);
    vstd::arithmetic::div_mod::lemma_div_multiples_vanish_fancy(3 * q + c, b, 4);
    assert((n * 3) / 4 == 3 * q + c);
}

impl<K: HashKey, V, H: KeyHasher, S: SeedSupplier> HashMap<K, V, H, S> {
    /// The keys held, each with its value.
    pub closed spec fn view(&self) -> Map<K, V> {
        entries_map(self.vec@)
    }

    /// The number of slots.
    pub closed spec fn spec_capacity(&self) -> nat {
        self.vec@.len()
    }

    /// The entry count kept for the load factor; it counts each key at
    /// least once.
    pub closed spec fn spec_len(&self) -> usize {
        self.len
    }

    /// The number of tombstones.
    pub closed spec fn spec_tombstones(&self) -> usize {
        self.tombstone
    }

    pub closed spec fn spec_seed(&self) -> u64 {
        self.seed
    }

    /// The number of occupied slots.
    pub closed spec fn spec_occupied(&self) -> nat {
        occ_set(self.vec@).len()
    }

    /// The slot a probe for `k` starts from.
    closed spec fn home(&self, k: K) -> int {
        (self.key_hasher.spec_hash(k.spec_key_bytes(), self.seed) as usize) as int % (self.vec@.len() as int)
    }

    /// The probe for the key in slot `i` meets no empty slot before `i`.
    closed spec fn reachable(&self, i: int) -> bool {
        let h = self.home(self.vec@[i]->key);
        clear_path(self.vec@, h, dist(h, i, self.vec@.len() as int))
    }

    /// Keys are held once each, every held key is reached by its probe, and
    /// the counts agree with the slots.
    pub closed spec fn wf(&self) -> bool {
        let s = self.vec@;
        &&& unique_keys(s)
        &&& forall|i: int| 0 <= i < s.len() && #[trigger] s[i] is Occupied ==> self.reachable(i)
        &&& self.len >= occ_set(s).len()
        &&& self.tombstone == tomb_set(s).len()
    }

    /// An empty map with no slots.
    pub fn new(key_hasher: H, seed_supplier: S) -> (m: Self)
        ensures
            m.wf(),
            m@ == Map::<K, V>::empty(),
            m.spec_capacity() == 0,
            m.spec_len() == 0,
            m.spec_tombstones() == 0,
    {
        let m = HashMap { vec: Vec::new(), key_hasher, seed_supplier, seed: 0, len: 0, tombstone: 0 };
        proof {
            assert(occ_set(m.vec@) =~= Set::<int>::empty());
            assert(tomb_set(m.vec@) =~= Set::<int>::empty());
            assert(m@ =~= Map::<K, V>::empty());
        }
        m
    }

    /// The hash of `key` under the current seed.
    fn hash_key(&self, key: &K) -> (r: u64)
        ensures
            r == self.key_hasher.spec_hash(key.spec_key_bytes(), self.seed),
    {
        self.key_hasher.hash_with_seed(key, self.seed)
    }

    /// The slot holding `k`, if any. The probe starts at the home slot of
    /// `k` and stops at an empty slot or after every slot.
    fn find(&self, k: &K) -> (r: Option<usize>)
        requires
            self.wf(),
        ensures
            r matches Some(i) ==> holds(self.vec@, i as int, *k),
            r is None ==> !self@.contains_key(*k),
    {
        let n = self.vec.len();
        if n == 0 {
            return None;
        }
        let h = (self.hash_key(k) as usize) % n;
        let ghost s = self.vec@;
        let mut idx = h;
        let mut searched: usize = 0;
        proof {
            vstd::arithmetic::div_mod::lemma_small_mod(h as nat, n as nat);
        }
        while searched < n
            invariant
                self.wf(),
                n == s.len(),
                s == self.vec@,
                n > 0,
                h == self.home(*k),
                h < n,
                searched <= n,
                idx == (h + searched) % (n as int),
                forall|j: int|
                    0 <= j < searched ==> !(#[trigger] probe_slot(s, h as int, j) is Empty) && !holds(
                        s,
                        (h + j) % (n as int),
                        *k,
                    ),
            decreases n - searched,
        {
            proof {
                vstd::arithmetic::div_mod::lemma_mod_bound(h + searched, n as int);
            }
            match &self.vec[idx] {
                Entry::Empty => {
                    proof {
                        assert(probe_slot(s, h as int, searched as int) is Empty);
                        self.lemma_absent(*k, searched as int);
                    }
                    return None;
                },
                Entry::Occupied { key, .. } => {
                    if key.key_eq(k) {
                        return Some(idx);
                    }
                },
                Entry::Tombstone => {},
            }
            proof {
                lemma_mod_succ(h + searched, n as int);
                assert(!(probe_slot(s, h as int, searched as int) is Empty));
            }
            idx = if idx + 1 == n {
                0
            } else {
                idx + 1
            };
            searched = searched + 1;
        }
        proof {
            self.lemma_absent(*k, n as int);
        }
        None
    }

    /// A probe for `k` that met no empty slot and not `k` in its first `j`
    /// steps, and then an empty slot or the end of the table, shows that `k`
    /// is not held.
    proof fn lemma_absent(&self, k: K, j: int)
        requires
            self.wf(),
            self.vec@.len() > 0,
            0 <= j <= self.vec@.len(),
            forall|j2: int|
                0 <= j2 < j ==> !(#[trigger] probe_slot(self.vec@, self.home(k), j2) is Empty)
                    && !holds(self.vec@, (self.home(k) + j2) % (self.vec@.len() as int), k),
            j < self.vec@.len() ==> probe_slot(self.vec@, self.home(k), j) is Empty,
        ensures
            !self@.contains_key(k),
    {
        let s = self.vec@;
        let n = s.len() as int;
        let h = self.home(k);
        vstd::arithmetic::div_mod::lemma_mod_bound(
            (self.key_hasher.spec_hash(k.spec_key_bytes(), self.seed) as usize) as int,
            n,
        );
        if self@.contains_key(k) {
            let i = choose|i: int| holds(s, i, k);
            assert(holds(s, i, k));
            assert(s[i] is Occupied);
            assert(self.reachable(i));
            lemma_dist(h, i, n);
            let d = dist(h, i, n);
            if d < j {
                assert(probe_slot(s, h, d) == s[(h + d) % n]);
                assert(!holds(s, (h + d) % n, k));
            } else if d == j {
                assert(probe_slot(s, h, j) == s[i]);
            } else {
                assert(!(probe_slot(s, h, j) is Empty));
            }
        }
    }

    /// Removes `k` and returns its value, if held; its slot becomes a
    /// tombstone.
    pub fn remove(&mut self, k: &K) -> (r: Option<V>)
        requires
            old(self).wf(),
        ensures
            final(self).wf(),
            final(self)@ == old(self)@.remove(*k),
            r == if old(self)@.contains_key(*k) {
                Some(old(self)@[*k])
            } else {
                None::<V>
            },
            final(self).spec_capacity() == old(self).spec_capacity(),
            final(self).spec_seed() == old(self).spec_seed(),
            final(self).spec_occupied() <= old(self).spec_occupied(),
            old(self)@.contains_key(*k) ==> final(self).spec_len() == old(self).spec_len() - 1
                && final(self).spec_tombstones() == old(self).spec_tombstones() + 1,
            !old(self)@.contains_key(*k) ==> final(self).spec_len() == old(self).spec_len()
                && final(self).spec_tombstones() == old(self).spec_tombstones(),
    {
        match self.find(k) {
            None => {
                proof {
                    assert(old(self)@.remove(*k) =~= old(self)@);
                }
                None
            },
            Some(i) => {
                let ghost s = self.vec@;
                proof {
                    lemma_value_at(s, i as int, *k);
                    lemma_remove_entry(s, i as int, *k);
                    lemma_sets_finite(s);
                    assert(occ_set(s).contains(i as int));
                    assert(!tomb_set(s).contains(i as int));
                    vstd::set::axiom_set_remove_len(occ_set(s), i as int);
                }
                let _n = self.vec.len();
                let mut e = Entry::Tombstone;
                self.vec.set_and_swap(i, &mut e);
                self.len = self.len - 1;
                self.tombstone = self.tombstone + 1;
                proof {
                    let s2 = self.vec@;
                    assert(s2 == s.update(i as int, Entry::Tombstone));
                    assert forall|j: int| 0 <= j < s2.len() && #[trigger] s2[j] is Occupied implies self.reachable(j) by {
                        assert(old(self).reachable(j));
                        let h = self.home(s2[j]->key);
                        let d = dist(h, j, s2.len() as int);
                        assert forall|t: int| 0 <= t < d implies !(#[trigger] probe_slot(s2, h, t) is Empty) by {
                            assert(!(probe_slot(s, h, t) is Empty));
                        }
                    }
                }
                match e {
                    Entry::Occupied { value, .. } => Some(value),
                    _ => {
                        proof {
                            assert(false);
                        }
                        None
                    },
                }
            },
        }
    }

    /// Puts `k` with `v` into the first slot on the probe from the home slot
    /// of `k` that is not occupied.
    fn do_insert(&mut self, k: K, v: V)
        requires
            old(self).wf(),
            old(self).spec_capacity() > 0,
            !old(self)@.contains_key(k),
            occ_set(old(self).vec@).len() < old(self).spec_capacity(),
            old(self).len < usize::MAX,
        ensures
            final(self).wf(),
            final(self)@ == old(self)@.insert(k, v),
            final(self).spec_capacity() == old(self).spec_capacity(),
            final(self).seed == old(self).seed,
            final(self).key_hasher == old(self).key_hasher,
            final(self).seed_supplier == old(self).seed_supplier,
            final(self).len == old(self).len + 1,
            occ_set(final(self).vec@).len() == occ_set(old(self).vec@).len() + 1,
            final(self).tombstone <= old(self).tombstone,
    {
        let n = self.vec.len();
        let h = (self.hash_key(&k) as usize) % n;
        let ghost s = self.vec@;
        proof {
            lemma_sets_finite(s);
            lemma_free_slot(s);
            vstd::arithmetic::div_mod::lemma_small_mod(h as nat, n as nat);
        }
        let ghost i0 = choose|i: int| 0 <= i < s.len() && !(#[trigger] s[i] is Occupied);
        proof {
            lemma_dist(h as int, i0, n as int);
        }
        let ghost d0 = dist(h as int, i0, n as int);
        let mut idx = h;
        let mut j: usize = 0;
        loop
            invariant
                s == self.vec@,
                *self == *old(self),
                n == s.len(),
                n > 0,
                h < n,
                h == self.home(k),
                0 <= i0 < n,
                !(s[i0] is Occupied),
                d0 == dist(h as int, i0, n as int),
                0 <= d0 < n,
                (h + d0) % (n as int) == i0,
                j <= d0,
                idx == (h + j) % (n as int),
                forall|t: int| 0 <= t < j ==> #[trigger] probe_slot(s, h as int, t) is Occupied,
            ensures
                j <= d0,
                idx == (h + j) % (n as int),
                !(s[idx as int] is Occupied),
                forall|t: int| 0 <= t < j ==> #[trigger] probe_slot(s, h as int, t) is Occupied,
            decreases n - j,
        {
            proof {
                vstd::arithmetic::div_mod::lemma_mod_bound(h + j, n as int);
            }
            let occupied = match &self.vec[idx] {
                Entry::Occupied { .. } => true,
                _ => false,
            };
            if !occupied {
                break;
            }
            proof {
                assert(j != d0);
                assert(probe_slot(s, h as int, j as int) is Occupied);
                lemma_mod_succ(h + j, n as int);
            }
            idx = if idx + 1 == n {
                0
            } else {
                idx + 1
            };
            j = j + 1;
        }
        proof {
            vstd::arithmetic::div_mod::lemma_mod_bound(h + j, n as int);
            lemma_insert_entry(s, idx as int, k, v);
            lemma_step_dist(h as int, j as int, n as int);
            vstd::set::axiom_set_insert_len(occ_set(s), idx as int);
            vstd::set::axiom_set_remove_len(tomb_set(s), idx as int);
            assert(!occ_set(s).contains(idx as int));
        }
        let tomb = match &self.vec[idx] {
            Entry::Tombstone => true,
            _ => false,
        };
        if tomb {
            proof {
                assert(tomb_set(s).contains(idx as int));
            }
            self.tombstone = self.tombstone - 1;
        }
        self.len = self.len + 1;
        self.vec.set(idx, Entry::Occupied { key: k, value: v });
        proof {
            let s2 = self.vec@;
            assert(s2 == s.update(idx as int, Entry::Occupied { key: k, value: v }));
            assert forall|a: int| 0 <= a < s2.len() && #[trigger] s2[a] is Occupied implies self.reachable(a) by {
                if a == idx {
                    assert(self.home(k) == h);
                    assert forall|t: int| 0 <= t < j implies !(#[trigger] probe_slot(s2, h as int, t) is Empty) by {
                        lemma_step_dist(h as int, t, n as int);
                        assert(probe_slot(s, h as int, t) is Occupied);
                    }
                } else {
                    assert(s[a] == s2[a]);
                    assert(old(self).reachable(a));
                    let ha = self.home(s2[a]->key);
                    let da = dist(ha, a, n as int);
                    assert forall|t: int| 0 <= t < da implies !(#[trigger] probe_slot(s2, ha, t) is Empty) by {
                        assert(!(probe_slot(s, ha, t) is Empty));
                    }
                }
            }
        }
    }

    /// Moves the entries into a table of `target` empty slots under a new
    /// seed, if the table has fewer slots; otherwise does nothing.
    fn resize_and_rehash(&mut self, target: usize) -> (r: Result<(), AllocError>)
        requires
            old(self).wf(),
            old(self).len + old(self).spec_capacity() <= usize::MAX,
        ensures
            final(self).wf(),
            final(self)@ == old(self)@,
            final(self).key_hasher == old(self).key_hasher,
            old(self).spec_capacity() >= target ==> r is Ok && *final(self) == *old(self),
            r is Err ==> *final(self) == *old(self),
            r is Ok && old(self).spec_capacity() < target ==> {
                &&& final(self).spec_capacity() == target
                &&& final(self).tombstone == 0
                &&& final(self).len == old(self).len + occ_set(old(self).vec@).len()
                &&& occ_set(final(self).vec@).len() == occ_set(old(self).vec@).len()
            },
    {
        if self.vec.len() >= target {
            return Ok(());
        }
        let mut table = match <Vec<Entry<K, V>> as TryVec<Entry<K, V>>>::try_with_capacity(target) {
            Ok(v) => v,
            Err(e) => {
                return Err(e);
            },
        };
        let mut c: usize = 0;
        while c < target
            invariant
                table@.len() == c,
                c <= target,
                forall|t: int| 0 <= t < c ==> #[trigger] table@[t] is Empty,
            decreases target - c,
        {
            table.push(Entry::Empty);
            c = c + 1;
        }
        let ghost o = self.vec@;
        let ghost len0 = self.len;
        proof {
            lemma_sets_finite(o);
            assert(o.take(0) =~= Seq::<Entry<K, V>>::empty());
            assert(occ_set(o.take(0)) =~= Set::<int>::empty());
            assert(entries_map(o.take(0)) =~= Map::<K, V>::empty());
        }
        core::mem::swap(&mut table, &mut self.vec);
        self.tombstone = 0;
        self.seed = self.seed_supplier.gen_seed();
        proof {
            let s = self.vec@;
            assert(occ_set(s) =~= Set::<int>::empty());
            assert(tomb_set(s) =~= Set::<int>::empty());
            assert(entries_map(s) =~= Map::<K, V>::empty());
        }
        let old_n = table.len();
        let mut i: usize = 0;
        while i < old_n
            invariant
                self.wf(),
                self.vec@.len() == target,
                old_n < target,
                old_n == o.len(),
                table@.len() == old_n,
                i <= old_n,
                forall|t: int| i <= t < old_n ==> #[trigger] table@[t] == o[t],
                unique_keys(o),
                self@ == entries_map(o.take(i as int)),
                occ_set(o.take(i as int)).finite(),
                occ_set(self.vec@).len() == occ_set(o.take(i as int)).len(),
                occ_set(o.take(i as int)).len() <= i,
                self.len == len0 + occ_set(o.take(i as int)).len(),
                self.tombstone == 0,
                len0 + old_n <= usize::MAX,
                self.key_hasher == old(self).key_hasher,
            decreases old_n - i,
        {
            let ghost t = o.take(i as int);
            proof {
                assert forall|a: int, b: int|
                    0 <= a < t.len() && 0 <= b < t.len() && t[a] is Occupied && t[b] is Occupied
                        && t[a]->key == t[b]->key implies a == b by {
                    assert(t[a] == o[a] && t[b] == o[b]);
                }
                if o[i as int] is Occupied {
                    if entries_map(t).contains_key(o[i as int]->key) {
                        let j = choose|j: int| holds(t, j, o[i as int]->key);
                        assert(holds(t, j, o[i as int]->key));
                        assert(t[j] == o[j]);
                        assert(j == i);
                    }
                }
                lemma_push_entry(t, o[i as int]);
                assert(o.take(i + 1) =~= t.push(o[i as int]));
                vstd::set::axiom_set_insert_len(occ_set(t), i as int);
                lemma_sets_finite(o.take(i + 1));
                lemma_sets_finite(self.vec@);
            }
            let mut e = Entry::Empty;
            table.set_and_swap(i, &mut e);
            match e {
                Entry::Occupied { key, value } => {
                    self.do_insert(key, value);
                },
                _ => {},
            }
            i = i + 1;
        }
        proof {
            assert(o.take(old_n as int) =~= o);
        }
        Ok(())
    }

    /// Doubles the table when one more entry would pass the load limit, and
    /// then asks for a table of the same size when more than a quarter of the
    /// slots are tombstones, which changes nothing.
    fn grow_if_need(&mut self) -> (r: Result<(), AllocError>)
        requires
            old(self).wf(),
            old(self).len < usize::MAX,
            old(self).spec_capacity() * 2 <= usize::MAX,
            old(self).len + 2 * old(self).spec_capacity() <= usize::MAX,
        ensures
            final(self).wf(),
            final(self)@ == old(self)@,
            final(self).key_hasher == old(self).key_hasher,
            r is Err ==> *final(self) == *old(self),
            r is Ok ==> final(self).spec_capacity() == if old(self).len + 1 > load_limit(
                old(self).spec_capacity() as int,
            ) {
                2 * old(self).spec_capacity()
            } else {
                old(self).spec_capacity()
            },
            r is Ok && old(self).spec_capacity() > 0 ==> occ_set(final(self).vec@).len()
                < final(self).spec_capacity(),
            old(self).len + 1 <= load_limit(old(self).spec_capacity() as int) ==> r is Ok && *final(self) == *old(self),
            final(self).len <= old(self).len + old(self).spec_capacity(),
    {
        let n = self.vec.len();
        proof {
            lemma_load_limit(n as int);
            lemma_sets_finite(self.vec@);
        }
        if self.len + 1 > n / 4 * 3 + n % 4 * 3 / 4 {
            match self.resize_and_rehash(n * 2) {
                Ok(()) => {},
                Err(e) => {
                    return Err(e);
                },
            }
        }
        let n = self.vec.len();
        proof {
            lemma_sets_finite(self.vec@);
        }
        if self.tombstone > n / 4 {
            match self.resize_and_rehash(n) {
                Ok(()) => {},
                Err(e) => {
                    return Err(e);
                },
            }
        }
        Ok(())
    }

    /// Gives the table `target` slots when it has fewer, moving the entries
    /// over; a table with enough slots is left as it is. A map from `new`
    /// has no slots and needs this before its first `insert`.
    pub fn reserve(&mut self, target: usize) -> (r: Result<(), AllocError>)
        requires
            old(self).wf(),
            old(self).spec_len() + old(self).spec_capacity() <= usize::MAX,
        ensures
            final(self).wf(),
            final(self)@ == old(self)@,
            r is Err ==> *final(self) == *old(self),
            old(self).spec_capacity() >= target ==> r is Ok && *final(self) == *old(self),
            r is Ok && old(self).spec_capacity() < target ==> final(self).spec_capacity() == target
                && final(self).spec_len() <= old(self).spec_len() + old(self).spec_capacity(),
    {
        proof {
            lemma_sets_finite(self.vec@);
        }
        self.resize_and_rehash(target)
    }

    /// Puts `k` with `v`, and returns the value `k` had. The table grows
    /// first when needed; then `k` is removed and put anew.
    ///
    /// A table without slots cannot take a key: `new` makes one, and the
    /// growth doubles the slot count, so such a map needs `reserve` first.
    pub fn insert(&mut self, k: K, v: V) -> (r: Result<Option<V>, AllocError>)
        requires
            old(self).wf(),
            old(self).spec_capacity() > 0,
            old(self).spec_capacity() * 2 <= usize::MAX,
            old(self).spec_len() + 2 * old(self).spec_capacity() + 1 <= usize::MAX,
        ensures
            final(self).wf(),
            r is Ok ==> final(self)@ == old(self)@.insert(k, v),
            r is Ok ==> r->Ok_0 == if old(self)@.contains_key(k) {
                Some(old(self)@[k])
            } else {
                None::<V>
            },
            r is Err ==> final(self)@ == old(self)@,
            final(self).spec_capacity() >= old(self).spec_capacity(),
            old(self).spec_len() + 1 <= load_limit(old(self).spec_capacity() as int) ==> r is Ok,
    {
        match self.grow_if_need() {
            Ok(()) => {},
            Err(e) => {
                return Err(e);
            },
        }
        let removed = self.remove(&k);
        proof {
            lemma_sets_finite(self.vec@);
        }
        self.do_insert(k, v);
        proof {
            assert(self@ =~= old(self)@.insert(k, v));
        }
        Ok(removed)
    }

    /// The value of `k`, if held.
    pub fn get(&self, k: &K) -> (r: Option<&V>)
        requires
            self.wf(),
        ensures
            r == if self@.contains_key(*k) {
                Some(&self@[*k])
            } else {
                None
            },
    {
        match self.find(k) {
            None => None,
            Some(i) => {
                proof {
                    lemma_value_at(self.vec@, i as int, *k);
                }
                match &self.vec[i] {
                    Entry::Occupied { value, .. } => Some(value),
                    _ => {
                        proof {
                            assert(false);
                        }
                        None
                    },
                }
            },
        }
    }
}

/// After an insertion of `v` at `k`, `k` reads back `v` and every other key
/// keeps its value.
pub proof fn lemma_insert_then_get<K: HashKey, V, H: KeyHasher, S: SeedSupplier>(
    before: HashMap<K, V, H, S>,
    after: HashMap<K, V, H, S>,
    k: K,
    v: V,
    other: K,
)
    requires
        after@ == before@.insert(k, v),
        other != k,
    ensures
        after@.contains_key(k),
        after@[k] == v,
        after@.contains_key(other) == before@.contains_key(other),
        before@.contains_key(other) ==> after@[other] == before@[other],
{
}

/// After a removal of `k`, `k` reads back nothing and every other key keeps
/// its value.
pub proof fn lemma_remove_then_get<K: HashKey, V, H: KeyHasher, S: SeedSupplier>(
    before: HashMap<K, V, H, S>,
    after: HashMap<K, V, H, S>,
    k: K,
    other: K,
)
    requires
        after@ == before@.remove(k),
        other != k,
    ensures
        !after@.contains_key(k),
        after@.contains_key(other) == before@.contains_key(other),
        before@.contains_key(other) ==> after@[other] == before@[other],
{
}

} // verus!
