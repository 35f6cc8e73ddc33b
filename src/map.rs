use crate::bucket::{
    digits_value, is_digit_seq, keys_of, lemma_digits_value_bound, lemma_value_addresses_bucket,
    Bucket, BucketValue, BUCKET_CAP,
};
use crate::util::{
    bits_to_value, bits_value, get_first_n_bits, hash_prefix, is_bit_seq, lemma_prefix_bound,
    lemma_prefix_shorter,
};
use vstd::arithmetic::power2::*;
use vstd::prelude::*;

verus! {

/// The directory never grows past `2^MAX_GLOBAL_DEPTH` slots.
pub const MAX_GLOBAL_DEPTH: usize = 30;

/// The hash of a key, as std's `DefaultHasher` computes it.
pub uninterp spec fn key_hash(key: i32) -> u64;

/// Relies on std's `BuildHasher::hash_one` over `BuildHasherDefault<DefaultHasher>`:
/// a SipHash with fixed keys, so the result depends on the key alone.
#[verifier::external_body]
fn hash_key(key: &i32) -> (r: u64)
    ensures
        r == key_hash(*key),
{
    std::hash::BuildHasher::hash_one(
        &std::hash::BuildHasherDefault::<std::collections::hash_map::DefaultHasher>::default(),
        key,
    )
}

/// The directory slot of `key` in a directory of depth `gd`.
pub open spec fn slot_of(key: i32, gd: nat) -> nat {
    hash_prefix(key_hash(key), gd)
}

/// The keys of `m` whose hashes agree with the hash of `key` on every bit
/// the directory can ever use.
pub open spec fn deepest_peers<V>(m: Map<i32, V>, key: i32) -> Set<i32> {
    m.dom().filter(
        |k: i32| slot_of(k, MAX_GLOBAL_DEPTH as nat) == slot_of(key, MAX_GLOBAL_DEPTH as nat),
    )
}

/// `key` cannot get a bucket of its own: `BUCKET_CAP` keys of `m` already
/// share every bit of its hash that the directory can ever use.
pub open spec fn crowded<V>(m: Map<i32, V>, key: i32) -> bool {
    deepest_peers(m, key).len() >= BUCKET_CAP
}

/// Every slot names a bucket that the slot addresses.
pub open spec fn slots_ok<V>(dirs: Seq<usize>, bks: Seq<Bucket<V>>, gd: nat) -> bool {
    forall|i: int|
        0 <= i < dirs.len() ==> #[trigger] dirs[i] < bks.len() && bks[dirs[i] as int].covers(
            i as nat,
            gd,
        )
}

/// Every slot that a bucket addresses names that bucket.
pub open spec fn owners_ok<V>(dirs: Seq<usize>, bks: Seq<Bucket<V>>, gd: nat) -> bool {
    forall|b: int, i: int|
        0 <= b < bks.len() && 0 <= i < dirs.len() && #[trigger] bks[b].covers(i as nat, gd)
            ==> dirs[i] == b
}

/// An entry stands in the bucket its hash leads to.
pub open spec fn entry_placed<V>(bk: Bucket<V>, e: (i32, V)) -> bool {
    hash_prefix(key_hash(e.0), bk.ld()) == bk.val()
}

/// An entry is recorded in `m` with its value.
pub open spec fn entry_recorded<V>(m: Map<i32, V>, e: (i32, V)) -> bool {
    m.contains_key(e.0) && m[e.0] == e.1
}

/// Shape of a bucket in a directory of depth `gd`.
pub open spec fn bucket_shape<V>(bk: Bucket<V>, gd: nat) -> bool {
    &&& 1 <= bk.ld() <= gd
    &&& is_digit_seq(bk.bits@)
    &&& bk.data@.len() <= BUCKET_CAP
    &&& bk.keys().no_duplicates()
    &&& forall|j: int| 0 <= j < bk.data@.len() ==> entry_placed(bk, #[trigger] bk.data@[j])
}

/// A bucket is well shaped and each of its entries is recorded in `m`.
pub open spec fn bucket_ok<V>(bk: Bucket<V>, gd: nat, m: Map<i32, V>) -> bool {
    &&& bucket_shape(bk, gd)
    &&& forall|j: int| 0 <= j < bk.data@.len() ==> entry_recorded(m, #[trigger] bk.data@[j])
}

/// Every key of `m` is held by the bucket its slot names.
pub open spec fn keys_found<V>(
    dirs: Seq<usize>,
    bks: Seq<Bucket<V>>,
    gd: nat,
    m: Map<i32, V>,
) -> bool {
    forall|k: i32| #[trigger]
        m.contains_key(k) ==> bks[dirs[slot_of(k, gd) as int] as int].keys().contains(k)
}

/// A bucket that holds an entry is the one the entry's slot names.
pub proof fn lemma_entry_located<V>(
    dirs: Seq<usize>,
    bks: Seq<Bucket<V>>,
    gd: nat,
    b: int,
    k: i32,
)
    requires
        owners_ok(dirs, bks, gd),
        dirs.len() == pow2(gd),
        gd <= 64,
        0 <= b < bks.len(),
        bks[b].ld() <= gd,
        hash_prefix(key_hash(k), bks[b].ld()) == bks[b].val(),
    ensures
        slot_of(k, gd) < dirs.len(),
        dirs[slot_of(k, gd) as int] == b,
{
    lemma_prefix_bound(key_hash(k), gd);
    lemma_prefix_shorter(key_hash(k), bks[b].ld(), gd);
    let i = slot_of(k, gd) as int;
    assert(bks[b].covers(i as nat, gd));
}

/// Some bucket addresses slot `i`.
pub open spec fn slot_covered<V>(bks: Seq<Bucket<V>>, gd: nat, i: int) -> bool {
    exists|c: int| 0 <= c < bks.len() && #[trigger] bks[c].covers(i as nat, gd)
}

/// Every slot below `n` is addressed by some bucket.
pub open spec fn covered<V>(bks: Seq<Bucket<V>>, gd: nat, n: nat) -> bool {
    forall|i: int| 0 <= i < n ==> #[trigger] slot_covered(bks, gd, i)
}

/// No slot is addressed by two buckets.
pub open spec fn disjoint<V>(bks: Seq<Bucket<V>>, gd: nat) -> bool {
    forall|c1: int, c2: int, i: nat|
        0 <= c1 < bks.len() && 0 <= c2 < bks.len() && #[trigger] bks[c1].covers(i, gd)
            && #[trigger] bks[c2].covers(i, gd) ==> c1 == c2
}

/// The buckets from index `from` on name their slots; those before already did.
pub open spec fn named_before<V>(dirs: Seq<usize>, bks: Seq<Bucket<V>>, gd: nat, from: int) -> bool {
    forall|c: int, i: int|
        0 <= c < from && c < bks.len() && 0 <= i < dirs.len() && #[trigger] bks[c].covers(
            i as nat,
            gd,
        ) ==> dirs[i] == c
}

/// Pushing an element keeps what a sequence contained.
pub proof fn lemma_push_contains<A>(s: Seq<A>, x: A, y: A)
    ensures
        s.push(x).contains(y) == (s.contains(y) || x == y),
{
    if s.contains(y) {
        let j = choose|j: int| 0 <= j < s.len() && s[j] == y;
        assert(s.push(x)[j] == y);
    }
    if x == y {
        assert(s.push(x)[s.len() as int] == y);
    }
    if s.push(x).contains(y) {
        let j = choose|j: int| 0 <= j < s.push(x).len() && s.push(x)[j] == y;
        if j < s.len() {
            assert(s[j] == y);
        }
    }
}

/// A copy of digits into `usize` reads as the same number.
pub proof fn lemma_copy_value(copy: Seq<usize>, digits: Seq<u8>)
    requires
        copy.len() == digits.len(),
        forall|j: int| 0 <= j < copy.len() ==> copy[j] == digits[j],
    ensures
        bits_value(copy) == digits_value(digits),
    decreases copy.len(),
{
    if copy.len() > 0 {
        lemma_copy_value(copy.drop_last(), digits.drop_last());
        assert(copy.last() == copy[copy.len() - 1]);
        assert(digits.last() == digits[digits.len() - 1]);
    }
}

/// `i / p == q` exactly when `i` lies in the `q`-th window of width `p`.
pub proof fn lemma_div_window(i: int, p: int, q: int)
    requires
        p > 0,
        i >= 0,
    ensures
        (i / p == q) == (q * p <= i < q * p + p),
{
    vstd::arithmetic::div_mod::lemma_fundamental_div_mod(i, p);
    vstd::arithmetic::div_mod::lemma_mod_bound(i, p);
    if q * p <= i < q * p + p {
        vstd::arithmetic::div_mod::lemma_fundamental_div_mod_converse(i, p, q, i - q * p);
    }
    assert(p * (i / p) == (i / p) * p) by (nonlinear_arith);
}

/// A bucket with one more bit addresses a half of what its parent addressed.
pub proof fn lemma_child_covers<V>(parent: Bucket<V>, child: Bucket<V>, bit: u8, i: nat, gd: nat)
    requires
        child.bits@ == parent.bits@.push(bit),
        bit < 2,
        parent.ld() < gd,
    ensures
        child.val() == 2 * parent.val() + bit,
        child.ld() == parent.ld() + 1,
        child.covers(i, gd) ==> parent.covers(i, gd),
        parent.covers(i, gd) ==> (child.covers(i, gd) == (i / pow2((gd - child.ld()) as nat) == 2
            * parent.val() + bit)),
{
    assert(child.bits@.drop_last() == parent.bits@);
    let p = pow2((gd - child.ld()) as nat);
    lemma_pow2_pos((gd - child.ld()) as nat);
    lemma_pow2_adds((gd - child.ld()) as nat, 1);
    lemma2_to64();
    vstd::arithmetic::div_mod::lemma_div_denominator(i as int, p as int, 2);
    let q = i / p;
    vstd::arithmetic::div_mod::lemma_fundamental_div_mod(q as int, 2);
    assert((gd - parent.ld()) as nat == (gd - child.ld()) as nat + 1);
}

/// A slot that a bucket addresses lies inside the directory.
pub proof fn lemma_covers_bound<V>(bk: Bucket<V>, i: nat, gd: nat)
    requires
        is_digit_seq(bk.bits@),
        bk.covers(i, gd),
    ensures
        i < pow2(gd),
{
    let e = (gd - bk.ld()) as nat;
    lemma_pow2_pos(e);
    lemma_digits_value_bound(bk.bits@);
    lemma_pow2_adds(bk.ld(), e);
    lemma_div_window(i as int, pow2(e) as int, bk.val() as int);
    assert(bk.val() * pow2(e) + pow2(e) == (bk.val() + 1) * pow2(e)) by (nonlinear_arith);
    assert(bk.ld() + e == gd);
    assert((bk.val() + 1) * pow2(e) <= pow2(bk.ld()) * pow2(e)) by (nonlinear_arith)
        requires
            bk.val() + 1 <= pow2(bk.ld()),
    ;
}

/// Shrinking the directory depth by one bit maps slot `i` to slot `i / 2`
/// for every bucket that fits in the smaller directory.
pub proof fn lemma_covers_parent_slot<V>(bk: Bucket<V>, i: nat, gd: nat)
    requires
        bk.ld() <= gd,
    ensures
        bk.covers(i, gd + 1) == bk.covers(i / 2, gd),
{
    let p = pow2((gd - bk.ld()) as nat);
    lemma_pow2_pos((gd - bk.ld()) as nat);
    lemma_pow2_adds(1, (gd - bk.ld()) as nat);
    lemma2_to64();
    vstd::arithmetic::div_mod::lemma_div_denominator(i as int, 2, p as int);
    assert((gd + 1 - bk.ld()) as nat == 1 + (gd - bk.ld()) as nat);
}

/// The bucket at `c` before the bucket at `idx` was replaced by a changed
/// copy of `before`.
pub open spec fn old_bucket<V>(bks: Seq<Bucket<V>>, c: int, idx: int, before: Bucket<V>) -> Bucket<V> {
    if c == idx {
        before
    } else {
        bks[c]
    }
}

/// The number of entries held by all of `bks`.
pub open spec fn entry_total<V>(bks: Seq<Bucket<V>>) -> nat
    decreases bks.len(),
{
    if bks.len() == 0 {
        0
    } else {
        entry_total(bks.drop_last()) + bks.last().data@.len()
    }
}

/// Replacing one bucket changes the total by the difference of their sizes.
pub proof fn lemma_total_update<V>(bks: Seq<Bucket<V>>, i: int, x: Bucket<V>)
    requires
        0 <= i < bks.len(),
    ensures
        entry_total(bks.update(i, x)) + bks[i].data@.len() == entry_total(bks) + x.data@.len(),
    decreases bks.len(),
{
    if i == bks.len() - 1 {
        assert(bks.update(i, x).drop_last() == bks.drop_last());
    } else {
        lemma_total_update(bks.drop_last(), i, x);
        assert(bks.update(i, x).drop_last() == bks.drop_last().update(i, x));
    }
}

/// Appending a bucket adds its size to the total.
pub proof fn lemma_total_push<V>(bks: Seq<Bucket<V>>, x: Bucket<V>)
    ensures
        entry_total(bks.push(x)) == entry_total(bks) + x.data@.len(),
{
    assert(bks.push(x).drop_last() == bks);
}

/// Removing a bucket takes its size off the total.
pub proof fn lemma_total_remove<V>(bks: Seq<Bucket<V>>, i: int)
    requires
        0 <= i < bks.len(),
    ensures
        entry_total(bks.remove(i)) + bks[i].data@.len() == entry_total(bks),
    decreases bks.len(),
{
    if i == bks.len() - 1 {
        assert(bks.remove(i) == bks.drop_last());
    } else {
        lemma_total_remove(bks.drop_last(), i);
        assert(bks.remove(i).drop_last() == bks.drop_last().remove(i));
        assert(bks.remove(i).last() == bks.last());
    }
}

/// Buckets of at most `BUCKET_CAP` entries hold at most `BUCKET_CAP` entries
/// apiece.
pub proof fn lemma_total_bound<V>(bks: Seq<Bucket<V>>)
    requires
        forall|c: int| 0 <= c < bks.len() ==> #[trigger] bks[c].data@.len() <= BUCKET_CAP,
    ensures
        entry_total(bks) <= BUCKET_CAP * bks.len(),
    decreases bks.len(),
{
    if bks.len() > 0 {
        assert forall|c: int| 0 <= c < bks.drop_last().len() implies #[trigger] bks.drop_last()[c].data@.len()
            <= BUCKET_CAP by {
            assert(bks.drop_last()[c] == bks[c]);
        }
        lemma_total_bound(bks.drop_last());
        assert(bks.last() == bks[bks.len() - 1]);
    }
}

/// A map backed by extendible hashing.
pub struct HashMap<V> {
    /// The number of entries.
    len: usize,
    /// The number of leading hash bits that address the directory.
    global_depth: usize,
    /// Directory slots, each holding the index of its bucket.
    directories: Vec<usize>,
    /// The buckets.
    buckets: Vec<Bucket<V>>,
    /// The keys the map holds.
    keys: Ghost<Set<i32>>,
}

impl<V> View for HashMap<V> {
    type V = Map<i32, V>;

    closed spec fn view(&self) -> Map<i32, V> {
        Map::new(|k: i32| self.keys@.contains(k), |k: i32| self.value_of(k))
    }
}

impl<V> HashMap<V> {
    /// The directory and the buckets agree.
    spec fn layout_ok(&self) -> bool {
        let gd = self.global_depth as nat;
        &&& 1 <= gd <= MAX_GLOBAL_DEPTH
        &&& self.directories@.len() == pow2(gd)
        &&& slots_ok(self.directories@, self.buckets@, gd)
        &&& owners_ok(self.directories@, self.buckets@, gd)
    }

    /// The value held under `key` by the bucket its slot names.
    spec fn value_of(&self, key: i32) -> V {
        let bk = self.buckets@[self.bucket_of(key)];
        bk.data@[choose|j: int| 0 <= j < bk.data@.len() && bk.data@[j].0 == key].1
    }

    /// Where the buckets hold exactly the entries of `m`, `m` is the view.
    proof fn lemma_view_is(&self, m: Map<i32, V>)
        requires
            self.layout_ok(),
            self.keys@ == m.dom(),
            forall|b: int|
                0 <= b < self.buckets@.len() ==> bucket_ok(
                    #[trigger] self.buckets@[b],
                    self.global_depth as nat,
                    m,
                ),
            keys_found(self.directories@, self.buckets@, self.global_depth as nat, m),
        ensures
            self@ == m,
            self@.dom() == self.keys@,
    {
        let gd = self.global_depth as nat;
        assert forall|k: i32| m.contains_key(k) implies #[trigger] self.value_of(k) == m[k] by {
            lemma_prefix_bound(key_hash(k), gd);
            let bk = self.buckets@[self.bucket_of(k)];
            assert(bucket_ok(bk, gd, m));
            assert(bk.keys().contains(k));
            let j = choose|j: int| 0 <= j < bk.keys().len() && bk.keys()[j] == k;
            assert(bk.data@[j].0 == k);
            let j2 = choose|j2: int| 0 <= j2 < bk.data@.len() && bk.data@[j2].0 == k;
            assert(bk.keys()[j2] == k);
            assert(j2 == j);
            assert(entry_recorded(m, bk.data@[j]));
        }
        assert(self@ =~= m);
    }

    /// The map is well formed.
    pub closed spec fn wf(&self) -> bool {
        let gd = self.global_depth as nat;
        &&& self.layout_ok()
        &&& self.keys@.finite()
        &&& self@.dom() == self.keys@
        &&& self.len == self.keys@.len()
        &&& self.len == entry_total(self.buckets@)
        &&& forall|b: int|
            0 <= b < self.buckets@.len() ==> bucket_ok(#[trigger] self.buckets@[b], gd, self@)
        &&& keys_found(self.directories@, self.buckets@, gd, self@)
    }

    /// The number of directory slots.
    pub closed spec fn slot_count(&self) -> nat {
        self.directories@.len()
    }

    /// The number of leading hash bits that address the directory.
    pub closed spec fn depth(&self) -> nat {
        self.global_depth as nat
    }

    /// The directory: the index of the bucket each slot names.
    pub closed spec fn directory(&self) -> Seq<usize> {
        self.directories@
    }

    /// The identifying bits of each bucket, in storage order.
    pub closed spec fn bucket_bits(&self) -> Seq<Seq<u8>> {
        self.buckets@.map_values(|bk: Bucket<V>| bk.bits@)
    }

    /// The number of entries each bucket holds, in storage order.
    pub closed spec fn bucket_sizes(&self) -> Seq<nat> {
        self.buckets@.map_values(|bk: Bucket<V>| bk.data@.len())
    }

    /// The number of entries held across all buckets.
    pub closed spec fn stored_entries(&self) -> nat {
        entry_total(self.buckets@)
    }

    /// The local depth of the bucket where `key` belongs.
    pub closed spec fn depth_of(&self, key: i32) -> nat {
        self.buckets@[self.bucket_of(key)].ld()
    }

    /// Every bucket owns a slot of its own, so there are no more buckets
    /// than slots.
    proof fn lemma_bucket_count_bound(&self)
        requires
            self.wf(),
        ensures
            self.buckets@.len() <= self.directories@.len(),
    {
        let gd = self.global_depth as nat;
        let n = self.buckets@.len() as int;
        let x = vstd::set_lib::set_int_range(0, self.directories@.len() as int);
        let f = |i: int| self.directories@[i] as int;
        vstd::set_lib::lemma_int_range(0, self.directories@.len() as int);
        vstd::set_lib::lemma_int_range(0, n);
        vstd::set_lib::lemma_map_size_bound(x, x.map(f), f);
        assert forall|c: int| vstd::set_lib::set_int_range(0, n).contains(c) implies #[trigger] x.map(f).contains(c) by {
            let bk = self.buckets@[c];
            assert(bucket_ok(bk, gd, self@));
            let e = (gd - bk.ld()) as nat;
            lemma_pow2_pos(e);
            let first = bk.val() * pow2(e);
            vstd::arithmetic::div_mod::lemma_div_multiples_vanish(bk.val() as int, pow2(e) as int);
            vstd::arithmetic::mul::lemma_mul_is_commutative(bk.val() as int, pow2(e) as int);
            assert(bk.covers(first, gd));
            lemma_covers_bound(bk, first, gd);
            assert(self.buckets@[c].covers((first as int) as nat, gd));
            assert(self.directories@[first as int] == c);
            assert(x.contains(first as int));
            assert(f(first as int) == c);
        }
        vstd::set_lib::lemma_len_subset(vstd::set_lib::set_int_range(0, n), x.map(f));
    }

    /// The shape every well-formed map has: a finite key set, `2^depth()`
    /// slots, no more buckets than slots, and no more entries than
    /// `BUCKET_CAP` per slot.
    pub proof fn lemma_shape(&self)
        requires
            self.wf(),
        ensures
            self@.dom().finite(),
            1 <= self.depth() <= MAX_GLOBAL_DEPTH,
            self.slot_count() == pow2(self.depth()),
            self.directory().len() == self.slot_count(),
            self.bucket_bits().len() == self.bucket_sizes().len(),
            self.bucket_sizes().len() <= self.slot_count(),
            self@.len() <= self.slot_count() * BUCKET_CAP,
    {
        self.lemma_bucket_count_bound();
        assert forall|c: int| 0 <= c < self.buckets@.len() implies #[trigger] self.buckets@[c].data@.len() <= BUCKET_CAP by {
            assert(bucket_ok(self.buckets@[c], self.global_depth as nat, self@));
        }
        lemma_total_bound(self.buckets@);
        let n = self.buckets@.len();
        let sc = self.directories@.len();
        assert(BUCKET_CAP * n <= sc * BUCKET_CAP) by (nonlinear_arith)
            requires
                n <= sc,
        ;
    }

    /// Creates an empty map: global depth 1, with buckets `[0]` and `[1]`.
    pub fn new() -> (r: Self)
        ensures
            r.wf(),
            r@ == Map::<i32, V>::empty(),
            r.slot_count() == 2,
            r.depth() == 1,
            r.bucket_sizes() == seq![0nat, 0nat],
            r.bucket_bits() == seq![seq![0u8], seq![1u8]],
    {
        let bucket0: Bucket<V> = Bucket::new(&[0u8]);
        let bucket1: Bucket<V> = Bucket::new(&[1u8]);
        let r = HashMap {
            len: 0,
            global_depth: 1,
            directories: vec![0, 1],
            buckets: vec![bucket0, bucket1],
            keys: Ghost(Set::empty()),
        };
        proof {
            lemma2_to64();
            assert(r.buckets@[0].bits@.drop_last().len() == 0);
            assert(r.buckets@[1].bits@.drop_last().len() == 0);
            assert(r.buckets@[0].bits@ == seq![0u8]);
            assert(r.buckets@[1].bits@ == seq![1u8]);
            assert(r.buckets@[0].bits@.last() == 0u8);
            assert(r.buckets@[1].bits@.last() == 1u8);
            reveal_with_fuel(crate::bucket::digits_value, 2);
            reveal_with_fuel(entry_total, 3);
            assert(r.buckets@[0].val() == 0);
            assert(r.buckets@[1].val() == 1);
            assert(r.buckets@[0].keys().len() == 0);
            assert(r.buckets@[1].keys().len() == 0);
            assert(r.buckets@[0].keys() =~= Seq::<i32>::empty());
            assert(r.buckets@[1].keys() =~= Seq::<i32>::empty());
            assert(r.directories@ == seq![0usize, 1usize]);
            assert forall|b: int, i: int|
                0 <= b < 2 && 0 <= i < 2 && #[trigger] r.buckets@[b].covers(i as nat, 1) implies r.directories@[i] == b by {
                assert(i / 1 == i);
            }
            assert forall|i: int| 0 <= i < 2 implies #[trigger] r.directories@[i] < 2 && r.buckets@[r.directories@[i] as int].covers(i as nat, 1) by {
                assert(i / 1 == i);
                assert(r.directories@[i] == i);
            }
            assert(slots_ok(r.directories@, r.buckets@, 1));
            assert(owners_ok(r.directories@, r.buckets@, 1));
            assert(bucket_ok(r.buckets@[0], 1, Map::<i32, V>::empty()));
            assert(bucket_ok(r.buckets@[1], 1, Map::<i32, V>::empty()));
            assert(r.keys@ == Map::<i32, V>::empty().dom());
            r.lemma_view_is(Map::<i32, V>::empty());
            assert(r.bucket_sizes() =~= seq![0nat, 0nat]);
            assert(r.bucket_bits() =~= seq![seq![0u8], seq![1u8]]);
        }
        r
    }

    /// Returns the number of entries.
    pub fn len(&self) -> (r: usize)
        requires
            self.wf(),
        ensures
            r == self@.len(),
            self@.dom().finite(),
    {
        self.len
    }

    /// Returns `true` if the map holds no entry.
    pub fn is_empty(&self) -> (r: bool)
        requires
            self.wf(),
        ensures
            r == (self@.len() == 0),
            self@.dom().finite(),
            r == (self@.dom() == Set::<i32>::empty()),
    {
        proof {
            if self@.len() == 0 {
                self@.dom().lemma_len0_is_empty();
            }
        }
        self.len == 0
    }

    /// Returns the number of entries the map can hold before its directory
    /// has to grow: `BUCKET_CAP` for each directory slot.
    pub fn capacity(&self) -> (r: usize)
        requires
            self.wf(),
        ensures
            r == self.slot_count() * BUCKET_CAP,
            self.slot_count() == pow2(self.depth()),
            r >= self@.len(),
    {
        proof {
            self.lemma_shape();
            lemma2_to64();
            if self.global_depth < MAX_GLOBAL_DEPTH {
                lemma_pow2_strictly_increases(self.global_depth as nat, MAX_GLOBAL_DEPTH as nat);
            }
        }
        self.directories.len() * BUCKET_CAP
    }

    /// Points the slots of every bucket from index `from` on at that bucket.
    fn repoint_from(&mut self, from: usize)
        requires
            1 <= old(self).global_depth <= MAX_GLOBAL_DEPTH,
            old(self).directories@.len() == pow2(old(self).global_depth as nat),
            from <= old(self).buckets@.len(),
            forall|c: int|
                0 <= c < old(self).buckets@.len() ==> is_digit_seq(
                    #[trigger] old(self).buckets@[c].bits@,
                ) && old(self).buckets@[c].ld() <= old(self).global_depth,
            covered(
                old(self).buckets@,
                old(self).global_depth as nat,
                old(self).directories@.len(),
            ),
            disjoint(old(self).buckets@, old(self).global_depth as nat),
            named_before(
                old(self).directories@,
                old(self).buckets@,
                old(self).global_depth as nat,
                from as int,
            ),
        ensures
            final(self).layout_ok(),
            final(self).buckets == old(self).buckets,
            final(self).global_depth == old(self).global_depth,
            final(self).len == old(self).len,
            final(self).keys == old(self).keys,
    {
        let ghost gd = self.global_depth as nat;
        let n = self.buckets.len();
        let mut c: usize = from;
        proof {
            lemma2_to64();
            if gd < MAX_GLOBAL_DEPTH {
                lemma_pow2_strictly_increases(gd, MAX_GLOBAL_DEPTH as nat);
            }
        }
        while c < n
            invariant
                from <= c <= n == self.buckets@.len(),
                1 <= gd <= MAX_GLOBAL_DEPTH,
                gd == self.global_depth,
                self.directories@.len() == pow2(gd),
                pow2(gd) <= 0x4000_0000,
                forall|c2: int|
                    0 <= c2 < self.buckets@.len() ==> is_digit_seq(
                        #[trigger] self.buckets@[c2].bits@,
                    ) && self.buckets@[c2].ld() <= self.global_depth,
                disjoint(self.buckets@, gd),
                named_before(self.directories@, self.buckets@, gd, c as int),
                self.buckets == old(self).buckets,
                self.global_depth == old(self).global_depth,
                self.len == old(self).len,
                self.keys == old(self).keys,
                covered(self.buckets@, gd, self.directories@.len()),
            decreases n - c,
        {
            let value = self.buckets[c].value(self.global_depth);
            let ghost bk = self.buckets@[c as int];
            let (start, end) = match value {
                BucketValue::EqualTo(idx) => (idx, idx),
                BucketValue::Range(range) => (*range.start(), *range.end()),
            };
            proof {
                lemma_pow2_pos((gd - bk.ld()) as nat);
                lemma_digits_value_bound(bk.bits@);
                lemma_pow2_adds(bk.ld(), (gd - bk.ld()) as nat);
                vstd::arithmetic::mul::lemma_mul_inequality(
                    bk.val() as int + 1,
                    pow2(bk.ld()) as int,
                    pow2((gd - bk.ld()) as nat) as int,
                );
                let p = pow2((gd - bk.ld()) as nat) as int;
                assert((bk.val() as int + 1) * p == bk.val() as int * p + p) by (nonlinear_arith);
            }
            let mut idx: usize = start;
            while idx <= end
                invariant
                    start <= idx <= end + 1,
                    end < self.directories@.len() == pow2(gd),
                    pow2(gd) <= 0x4000_0000,
                    c < n == self.buckets@.len(),
                    bk == self.buckets@[c as int],
                    value.first() == start,
                    value.last() == end,
                    value.first() == bk.val() * pow2((gd - bk.ld()) as nat),
                    value.last() + 1 == value.first() + pow2((gd - bk.ld()) as nat),
                    is_digit_seq(bk.bits@),
                    bk.ld() <= gd,
                    disjoint(self.buckets@, gd),
                    named_before(self.directories@, self.buckets@, gd, c as int),
                    forall|i: int| start <= i < idx ==> self.directories@[i] == c,
                    gd == self.global_depth,
                    forall|c2: int|
                        0 <= c2 < self.buckets@.len() ==> is_digit_seq(
                            #[trigger] self.buckets@[c2].bits@,
                        ) && self.buckets@[c2].ld() <= self.global_depth,
                    self.buckets == old(self).buckets,
                    self.global_depth == old(self).global_depth,
                    self.len == old(self).len,
                    self.keys == old(self).keys,
                    covered(self.buckets@, gd, self.directories@.len()),
                decreases end + 1 - idx,
            {
                proof {
                    assert forall|c2: int, i: int|
                        0 <= c2 < c && c2 < self.buckets@.len() && 0 <= i < self.directories@.len()
                            && #[trigger] self.buckets@[c2].covers(i as nat, gd) && i != idx
                            implies self.directories@.update(idx as int, c)[i] == c2 by {}
                    assert forall|c2: int|
                        0 <= c2 < c && #[trigger] self.buckets@[c2].covers(idx as nat, gd)
                            implies false by {
                        lemma_value_addresses_bucket(&bk, gd, value, idx as nat);
                        assert(self.buckets@[c as int].covers(idx as nat, gd));
                    }
                }
                self.directories.set(idx, c);
                idx += 1;
            }
            proof {
                assert forall|c2: int, i: int|
                    0 <= c2 < c + 1 && c2 < self.buckets@.len() && 0 <= i < self.directories@.len()
                        && #[trigger] self.buckets@[c2].covers(i as nat, gd)
                        implies self.directories@[i] == c2 by {
                    if c2 == c {
                        lemma_value_addresses_bucket(&bk, gd, value, i as nat);
                    }
                }
            }
            c += 1;
        }
        proof {
            let dirs = self.directories@;
            let bks = self.buckets@;
            assert forall|i: int| 0 <= i < dirs.len() implies #[trigger] dirs[i] < bks.len()
                && bks[dirs[i] as int].covers(i as nat, gd) by {
                assert(slot_covered(bks, gd, i));
                let c2 = choose|c2: int| 0 <= c2 < bks.len() && #[trigger] bks[c2].covers(i as nat, gd);
            }
        }
    }

    /// The index of the bucket that `key` addresses.
    pub closed spec fn bucket_of(&self, key: i32) -> int {
        self.directories@[slot_of(key, self.global_depth as nat) as int] as int
    }

    /// Splits bucket `b` in two: it keeps its bits with a `0` appended and a
    /// new sibling takes them with a `1` appended. Where `b` already uses
    /// every directory bit the directory doubles first. The entries of `b`
    /// are then handed to whichever of the two their hashes lead to.
    #[verifier::rlimit(100)]
    #[verifier::spinoff_prover]
    fn split(&mut self, b: usize)
        requires
            old(self).wf(),
            b < old(self).buckets@.len(),
            old(self).buckets@[b as int].ld() < MAX_GLOBAL_DEPTH,
        ensures
            final(self).wf(),
            final(self)@ == old(self)@,
            final(self).global_depth >= old(self).global_depth,
            forall|k: i32|
                #[trigger] old(self).bucket_of(k) == b ==> final(self).buckets@[final(self).bucket_of(k)].ld()
                    == old(self).buckets@[b as int].ld() + 1,
            final(self).buckets@.len() == old(self).buckets@.len() + 1,
            final(self).buckets@[b as int].bits@ == old(self).buckets@[b as int].bits@.push(0),
            final(self).buckets@[old(self).buckets@.len() as int].bits@ == old(
                self,
            ).buckets@[b as int].bits@.push(1),
            forall|c: int|
                0 <= c < old(self).buckets@.len() && c != b ==> #[trigger] final(self).buckets@[c]
                    == old(self).buckets@[c],
            old(self).buckets@[b as int].ld() < old(self).global_depth ==> {
                &&& final(self).global_depth == old(self).global_depth
                &&& final(self).directories@.len() == old(self).directories@.len()
                &&& forall|i: int|
                    0 <= i < old(self).directories@.len() ==> #[trigger] final(self).directories@[i]
                        == if final(self).buckets@[old(self).buckets@.len() as int].covers(
                        i as nat,
                        old(self).global_depth as nat,
                    ) {
                        old(self).buckets@.len() as int
                    } else {
                        old(self).directories@[i] as int
                    }
            },
            old(self).buckets@[b as int].ld() == old(self).global_depth ==> {
                &&& final(self).global_depth == old(self).global_depth + 1
                &&& final(self).directories@.len() == 2 * old(self).directories@.len()
            },
    {
        let ghost m = self@;
        let ghost old_dirs = self.directories@;
        let ghost old_bks = self.buckets@;
        let ghost gd0 = self.global_depth as nat;
        let ghost parent = self.buckets@[b as int];
        proof {
            lemma2_to64();
            assert(bucket_ok(parent, gd0, m));
        }
        let old_local_depth = self.buckets[b].local_depth();
        let old_global_depth = self.global_depth;
        let bucket_value = self.buckets[b].value(old_global_depth);
        let mut items: Vec<(i32, V)> = Vec::new();
        core::mem::swap(&mut self.buckets[b].data, &mut items);
        let mut new_bucket: Bucket<V> = Bucket::new(self.buckets[b].bits.as_slice());
        new_bucket.bits.push(1);
        self.buckets[b].bits.push(0);
        let new_bucket_idx = self.buckets.len();
        self.buckets.push(new_bucket);
        let ghost bks1 = self.buckets@;
        let ghost n = new_bucket_idx as int;
        let ghost child0 = bks1[b as int];
        let ghost child1 = bks1[n];
        proof {
            assert(items@ == parent.data@);
            assert(child0.bits@ == parent.bits@.push(0));
            assert(child1.bits@ == parent.bits@.push(1));
            assert(is_digit_seq(child0.bits@));
            assert(is_digit_seq(child1.bits@));
            assert forall|c: int| 0 <= c < old_bks.len() && c != b implies #[trigger] bks1[c]
                == old_bks[c] by {}
        }
        if old_local_depth < old_global_depth {
            let range = bucket_value.last_half_range().unwrap();
            let start = *range.start();
            let end = *range.end();
            let ghost p = pow2((gd0 - child0.ld()) as nat);
            proof {
                lemma_pow2_pos((gd0 - child0.ld()) as nat);
                lemma_pow2_adds((gd0 - child0.ld()) as nat, 1);
                assert((gd0 - parent.ld()) as nat == (gd0 - child0.ld()) as nat + 1);
                assert(bucket_value.first() == parent.val() * (2 * p));
                assert(parent.val() * (2 * p) + p == (2 * parent.val() + 1) * p)
                    by (nonlinear_arith);
                assert((2 * parent.val() + 1) * p + p == (2 * parent.val() + 2) * p)
                    by (nonlinear_arith);
                assert(parent.val() * (2 * p) == (2 * parent.val()) * p) by (nonlinear_arith);
                lemma_pow2_strictly_increases((gd0 - child0.ld()) as nat, MAX_GLOBAL_DEPTH as nat);
                lemma_value_addresses_bucket(&parent, gd0, bucket_value, end as nat);
                lemma_covers_bound(parent, end as nat, gd0);
            }
            let mut idx: usize = start;
            while idx <= end
                invariant
                    start <= idx <= end + 1,
                    end < self.directories@.len() == old_dirs.len(),
                    self.directories@.len() <= 0x4000_0000,
                    forall|i: int|
                        0 <= i < old_dirs.len() ==> #[trigger] self.directories@[i] == if start
                            <= i < idx {
                            new_bucket_idx
                        } else {
                            old_dirs[i]
                        },
                    self.buckets@ == bks1,
                    self.global_depth == gd0,
                    self.keys@ == m.dom(),
                    self.len == m.len(),
                decreases end + 1 - idx,
            {
                self.directories.set(idx, new_bucket_idx);
                idx += 1;
            }
            proof {
                let dirs = self.directories@;
                assert forall|i: int| #![trigger dirs[i]] 0 <= i < dirs.len() implies (parent.covers(i as nat, gd0)
                    == (bucket_value.first() <= i <= bucket_value.last())) && (child1.covers(
                    i as nat,
                    gd0,
                ) == (start <= i <= end)) && (child0.covers(i as nat, gd0) == (
                bucket_value.first() <= i < start)) by {
                    lemma_value_addresses_bucket(&parent, gd0, bucket_value, i as nat);
                    lemma_child_covers(parent, child0, 0, i as nat, gd0);
                    lemma_child_covers(parent, child1, 1, i as nat, gd0);
                    lemma_div_window(i, p as int, 2 * parent.val() as int + 1);
                    lemma_div_window(i, p as int, 2 * parent.val() as int);
                }
                assert forall|i: int| 0 <= i < dirs.len() implies #[trigger] dirs[i] < bks1.len()
                    && bks1[dirs[i] as int].covers(i as nat, gd0) by {
                    assert(old_dirs[i] < old_bks.len());
                    assert(old_bks[old_dirs[i] as int].covers(i as nat, gd0));
                }
                assert forall|c: int, i: int|
                    0 <= c < bks1.len() && 0 <= i < dirs.len() && #[trigger] bks1[c].covers(
                        i as nat,
                        gd0,
                    ) implies dirs[i] == c by {
                    if c != b && c != n {
                        assert(old_bks[c].covers(i as nat, gd0));
                        if start <= i <= end {
                            lemma_value_addresses_bucket(&parent, gd0, bucket_value, i as nat);
                            assert(parent.covers(i as nat, gd0));
                            assert(old_bks[b as int].covers(i as nat, gd0));
                        }
                    } else if c == b {
                        lemma_child_covers(parent, child0, 0, i as nat, gd0);
                        assert(old_bks[b as int].covers(i as nat, gd0));
                    }
                }
                assert(self.layout_ok());
                assert forall|i: int| 0 <= i < old_dirs.len() implies #[trigger] dirs[i] == if child1.covers(
                    i as nat,
                    gd0,
                ) {
                    new_bucket_idx
                } else {
                    old_dirs[i]
                } by {
                    assert(dirs[i] == dirs[i]);
                }
            }
        } else {
            self.global_depth = self.global_depth + 1;
            let n_slots = self.directories.len();
            let mut i: usize = 0;
            proof {
                if gd0 < MAX_GLOBAL_DEPTH {
                    lemma_pow2_strictly_increases(gd0, MAX_GLOBAL_DEPTH as nat);
                }
            }
            while i < n_slots
                invariant
                    i <= n_slots == old_dirs.len(),
                    n_slots <= 0x4000_0000,
                    self.directories@.len() == n_slots + i,
                    self.buckets@ == bks1,
                    self.global_depth == gd0 + 1,
                    self.keys@ == m.dom(),
                    self.len == m.len(),
                decreases n_slots - i,
            {
                self.directories.push(0);
                i += 1;
            }
            let ghost gd1 = gd0 + 1;
            proof {
                lemma_pow2_adds(gd0, 1);
                assert(old_local_depth == gd0);
                assert forall|i: int| 0 <= i < pow2(gd1) implies #[trigger] slot_covered(
                    bks1,
                    gd1,
                    i,
                ) by {
                    let i2 = i / 2;
                    assert(i2 < old_dirs.len());
                    let c = old_dirs[i2] as int;
                    assert(old_bks[c].covers(i2 as nat, gd0));
                    if c != b {
                        lemma_covers_parent_slot(bks1[c], i as nat, gd0);
                        assert(bks1[c].covers(i as nat, gd1));
                    } else {
                        lemma_covers_parent_slot(parent, i as nat, gd0);
                        lemma_child_covers(parent, child0, 0, i as nat, gd1);
                        lemma_child_covers(parent, child1, 1, i as nat, gd1);
                        assert(pow2(0) == 1);
                        assert(i2 / 1 == i2);
                        assert(i / 1 == i);
                        assert(i == 2 * i2 + i % 2);
                        assert((gd0 - parent.ld()) as nat == 0);
                        if i % 2 == 0 {
                            assert(bks1[b as int].covers(i as nat, gd1));
                        } else {
                            assert(bks1[n].covers(i as nat, gd1));
                        }
                    }
                }
                assert forall|c1: int, c2: int, i: nat|
                    0 <= c1 < bks1.len() && 0 <= c2 < bks1.len() && #[trigger] bks1[c1].covers(
                        i,
                        gd1,
                    ) && #[trigger] bks1[c2].covers(i, gd1) implies c1 == c2 by {
                    lemma_covers_bound(bks1[c1], i, gd1);
                    lemma_child_covers(parent, child0, 0, i, gd1);
                    lemma_child_covers(parent, child1, 1, i, gd1);
                    if c1 == b || c1 == n {
                        lemma_covers_parent_slot(parent, i, gd0);
                    } else {
                        lemma_covers_parent_slot(bks1[c1], i, gd0);
                    }
                    if c2 == b || c2 == n {
                        lemma_covers_parent_slot(parent, i, gd0);
                    } else {
                        lemma_covers_parent_slot(bks1[c2], i, gd0);
                    }
                    let i2 = (i / 2) as int;
                    if c1 != b && c1 != n {
                        assert(old_bks[c1].covers(i2 as nat, gd0));
                    }
                    if c2 != b && c2 != n {
                        assert(old_bks[c2].covers(i2 as nat, gd0));
                    }
                    assert(old_bks[b as int].covers(i2 as nat, gd0) ==> old_dirs[i2] == b);
                }
                assert forall|c: int| 0 <= c < bks1.len() implies is_digit_seq(
                    #[trigger] bks1[c].bits@,
                ) && bks1[c].ld() <= gd1 by {
                    if c != b && c != n {
                        assert(bucket_ok(old_bks[c], gd0, m));
                    }
                }
            }
            self.repoint_from(0);
        }
        proof {
            let gd = self.global_depth as nat;
            let dirs = self.directories@;
            assert(bks1 == old_bks.update(b as int, child0).push(child1));
            lemma_total_update(old_bks, b as int, child0);
            lemma_total_push(old_bks.update(b as int, child0), child1);
            assert(keys_of(items@) == parent.keys());
            assert forall|c: int|
                0 <= c < bks1.len() && c != b && c != n implies #[trigger] bucket_ok(
                bks1[c],
                gd,
                m,
            ) by {
                assert(bucket_ok(old_bks[c], gd0, m));
            }
            assert forall|k: i32| #[trigger]
                m.contains_key(k) implies bks1[dirs[slot_of(k, gd) as int] as int].keys().contains(
                k,
            ) || keys_of(items@).contains(k) by {
                let c = old_dirs[slot_of(k, gd0) as int] as int;
                lemma_prefix_bound(key_hash(k), gd0);
                assert(old_bks[c].keys().contains(k));
                if c != b {
                    let j = choose|j: int|
                        0 <= j < old_bks[c].keys().len() && old_bks[c].keys()[j] == k;
                    assert(bucket_ok(old_bks[c], gd0, m));
                    assert(entry_placed(old_bks[c], old_bks[c].data@[j]));
                    lemma_entry_located(dirs, bks1, gd, c, k);
                }
            }
        }
        let ghost dirs_mid = self.directories@;
        let ghost gd_mid = self.global_depth;
        self.rehash(b, new_bucket_idx, items, Ghost(parent), Ghost(bks1), Ghost(m));
        proof {
            assert(self.directories@ == dirs_mid);
            assert(self.global_depth == gd_mid);
            assert(self.buckets@[n].bits == child1.bits);
        }
        proof {
            assert forall|k: i32| #[trigger] old(self).bucket_of(k) == b implies self.buckets@[self.bucket_of(k)].ld() == parent.ld() + 1 by {
                let gd = self.global_depth as nat;
                lemma_prefix_bound(key_hash(k), gd0);
                assert(old_bks[b as int].covers(slot_of(k, gd0), gd0));
                lemma_prefix_shorter(key_hash(k), parent.ld(), gd0);
                crate::util::lemma_prefix_step(key_hash(k), parent.ld());
                lemma_child_covers(parent, child0, 0, 0, gd);
                lemma_child_covers(parent, child1, 1, 0, gd);
                if crate::util::msb_bit(key_hash(k), parent.ld()) == 0 {
                    lemma_entry_located(self.directories@, self.buckets@, gd, b as int, k);
                } else {
                    lemma_entry_located(self.directories@, self.buckets@, gd, n, k);
                }
            }
        }
    }

    /// Hands each of `items`, the entries of the bucket just split, to the
    /// half of the pair `b`, `n` that its hash leads to.
    #[verifier::rlimit(50)]
    fn rehash(
        &mut self,
        b: usize,
        n: usize,
        items: Vec<(i32, V)>,
        parent: Ghost<Bucket<V>>,
        bks1: Ghost<Seq<Bucket<V>>>,
        m: Ghost<Map<i32, V>>,
    )
        requires
            old(self).layout_ok(),
            old(self).buckets@ == bks1@,
            b < n,
            n + 1 == bks1@.len(),
            bks1@[b as int].bits@ == parent@.bits@.push(0),
            bks1@[n as int].bits@ == parent@.bits@.push(1),
            bks1@[b as int].data@.len() == 0,
            bks1@[n as int].data@.len() == 0,
            is_digit_seq(parent@.bits@),
            1 <= parent@.ld() < old(self).global_depth,
            items@ == parent@.data@,
            bucket_ok(parent@, parent@.ld(), m@),
            old(self).keys@ == m@.dom(),
            m@.dom().finite(),
            old(self).len == m@.len(),
            old(self).len == entry_total(bks1@) + items@.len(),
            forall|c: int|
                0 <= c < bks1@.len() && c != b && c != n ==> #[trigger] bucket_ok(
                    bks1@[c],
                    old(self).global_depth as nat,
                    m@,
                ),
            forall|k: i32| #[trigger]
                m@.contains_key(k) ==> bks1@[old(self).directories@[slot_of(
                    k,
                    old(self).global_depth as nat,
                ) as int] as int].keys().contains(k) || keys_of(items@).contains(k),
        ensures
            final(self).wf(),
            final(self)@ == m@,
            final(self).directories == old(self).directories,
            final(self).global_depth == old(self).global_depth,
            final(self).buckets@.len() == bks1@.len(),
            forall|c: int| 0 <= c < bks1@.len() ==> #[trigger] final(self).buckets@[c].bits
                == bks1@[c].bits,
            forall|c: int|
                0 <= c < bks1@.len() && c != b && c != n ==> #[trigger] final(self).buckets@[c]
                    == bks1@[c],
    {
        let ghost gd = self.global_depth as nat;
        let ghost m = m@;
        let ghost total = items@.len();
        let ghost child0 = bks1@[b as int];
        let ghost child1 = bks1@[n as int];
        let mut items = items;
        proof {
            lemma_child_covers(parent@, child0, 0, 0, gd);
            lemma_child_covers(parent@, child1, 1, 0, gd);
            assert(child0.keys() =~= Seq::<i32>::empty());
            assert(child1.keys() =~= Seq::<i32>::empty());
        }
        while items.len() > 0
            invariant
                self.layout_ok(),
                self.global_depth == gd,
                self.keys@ == m.dom(),
                self.len == old(self).len,
                self.directories == old(self).directories,
                m.dom().finite(),
                self.len == m.len(),
                self.len == entry_total(self.buckets@) + items@.len(),
                self.buckets@.len() == bks1@.len(),
                b < n,
                n + 1 == bks1@.len(),
                forall|c: int| 0 <= c < bks1@.len() ==> #[trigger] self.buckets@[c].bits
                    == bks1@[c].bits,
                forall|c: int|
                    0 <= c < bks1@.len() && c != b && c != n ==> #[trigger] self.buckets@[c]
                        == bks1@[c],
                forall|c: int|
                    0 <= c < bks1@.len() && c != b && c != n ==> #[trigger] bucket_ok(
                        bks1@[c],
                        gd,
                        m,
                    ),
                child0 == bks1@[b as int],
                child1 == bks1@[n as int],
                child0.val() == 2 * parent@.val(),
                child1.val() == 2 * parent@.val() + 1,
                child0.ld() == parent@.ld() + 1,
                child1.ld() == parent@.ld() + 1,
                parent@.ld() + 1 <= gd,
                is_digit_seq(child0.bits@),
                is_digit_seq(child1.bits@),
                total <= BUCKET_CAP,
                self.buckets@[b as int].data@.len() + self.buckets@[n as int].data@.len()
                    + items@.len() == total,
                bucket_shape(self.buckets@[b as int], gd),
                bucket_shape(self.buckets@[n as int], gd),
                forall|j: int|
                    0 <= j < self.buckets@[b as int].data@.len() ==> entry_recorded(
                        m,
                        #[trigger] self.buckets@[b as int].data@[j],
                    ),
                forall|j: int|
                    0 <= j < self.buckets@[n as int].data@.len() ==> entry_recorded(
                        m,
                        #[trigger] self.buckets@[n as int].data@[j],
                    ),
                keys_of(items@).no_duplicates(),
                forall|j: int|
                    0 <= j < items@.len() ==> entry_placed(parent@, #[trigger] items@[j])
                        && entry_recorded(m, items@[j]) && !self.buckets@[b as int].keys().contains(
                        items@[j].0,
                    ) && !self.buckets@[n as int].keys().contains(items@[j].0),
                forall|k: i32| #[trigger]
                    m.contains_key(k) ==> self.buckets@[self.directories@[slot_of(
                        k,
                        gd,
                    ) as int] as int].keys().contains(k) || keys_of(items@).contains(k),
            decreases items@.len(),
        {
            let ghost before = items@;
            let ghost bks_before = self.buckets@;
            let e = items.pop().unwrap();
            let ghost k = e.0;
            proof {
                assert(before.last() == before[before.len() - 1]);
                assert(entry_placed(parent@, before[before.len() - 1]));
                assert(keys_of(before) == keys_of(items@).push(k));
                assert forall|x: int, y: int|
                    0 <= x < keys_of(items@).len() && 0 <= y < keys_of(items@).len() && x != y
                        implies keys_of(items@)[x] != keys_of(items@)[y] by {
                    assert(keys_of(items@)[x] == keys_of(before)[x]);
                    assert(keys_of(items@)[y] == keys_of(before)[y]);
                }
                crate::util::lemma_prefix_step(key_hash(k), parent@.ld());
                if crate::util::msb_bit(key_hash(k), parent@.ld()) == 0 {
                    lemma_entry_located(self.directories@, self.buckets@, gd, b as int, k);
                } else {
                    lemma_entry_located(self.directories@, self.buckets@, gd, n as int, k);
                }
            }
            let idx = self.locate_bucket(&e.0);
            let ghost target = self.buckets@[idx as int];
            self.buckets[idx].data.push(e);
            proof {
                let bks = self.buckets@;
                let dirs = self.directories@;
                assert(bks == bks_before.update(idx as int, bks[idx as int]));
                lemma_total_update(bks_before, idx as int, bks[idx as int]);
                assert(bks[idx as int].data@ == target.data@.push(e));
                assert(bks[idx as int].keys() == target.keys().push(k));
                assert(target.keys().no_duplicates());
                assert(!target.keys().contains(k));
                assert(bks[idx as int].keys().no_duplicates()) by {
                    assert forall|x: int, y: int|
                        0 <= x < bks[idx as int].keys().len() && 0 <= y < bks[idx as int].keys().len()
                            && x != y implies bks[idx as int].keys()[x] != bks[idx as int].keys()[y] by {
                        if x < target.keys().len() && y < target.keys().len() {
                        } else if x < target.keys().len() {
                            assert(target.keys()[x] == bks[idx as int].keys()[x]);
                        } else if y < target.keys().len() {
                            assert(target.keys()[y] == bks[idx as int].keys()[y]);
                        }
                    }
                }
                assert forall|c: int| 0 <= c < bks.len() implies #[trigger] bks[c].bits
                    == bks_before[c].bits by {}
                assert forall|i: int| 0 <= i < dirs.len() implies #[trigger] dirs[i] < bks.len()
                    && bks[dirs[i] as int].covers(i as nat, gd) by {
                    assert(bks_before[dirs[i] as int].covers(i as nat, gd));
                }
                assert forall|c: int, i: int|
                    0 <= c < bks.len() && 0 <= i < dirs.len() && #[trigger] bks[c].covers(
                        i as nat,
                        gd,
                    ) implies dirs[i] == c by {
                    assert(bks_before[c].covers(i as nat, gd));
                }
                assert forall|j: int|
                    0 <= j < items@.len() implies entry_placed(parent@, #[trigger] items@[j])
                        && entry_recorded(m, items@[j]) && !bks[b as int].keys().contains(
                        items@[j].0,
                    ) && !bks[n as int].keys().contains(items@[j].0) by {
                    assert(items@[j] == before[j]);
                    assert(keys_of(before)[j] == items@[j].0);
                    assert(keys_of(before)[before.len() - 1] == k);
                    lemma_push_contains(target.keys(), k, items@[j].0);
                }
                assert forall|k2: i32| #[trigger]
                    m.contains_key(k2) implies bks[dirs[slot_of(k2, gd) as int] as int].keys().contains(
                        k2,
                    ) || keys_of(items@).contains(k2) by {
                    lemma_push_contains(keys_of(items@), k, k2);
                    lemma_push_contains(target.keys(), k, k2);
                    lemma_prefix_bound(key_hash(k2), gd);
                }
                assert(forall|j: int|
                    0 <= j < bks[idx as int].data@.len() ==> entry_recorded(
                        m,
                        #[trigger] bks[idx as int].data@[j],
                    )) by {
                    assert forall|j: int| 0 <= j < bks[idx as int].data@.len() implies entry_recorded(m, #[trigger] bks[idx as int].data@[j]) by {
                        if j < target.data@.len() {
                            assert(bks[idx as int].data@[j] == target.data@[j]);
                        }
                    }
                }
                assert(forall|j: int|
                    0 <= j < bks[idx as int].data@.len() ==> entry_placed(
                        bks[idx as int],
                        #[trigger] bks[idx as int].data@[j],
                    )) by {
                    assert forall|j: int| 0 <= j < bks[idx as int].data@.len() implies entry_placed(bks[idx as int], #[trigger] bks[idx as int].data@[j]) by {
                        if j < target.data@.len() {
                            assert(bks[idx as int].data@[j] == target.data@[j]);
                        }
                    }
                }
            }
        }
        proof {
            let bks = self.buckets@;
            assert(keys_of(items@).len() == 0);
            assert forall|c: int| 0 <= c < bks.len() implies bucket_ok(#[trigger] bks[c], gd, m) by {
                if c != b && c != n {
                    assert(bucket_ok(bks1@[c], gd, m));
                }
            }
            assert forall|k2: i32| #[trigger]
                m.contains_key(k2) implies bks[self.directories@[slot_of(k2, gd) as int] as int].keys().contains(
                k2,
            ) by {
                if keys_of(items@).contains(k2) {
                    let j = choose|j: int| 0 <= j < keys_of(items@).len() && keys_of(items@)[j] == k2;
                }
            }
            self.lemma_view_is(m);
        }
    }

    /// Every key of the map that shares the deepest prefix of `key`'s hash
    /// lies in `key`'s bucket.
    proof fn lemma_peers_in_bucket(&self, key: i32)
        requires
            self.wf(),
        ensures
            slot_of(key, self.global_depth as nat) < self.directories@.len(),
            0 <= self.bucket_of(key) < self.buckets@.len(),
            deepest_peers(self@, key).subset_of(self.buckets@[self.bucket_of(key)].keys().to_set()),
            deepest_peers(self@, key).finite(),
    {
        let gd = self.global_depth as nat;
        let mx = MAX_GLOBAL_DEPTH as nat;
        lemma_prefix_bound(key_hash(key), gd);
        self@.dom().lemma_len_filter(
            |k: i32| slot_of(k, MAX_GLOBAL_DEPTH as nat) == slot_of(key, MAX_GLOBAL_DEPTH as nat),
        );
        assert forall|k: i32| deepest_peers(self@, key).contains(k) implies #[trigger] self.buckets@[self.bucket_of(key)].keys().to_set().contains(k) by {
            assert(self@.contains_key(k));
            lemma_prefix_shorter(key_hash(k), gd, mx);
            lemma_prefix_shorter(key_hash(key), gd, mx);
            assert(slot_of(k, gd) == slot_of(key, gd));
        }
    }

    /// A full bucket at the deepest level leaves no room for `key`.
    proof fn lemma_full_deepest_is_crowded(&self, key: i32)
        requires
            self.wf(),
            slot_of(key, self.global_depth as nat) < self.directories@.len(),
            self.buckets@[self.bucket_of(key)].ld() == MAX_GLOBAL_DEPTH,
            self.buckets@[self.bucket_of(key)].data@.len() == BUCKET_CAP,
        ensures
            crowded(self@, key),
    {
        let gd = self.global_depth as nat;
        let bk = self.buckets@[self.bucket_of(key)];
        let ks = bk.keys();
        lemma_prefix_bound(key_hash(key), gd);
        assert(bucket_ok(bk, gd, self@));
        assert(gd == MAX_GLOBAL_DEPTH);
        assert(bk.covers(slot_of(key, gd), gd));
        lemma2_to64();
        assert(slot_of(key, gd) / 1 == slot_of(key, gd));
        ks.unique_seq_to_set();
        self@.dom().lemma_len_filter(
            |k: i32| slot_of(k, MAX_GLOBAL_DEPTH as nat) == slot_of(key, MAX_GLOBAL_DEPTH as nat),
        );
        assert forall|k: i32| ks.to_set().contains(k) implies #[trigger] deepest_peers(self@, key).contains(k) by {
            let j = choose|j: int| 0 <= j < ks.len() && ks[j] == k;
            assert(entry_placed(bk, bk.data@[j]));
            assert(entry_recorded(self@, bk.data@[j]));
            assert(hash_prefix(key_hash(k), gd) / 1 == hash_prefix(key_hash(k), gd));
        }
        vstd::set_lib::lemma_len_subset(ks.to_set(), deepest_peers(self@, key));
    }

    /// A bucket with room takes every key that shares `key`'s deepest prefix.
    proof fn lemma_room_is_not_crowded(&self, key: i32)
        requires
            self.wf(),
            slot_of(key, self.global_depth as nat) < self.directories@.len(),
            self.buckets@[self.bucket_of(key)].data@.len() < BUCKET_CAP,
        ensures
            !crowded(self@, key),
    {
        let gd = self.global_depth as nat;
        let bk = self.buckets@[self.bucket_of(key)];
        assert(bucket_ok(bk, gd, self@));
        self.lemma_peers_in_bucket(key);
        bk.keys().unique_seq_to_set();
        vstd::set_lib::lemma_len_subset(deepest_peers(self@, key), bk.keys().to_set());
    }

    /// Inserts `value` under `key`. A key already present has its value
    /// replaced and the previous one is returned; a new key makes `len()`
    /// grow by one, splitting its bucket, and doubling the directory, as often
    /// as it takes to make room.
    #[verifier::rlimit(50)]
    pub fn insert(&mut self, key: i32, value: V) -> (r: Option<V>)
        requires
            old(self).wf(),
            old(self)@.contains_key(key) || old(self)@.len() < usize::MAX,
            old(self)@.contains_key(key) || !crowded(old(self)@, key),
        ensures
            final(self).wf(),
            final(self)@ == old(self)@.insert(key, value),
            final(self)@.dom().finite(),
            r == (if old(self)@.contains_key(key) {
                Some(old(self)@[key])
            } else {
                None
            }),
            old(self)@.contains_key(key) || old(self).bucket_sizes()[old(self).bucket_of(key)]
                < BUCKET_CAP ==> {
                &&& final(self).depth() == old(self).depth()
                &&& final(self).directory() == old(self).directory()
                &&& final(self).bucket_bits() == old(self).bucket_bits()
            },
            !old(self)@.contains_key(key) ==> {
                &&& final(self).depth_of(key) >= old(self).depth_of(key)
                &&& final(self).bucket_sizes().len() == old(self).bucket_sizes().len()
                    + (final(self).depth_of(key) - old(self).depth_of(key))
                &&& final(self).depth() == if final(self).depth_of(key) > old(self).depth() {
                    final(self).depth_of(key)
                } else {
                    old(self).depth()
                }
            },
            !old(self)@.contains_key(key) && old(self).bucket_sizes()[old(self).bucket_of(key)]
                == BUCKET_CAP ==> final(self).depth_of(key) > old(self).depth_of(key),
    {
        let ghost m = self@;
        let ghost gv = value;
        let bucket_idx = self.locate_bucket(&key);
        match self.buckets[bucket_idx].position(&key) {
            Some(j) => {
                let ghost bk = self.buckets@[bucket_idx as int];
                let mut previous = value;
                proof {
                    assert(bucket_ok(bk, self.global_depth as nat, m));
                    assert(entry_recorded(m, bk.data@[j as int]));
                }
                core::mem::swap(&mut self.buckets[bucket_idx].data[j].1, &mut previous);
                proof {
                    let gd = self.global_depth as nat;
                    let bks = self.buckets@;
                    let m2 = m.insert(key, gv);
                    let nb = bks[bucket_idx as int];
                    assert(nb.data@ == bk.data@.update(j as int, (key, gv)));
                    assert(bks == old(self).buckets@.update(bucket_idx as int, nb));
                    lemma_total_update(old(self).buckets@, bucket_idx as int, nb);
                    assert(nb.keys() == bk.keys()) by {
                        assert(nb.keys() =~= bk.keys());
                    }
                    assert(nb.bits == bk.bits);
                    assert forall|c: int| 0 <= c < bks.len() implies bucket_ok(#[trigger] bks[c], gd, m2) by {
                        assert(bucket_ok(old(self).buckets@[c], gd, m));
                        if c == bucket_idx {
                            assert forall|x: int| 0 <= x < nb.data@.len() implies entry_recorded(m2, #[trigger] nb.data@[x]) && entry_placed(nb, nb.data@[x]) by {
                                if x != j {
                                    assert(nb.data@[x] == bk.data@[x]);
                                    assert(bk.keys()[x] != bk.keys()[j as int]);
                                    assert(entry_placed(bk, bk.data@[x]));
                                } else {
                                    assert(entry_placed(bk, bk.data@[x]));
                                }
                            }
                        } else {
                            let ob = bks[c];
                            assert forall|x: int| 0 <= x < ob.data@.len() implies entry_recorded(m2, #[trigger] ob.data@[x]) by {
                                assert(entry_recorded(m, ob.data@[x]));
                                assert(entry_placed(ob, ob.data@[x]));
                                if ob.data@[x].0 == key {
                                    assert(old(self).buckets@[c] == ob);
                                    assert(entry_placed(bk, bk.data@[j as int]));
                                    lemma_entry_located(self.directories@, old(self).buckets@, gd, c, key);
                                    lemma_entry_located(self.directories@, old(self).buckets@, gd, bucket_idx as int, key);
                                }
                            }
                        }
                    }
                    assert forall|i: int| 0 <= i < self.directories@.len() implies #[trigger] self.directories@[i] < bks.len()
                        && bks[self.directories@[i] as int].covers(i as nat, gd) by {
                        assert(old(self).buckets@[self.directories@[i] as int].covers(i as nat, gd));
                    }
                    assert forall|c: int, i: int|
                        0 <= c < bks.len() && 0 <= i < self.directories@.len() && #[trigger] bks[c].covers(i as nat, gd)
                            implies self.directories@[i] == c by {
                        assert(old(self).buckets@[c].covers(i as nat, gd));
                    }
                    assert(m2.dom() == m.dom());
                    assert forall|k: i32| #[trigger] m2.contains_key(k) implies bks[self.directories@[slot_of(k, gd) as int] as int].keys().contains(k) by {
                        lemma_prefix_bound(key_hash(k), gd);
                    }
                }
                proof {
                    self.lemma_view_is(m.insert(key, gv));
                    assert(self.bucket_bits() =~= old(self).bucket_bits()) by {
                        assert forall|c: int| 0 <= c < self.buckets@.len() implies #[trigger] self.buckets@[c].bits == old(self).buckets@[c].bits by {}
                    }
                }
                return Some(previous);
            },
            None => {},
        }
        let mut idx = bucket_idx;
        let ghost gd0 = self.global_depth as int;
        let ghost n0 = self.buckets@.len() as int;
        let ghost ld0 = self.buckets@[bucket_idx as int].ld() as int;
        let ghost dirs0 = self.directories@;
        let ghost bks0 = self.buckets@;
        let ghost full0 = self.buckets@[bucket_idx as int].data@.len() == BUCKET_CAP;
        proof {
            assert(!m.contains_key(key)) by {
                lemma_prefix_bound(key_hash(key), self.global_depth as nat);
            }
            assert(bucket_ok(self.buckets@[bucket_idx as int], self.global_depth as nat, m));
        }
        while self.buckets[idx].is_full()
            invariant
                self.wf(),
                self@ == m,
                m.len() < usize::MAX,
                !m.contains_key(key),
                !crowded(m, key),
                slot_of(key, self.global_depth as nat) < self.directories@.len(),
                idx == self.bucket_of(key),
                idx < self.buckets@.len(),
                self.buckets@[idx as int].ld() >= ld0,
                self.buckets@.len() == n0 + (self.buckets@[idx as int].ld() - ld0),
                self.global_depth == if self.buckets@[idx as int].ld() > gd0 {
                    self.buckets@[idx as int].ld() as int
                } else {
                    gd0
                },
                self.buckets@[idx as int].ld() == ld0 ==> self.directories@ == dirs0
                    && self.global_depth == gd0 && self.buckets@ == bks0,
                !full0 ==> self.buckets@[idx as int].ld() == ld0,
                full0 ==> self.buckets@[idx as int].ld() > ld0 || self.buckets@[idx as int].data@.len() == BUCKET_CAP,
                bks0[bucket_idx as int].ld() <= gd0,
                bucket_idx < bks0.len(),
                ld0 == bks0[bucket_idx as int].ld(),
                full0 == (bks0[bucket_idx as int].data@.len() == BUCKET_CAP),
                bucket_idx == dirs0[slot_of(key, gd0 as nat) as int],
            decreases MAX_GLOBAL_DEPTH - self.buckets@[idx as int].ld(),
        {
            proof {
                let gd = self.global_depth as nat;
                if !full0 {
                    assert(self.directories@ == dirs0 && self.global_depth == gd0);
                    assert(idx == bucket_idx);
                }
                assert(bucket_ok(self.buckets@[idx as int], gd, m));
                if self.buckets@[idx as int].ld() == MAX_GLOBAL_DEPTH {
                    self.lemma_full_deepest_is_crowded(key);
                }
            }
            self.split(idx);
            idx = self.locate_bucket(&key);
            proof {
                assert(bucket_ok(self.buckets@[idx as int], self.global_depth as nat, m));
            }
        }
        let ghost target = self.buckets@[idx as int];
        let ghost bks_pre = self.buckets@;
        let ghost dirs_pre = self.directories@;
        let ghost gd_pre = self.global_depth;
        self.buckets[idx].data.push((key, value));
        self.len = self.len + 1;
        self.keys = Ghost(self.keys@.insert(key));
        proof {
            let gd = self.global_depth as nat;
            let bks = self.buckets@;
            let dirs = self.directories@;
            let m2 = m.insert(key, gv);
            assert(self.keys@ =~= m2.dom());
            let nb = bks[idx as int];
            assert(bucket_ok(target, gd, m));
            assert(nb.data@ == target.data@.push((key, gv)));
            assert(bks == bks_pre.update(idx as int, nb));
            lemma_total_update(bks_pre, idx as int, nb);
            assert(nb.keys() == target.keys().push(key));
            assert(!target.keys().contains(key)) by {
                if target.keys().contains(key) {
                    let j = choose|j: int| 0 <= j < target.keys().len() && target.keys()[j] == key;
                    assert(entry_recorded(m, target.data@[j]));
                }
            }
            assert(nb.keys().no_duplicates()) by {
                assert forall|x: int, y: int|
                    0 <= x < nb.keys().len() && 0 <= y < nb.keys().len() && x != y implies nb.keys()[x] != nb.keys()[y] by {
                    if x < target.keys().len() {
                        assert(nb.keys()[x] == target.keys()[x]);
                    }
                    if y < target.keys().len() {
                        assert(nb.keys()[y] == target.keys()[y]);
                    }
                }
            }
            assert(target.covers(slot_of(key, gd), gd));
            lemma_prefix_shorter(key_hash(key), target.ld(), gd);
            assert forall|c: int| 0 <= c < bks.len() implies bucket_ok(#[trigger] bks[c], gd, m2) by {
                let ob = old_bucket(bks, c, idx as int, target);
                assert(bucket_ok(ob, gd, m));
                assert forall|x: int| 0 <= x < bks[c].data@.len() implies entry_recorded(m2, #[trigger] bks[c].data@[x]) && entry_placed(bks[c], bks[c].data@[x]) by {
                    if c != idx || x < target.data@.len() {
                        assert(bks[c].data@[x] == ob.data@[x]);
                        assert(entry_recorded(m, ob.data@[x]));
                        assert(entry_placed(ob, ob.data@[x]));
                    }
                }
            }
            assert forall|i: int| 0 <= i < dirs.len() implies #[trigger] dirs[i] < bks.len()
                && bks[dirs[i] as int].covers(i as nat, gd) by {
                assert(old_bucket(bks, dirs[i] as int, idx as int, target).covers(i as nat, gd));
            }
            assert forall|c: int, i: int|
                0 <= c < bks.len() && 0 <= i < dirs.len() && #[trigger] bks[c].covers(i as nat, gd)
                    implies dirs[i] == c by {
                assert(old_bucket(bks, c, idx as int, target).covers(i as nat, gd));
            }
            assert forall|k: i32| #[trigger] m2.contains_key(k) implies bks[dirs[slot_of(k, gd) as int] as int].keys().contains(k) by {
                lemma_prefix_bound(key_hash(k), gd);
                lemma_push_contains(target.keys(), key, k);
                assert(nb.keys()[target.keys().len() as int] == key);
            }
            self.lemma_view_is(m2);
            assert(self.bucket_bits() =~= bks_pre.map_values(|bk: Bucket<V>| bk.bits@)) by {
                assert forall|c: int| 0 <= c < bks.len() implies #[trigger] bks[c].bits == bks_pre[c].bits by {}
            }
            assert(self.bucket_sizes().len() == bks_pre.len());
            assert(self.bucket_of(key) == idx);
        }
        None
    }

    /// Inserts `value` under `key` where the map can take it: everywhere but
    /// where `key` is new and `BUCKET_CAP` keys already share every bit of its
    /// hash that the directory can use. There the map is left as it was and
    /// `value` comes back in `Err`.
    pub fn try_insert(&mut self, key: i32, value: V) -> (r: Result<Option<V>, V>)
        requires
            old(self).wf(),
            old(self)@.contains_key(key) || old(self)@.len() < usize::MAX,
        ensures
            final(self).wf(),
            (r is Ok) == (old(self)@.contains_key(key) || !crowded(old(self)@, key)),
            match r {
                Ok(o) => final(self)@ == old(self)@.insert(key, value) && o == (if old(
                    self,
                )@.contains_key(key) {
                    Some(old(self)@[key])
                } else {
                    None
                }),
                Err(v) => v == value && final(self)@ == old(self)@,
            },
    {
        let ghost m = self@;
        let mut idx = self.locate_bucket(&key);
        if self.buckets[idx].contains(&key) {
            proof {
                assert(bucket_ok(self.buckets@[idx as int], self.global_depth as nat, m));
                let j = choose|j: int| 0 <= j < self.buckets@[idx as int].keys().len() && self.buckets@[idx as int].keys()[j] == key;
                assert(entry_recorded(m, self.buckets@[idx as int].data@[j]));
            }
            return Ok(self.insert(key, value));
        }
        proof {
            lemma_prefix_bound(key_hash(key), self.global_depth as nat);
            assert(!m.contains_key(key));
        }
        while self.buckets[idx].is_full()
            invariant
                self.wf(),
                self@ == m,
                m == old(self)@,
                !m.contains_key(key),
                slot_of(key, self.global_depth as nat) < self.directories@.len(),
                idx == self.bucket_of(key),
                idx < self.buckets@.len(),
            decreases MAX_GLOBAL_DEPTH - self.buckets@[idx as int].ld(),
        {
            proof {
                assert(bucket_ok(self.buckets@[idx as int], self.global_depth as nat, m));
            }
            if self.buckets[idx].local_depth() == MAX_GLOBAL_DEPTH {
                proof {
                    self.lemma_full_deepest_is_crowded(key);
                }
                return Err(value);
            }
            self.split(idx);
            idx = self.locate_bucket(&key);
            proof {
                assert(bucket_ok(self.buckets@[idx as int], self.global_depth as nat, m));
            }
        }
        proof {
            self.lemma_room_is_not_crowded(key);
        }
        Ok(self.insert(key, value))
    }

    /// The first directory slot of the sibling of bucket `b`: the bucket whose
    /// bits are those of `b` with the last one flipped.
    fn sibling_slot(&self, b: usize) -> (r: usize)
        requires
            self.wf(),
            b < self.buckets@.len(),
        ensures
            r < self.directories@.len(),
            r == (2 * digits_value(self.buckets@[b as int].bits@.drop_last()) + 1
                - self.buckets@[b as int].bits@.last()) * pow2(
                (self.global_depth - self.buckets@[b as int].ld()) as nat,
            ),
    {
        let ghost gd = self.global_depth as nat;
        let ghost bk = self.buckets@[b as int];
        proof {
            assert(bucket_ok(bk, gd, self@));
        }
        let bits = &self.buckets[b].bits;
        let local_depth = bits.len();
        let mut bucket_bits: Vec<usize> = Vec::with_capacity(self.global_depth);
        let mut i: usize = 0;
        proof {
            assert(bits@.subrange(0, 0) =~= Seq::<u8>::empty());
            assert(bucket_bits@ =~= Seq::<usize>::empty());
        }
        while i < local_depth
            invariant
                i <= local_depth == bits@.len(),
                bits@ == bk.bits@,
                is_digit_seq(bits@),
                bucket_bits@.len() == i,
                is_bit_seq(bucket_bits@),
                forall|j: int| 0 <= j < i ==> bucket_bits@[j] == bits@[j],
                bits_value(bucket_bits@) == digits_value(bits@.subrange(0, i as int)),
            decreases local_depth - i,
        {
            let ghost prev = bucket_bits@;
            proof {
                assert(bits@[i as int] < 2);
            }
            bucket_bits.push(bits[i] as usize);
            proof {
                assert(bucket_bits@.drop_last() == prev);
                assert(bits@.subrange(0, i + 1).drop_last() == bits@.subrange(0, i as int));
            }
            i += 1;
        }
        proof {
            assert(bits@.subrange(0, local_depth as int) == bits@);
        }
        let bucket_last_bit = bucket_bits[local_depth - 1];
        let ghost before_flip = bucket_bits@;
        bucket_bits.set(local_depth - 1, 1 - bucket_last_bit);
        let ghost pval = digits_value(bk.bits@.drop_last());
        proof {
            assert(bucket_bits@.drop_last() == before_flip.drop_last());
            assert(bk.bits@.last() == bk.bits@[local_depth - 1]);
            // the copy and the bits agree on everything but the last digit
            assert(bits_value(before_flip.drop_last()) == pval) by {
                lemma_copy_value(before_flip.drop_last(), bk.bits@.drop_last());
            }
            assert(bits_value(bucket_bits@) == 2 * pval + 1 - bucket_last_bit);
            assert(is_bit_seq(bucket_bits@)) by {
                assert forall|j: int| 0 <= j < bucket_bits@.len() implies #[trigger] bucket_bits@[j] < 2 by {
                    if j != local_depth - 1 {
                        assert(bucket_bits@[j] == before_flip[j]);
                    }
                }
            }
            lemma2_to64();
            assert(bucket_bits@.len() == local_depth);
            assert(pow2(0) == 1);
            assert((2 * pval + 1 - bucket_last_bit) * 1 == 2 * pval + 1 - bucket_last_bit);
        }
        while bucket_bits.len() < self.global_depth
            invariant
                local_depth <= bucket_bits@.len() <= self.global_depth,
                self.global_depth <= MAX_GLOBAL_DEPTH,
                is_bit_seq(bucket_bits@),
                bits_value(bucket_bits@) == (2 * pval + 1 - bucket_last_bit) * pow2(
                    (bucket_bits@.len() - local_depth) as nat,
                ),
            decreases self.global_depth - bucket_bits@.len(),
        {
            let ghost prev = bucket_bits@;
            bucket_bits.push(0);
            proof {
                assert(bucket_bits@.drop_last() == prev);
                lemma_pow2_adds((prev.len() - local_depth) as nat, 1);
                lemma2_to64();
                let x = (2 * pval + 1 - bucket_last_bit) as int;
                let p = pow2((prev.len() - local_depth) as nat) as int;
                assert(2 * (x * p) == x * (p * 2)) by (nonlinear_arith);
                assert(is_bit_seq(bucket_bits@)) by {
                    assert forall|j: int| 0 <= j < bucket_bits@.len() implies #[trigger] bucket_bits@[j] < 2 by {
                        if j < prev.len() {
                            assert(bucket_bits@[j] == prev[j]);
                        }
                    }
                }
            }
        }
        proof {
            crate::util::lemma_bits_value_bound(bucket_bits@);
        }
        bits_to_value(bucket_bits.as_slice())
    }

    /// The first directory slot of the sibling of bucket `b`: its bits with
    /// the last one flipped, followed by zeros.
    spec fn sibling_slot_of(&self, b: int) -> int {
        let bk = self.buckets@[b];
        (2 * digits_value(bk.bits@.drop_last()) + 1 - bk.bits@.last()) * pow2(
            (self.global_depth - bk.ld()) as nat,
        )
    }

    /// The bucket that the sibling slot of bucket `b` names.
    pub closed spec fn sibling_of(&self, b: int) -> int {
        self.directories@[self.sibling_slot_of(b)] as int
    }

    /// Bucket `b` merges with its sibling: its local depth is at least 2, the
    /// sibling has the same local depth, and their entries together stay below
    /// `BUCKET_CAP`.
    pub closed spec fn mergeable(&self, b: int) -> bool {
        let bk = self.buckets@[b];
        let sib = self.buckets@[self.sibling_of(b)];
        &&& bk.ld() >= 2
        &&& sib.ld() == bk.ld()
        &&& sib.data@.len() + bk.data@.len() < BUCKET_CAP
    }

    /// Removing `key` makes its bucket merge with its sibling: the bucket
    /// has local depth at least 2, the sibling the same local depth, and the
    /// entries of both but `key` stay below `BUCKET_CAP`.
    pub closed spec fn merges_on_remove(&self, key: i32) -> bool {
        let b = self.bucket_of(key);
        let bk = self.buckets@[b];
        let sib = self.buckets@[self.sibling_of(b)];
        &&& bk.ld() >= 2
        &&& sib.ld() == bk.ld()
        &&& sib.data@.len() + bk.data@.len() <= BUCKET_CAP
    }

    /// The sibling slot lies in the directory and names another bucket.
    proof fn lemma_sibling_differs(&self, b: int)
        requires
            self.wf(),
            0 <= b < self.buckets@.len(),
        ensures
            0 <= self.sibling_slot_of(b) < self.directories@.len(),
            0 <= self.sibling_of(b) < self.buckets@.len(),
            self.sibling_of(b) != b,
            self.buckets@[self.sibling_of(b)].covers(self.sibling_slot_of(b) as nat, self.global_depth as nat),
    {
        let gd = self.global_depth as nat;
        let bk = self.buckets@[b];
        assert(bucket_ok(bk, gd, self@));
        let ld = bk.ld();
        let init = bk.bits@.drop_last();
        let pval = digits_value(init);
        let last = bk.bits@.last();
        assert(last == bk.bits@[ld - 1]);
        assert(last < 2);
        assert(is_digit_seq(init)) by {
            assert forall|i: int| 0 <= i < init.len() implies #[trigger] init[i] < 2 by {
                assert(init[i] == bk.bits@[i]);
            }
        }
        lemma_digits_value_bound(init);
        lemma_pow2_adds((ld - 1) as nat, 1);
        lemma2_to64();
        let e = (gd - ld) as nat;
        lemma_pow2_pos(e);
        lemma_pow2_adds(ld, e);
        let sv = 2 * pval + 1 - last;
        assert(0 <= sv < pow2(ld));
        assert((sv + 1) * pow2(e) <= pow2(ld) * pow2(e)) by (nonlinear_arith)
            requires
                sv + 1 <= pow2(ld),
        ;
        assert(sv * pow2(e) + pow2(e) == (sv + 1) * pow2(e)) by (nonlinear_arith);
        assert(sv * pow2(e) >= 0) by (nonlinear_arith)
            requires
                sv >= 0,
        ;
        let slot = self.sibling_slot_of(b);
        assert(slot == sv * pow2(e));
        vstd::arithmetic::div_mod::lemma_div_multiples_vanish(sv as int, pow2(e) as int);
        vstd::arithmetic::mul::lemma_mul_is_commutative(sv as int, pow2(e) as int);
        assert(slot / pow2(e) as int == sv);
        assert(self.directories@[slot] < self.buckets@.len());
        assert(self.buckets@[self.directories@[slot] as int].covers(slot as nat, gd));
        if self.sibling_of(b) == b {
            assert(bk.covers(slot as nat, gd));
            assert(bk.val() == 2 * pval + last);
        }
    }

    /// After an entry leaves bucket `bucket_idx`, merges it with its sibling
    /// where both have one local depth and their entries together stay below
    /// `BUCKET_CAP`. The bucket whose last bit is `0` stays and loses that
    /// bit; the other is removed, and the slots of the buckets stored after it
    /// are pointed at their new positions.
    #[verifier::rlimit(100)]
    #[verifier::spinoff_prover]
    fn coalesce(&mut self, bucket_idx: usize)
        requires
            old(self).wf(),
            bucket_idx < old(self).buckets@.len(),
        ensures
            final(self).wf(),
            final(self)@ == old(self)@,
            final(self).global_depth == old(self).global_depth,
            final(self).directories@.len() == old(self).directories@.len(),
            !old(self).mergeable(bucket_idx as int) ==> *final(self) == *old(self),
            old(self).mergeable(bucket_idx as int) ==> {
                &&& final(self).buckets@.len() + 1 == old(self).buckets@.len()
                &&& forall|k: i32|
                    #[trigger] old(self).bucket_of(k) == bucket_idx ==> final(self).depth_of(k) + 1
                        == old(self).buckets@[bucket_idx as int].ld()
                        && final(self).bucket_sizes()[final(self).bucket_of(k)]
                        == old(self).buckets@[old(self).sibling_of(bucket_idx as int)].data@.len()
                        + old(self).buckets@[bucket_idx as int].data@.len()
            },
    {
        let ghost m = self@;
        let ghost gd = self.global_depth as nat;
        let ghost bks0 = self.buckets@;
        let ghost dirs0 = self.directories@;
        if self.buckets[bucket_idx].local_depth() < 2 {
            return;
        }
        let slot = self.sibling_slot(bucket_idx);
        let sibling_idx = self.directories[slot];
        proof {
            assert(slot == self.sibling_slot_of(bucket_idx as int));
            assert(sibling_idx == self.sibling_of(bucket_idx as int));
        }
        let local_depth = self.buckets[bucket_idx].local_depth();
        if self.buckets[sibling_idx].local_depth() != local_depth {
            return;
        }
        if self.buckets[sibling_idx].data.len() + self.buckets[bucket_idx].data.len() >= BUCKET_CAP {
            return;
        }
        let bucket_last_bit = self.buckets[bucket_idx].bits[local_depth - 1];
        let (winner, loser) = if bucket_last_bit == 1 {
            (sibling_idx, bucket_idx)
        } else {
            (bucket_idx, sibling_idx)
        };
        let ghost bk = bks0[bucket_idx as int];
        let ghost sb = bks0[sibling_idx as int];
        let ghost w = bks0[winner as int];
        let ghost l = bks0[loser as int];
        let ghost pval = digits_value(bk.bits@.drop_last());
        let ghost e = (gd - local_depth) as nat;
        proof {
            assert(bucket_ok(bk, gd, m));
            assert(bucket_ok(sb, gd, m));
            assert(sb.covers(slot as nat, gd));
            lemma_pow2_pos(e);
            vstd::arithmetic::div_mod::lemma_div_multiples_vanish(
                (2 * pval + 1 - bk.bits@.last()) as int,
                pow2(e) as int,
            );
            vstd::arithmetic::mul::lemma_mul_is_commutative(
                (2 * pval + 1 - bk.bits@.last()) as int,
                pow2(e) as int,
            );
            assert(bk.bits@.last() == bk.bits@[local_depth - 1]);
            assert(bk.val() == 2 * pval + bk.bits@.last());
            assert(sb.val() == 2 * pval + 1 - bk.bits@.last());
            assert(sibling_idx != bucket_idx);
            assert(w.val() == 2 * pval);
            assert(l.val() == 2 * pval + 1);
            // both share every bit but the last
            assert(sb.bits@.last() == sb.bits@[local_depth - 1]);
            assert(sb.bits@.drop_last().len() == bk.bits@.drop_last().len());
            assert(is_digit_seq(sb.bits@.drop_last())) by {
                assert forall|i: int| 0 <= i < sb.bits@.drop_last().len() implies #[trigger] sb.bits@.drop_last()[i] < 2 by {
                    assert(sb.bits@.drop_last()[i] == sb.bits@[i]);
                }
            }
            assert(is_digit_seq(bk.bits@.drop_last())) by {
                assert forall|i: int| 0 <= i < bk.bits@.drop_last().len() implies #[trigger] bk.bits@.drop_last()[i] < 2 by {
                    assert(bk.bits@.drop_last()[i] == bk.bits@[i]);
                }
            }
            assert(sb.bits@[local_depth - 1] < 2);
            assert(bk.bits@[local_depth - 1] < 2);
            crate::bucket::lemma_digits_value_injective(sb.bits@.drop_last(), bk.bits@.drop_last());
            assert(w.bits@ =~= w.bits@.drop_last().push(0));
            assert(l.bits@ =~= w.bits@.drop_last().push(1));
        }
        let loser_value = self.buckets[loser].value(self.global_depth);
        let mut moved: Vec<(i32, V)> = Vec::new();
        core::mem::swap(&mut self.buckets[loser].data, &mut moved);
        self.buckets[winner].data.append(&mut moved);
        self.buckets[winner].bits.pop();
        let ghost merged = self.buckets@[winner as int];
        let ghost bks2 = self.buckets@;
        proof {
            let emptied = bks2[loser as int];
            assert(emptied.data@.len() == 0);
            assert(bks2 == bks0.update(loser as int, emptied).update(winner as int, merged));
            lemma_total_update(bks0, loser as int, emptied);
            lemma_total_update(bks0.update(loser as int, emptied), winner as int, merged);
            assert(entry_total(bks2) == entry_total(bks0));
            assert(merged.bits@ == w.bits@.drop_last());
            assert(merged.data@ == w.data@ + l.data@);
            lemma_child_covers(merged, w, 0, 0, gd);
            lemma_value_addresses_bucket(&l, gd, loser_value, loser_value.first());
            lemma_covers_bound(l, loser_value.first(), gd);
        }
        match loser_value {
            BucketValue::EqualTo(idx) => {
                self.directories.set(idx, winner);
            },
            BucketValue::Range(range) => {
                let start = *range.start();
                let end = *range.end();
                let mut idx: usize = start;
                proof {
                    lemma_value_addresses_bucket(&l, gd, loser_value, end as nat);
                    lemma_covers_bound(l, end as nat, gd);
                    if gd < MAX_GLOBAL_DEPTH {
                        lemma_pow2_strictly_increases(gd, MAX_GLOBAL_DEPTH as nat);
                    }
                    lemma2_to64();
                }
                while idx <= end
                    invariant
                        start <= idx <= end + 1,
                        end < self.directories@.len() == dirs0.len(),
                        self.directories@.len() <= 0x4000_0000,
                        forall|i: int|
                            0 <= i < dirs0.len() ==> #[trigger] self.directories@[i] == if start
                                <= i < idx {
                                winner
                            } else {
                                dirs0[i]
                            },
                        self.buckets@ == bks2,
                        self.global_depth == gd,
                        self.keys@ == m.dom(),
                        self.len == m.len(),
                    decreases end + 1 - idx,
                {
                    self.directories.set(idx, winner);
                    idx += 1;
                }
            },
        }
        let ghost dirs2 = self.directories@;
        proof {
            assert forall|i: int| 0 <= i < dirs0.len() implies #[trigger] dirs2[i] == if l.covers(i as nat, gd) { winner } else { dirs0[i] } by {
                lemma_value_addresses_bucket(&l, gd, loser_value, i as nat);
            }
        }
        self.buckets.remove(loser);
        let ghost nb = self.buckets@;
        proof {
            lemma_total_remove(bks2, loser as int);
        }
        let ghost wn: int = if winner < loser { winner as int } else { winner - 1 };
        proof {
            // index of a surviving bucket before the removal
            assert forall|c: int| 0 <= c < nb.len() implies #[trigger] nb[c] == bks2[if c < loser { c } else { c + 1 }] by {}
            assert(nb[wn] == merged);
            assert forall|c: int| 0 <= c < bks2.len() && c != winner && c != loser implies #[trigger] bks2[c] == bks0[c] by {}
            assert forall|c: int, i: nat| 0 <= c < nb.len() && #[trigger] nb[c].covers(i, gd) implies
                (c == wn ==> (w.covers(i, gd) || l.covers(i, gd))) && (c != wn ==> bks0[if c < loser { c } else { c + 1 }].covers(i, gd)) by {
                lemma_child_covers(merged, w, 0, i, gd);
                lemma_child_covers(merged, l, 1, i, gd);
                if merged.covers(i, gd) {
                    lemma_div_window((i / pow2((gd - w.ld()) as nat)) as int, 2, pval as int);
                    lemma_pow2_pos((gd - w.ld()) as nat);
                    lemma_pow2_adds((gd - w.ld()) as nat, 1);
                    lemma2_to64();
                    vstd::arithmetic::div_mod::lemma_div_denominator(i as int, pow2((gd - w.ld()) as nat) as int, 2);
                    assert((gd - merged.ld()) as nat == (gd - w.ld()) as nat + 1);
                }
            }
            assert forall|i: int| 0 <= i < dirs0.len() implies #[trigger] slot_covered(nb, gd, i) by {
                let o = dirs0[i] as int;
                assert(bks0[o].covers(i as nat, gd));
                if o == winner || o == loser {
                    lemma_child_covers(merged, w, 0, i as nat, gd);
                    lemma_child_covers(merged, l, 1, i as nat, gd);
                    assert(nb[wn].covers(i as nat, gd));
                } else {
                    let c = if o < loser { o } else { o - 1 };
                    assert(nb[c].covers(i as nat, gd));
                }
            }
            assert forall|c1: int, c2: int, i: nat|
                0 <= c1 < nb.len() && 0 <= c2 < nb.len() && #[trigger] nb[c1].covers(i, gd)
                    && #[trigger] nb[c2].covers(i, gd) implies c1 == c2 by {
                let o1 = if c1 < loser { c1 } else { c1 + 1 };
                let o2 = if c2 < loser { c2 } else { c2 + 1 };
                if c1 == wn {
                    if w.covers(i, gd) { lemma_covers_bound(w, i, gd); } else { lemma_covers_bound(l, i, gd); }
                } else {
                    lemma_covers_bound(bks0[o1], i, gd);
                }
                assert(bks0[winner as int].covers(i, gd) ==> dirs0[i as int] == winner);
                assert(bks0[loser as int].covers(i, gd) ==> dirs0[i as int] == loser);
                assert(c1 != wn ==> bks0[o1].covers(i, gd) && dirs0[i as int] == o1);
                assert(c2 != wn ==> bks0[o2].covers(i, gd) && dirs0[i as int] == o2);
            }
            assert forall|c: int, i: int|
                0 <= c < loser && c < nb.len() && 0 <= i < dirs2.len() && #[trigger] nb[c].covers(i as nat, gd)
                    implies dirs2[i] == c by {
                if c == wn {
                    if l.covers(i as nat, gd) {
                    } else {
                        assert(bks0[winner as int].covers(i as nat, gd));
                    }
                } else {
                    assert(bks0[c].covers(i as nat, gd));
                    assert(dirs0[i] == c);
                    assert(!l.covers(i as nat, gd));
                }
            }
            assert forall|c: int| 0 <= c < nb.len() implies is_digit_seq(#[trigger] nb[c].bits@) && nb[c].ld() <= gd by {
                if c != wn {
                    assert(bucket_ok(bks0[if c < loser { c } else { c + 1 }], gd, m));
                } else {
                    assert(is_digit_seq(merged.bits@)) by {
                        assert forall|i: int| 0 <= i < merged.bits@.len() implies #[trigger] merged.bits@[i] < 2 by {
                            assert(merged.bits@[i] == w.bits@[i]);
                        }
                    }
                }
            }
        }
        self.repoint_from(loser);
        proof {
            let dirs = self.directories@;
            assert(bucket_ok(w, gd, m));
            assert(bucket_ok(l, gd, m));
            // the merged bucket
            assert(merged.keys() == w.keys() + l.keys()) by {
                assert(merged.keys() =~= w.keys() + l.keys());
            }
            assert forall|x: int| 0 <= x < merged.data@.len() implies entry_placed(merged, #[trigger] merged.data@[x]) && entry_recorded(m, merged.data@[x]) && (x < w.data@.len() ==> hash_prefix(key_hash(merged.data@[x].0), w.ld()) == 2 * pval) && (x >= w.data@.len() ==> hash_prefix(key_hash(merged.data@[x].0), w.ld()) == 2 * pval + 1) by {
                let k = merged.data@[x].0;
                if x < w.data@.len() {
                    assert(merged.data@[x] == w.data@[x]);
                    assert(entry_placed(w, w.data@[x]));
                } else {
                    assert(merged.data@[x] == l.data@[x - w.data@.len()]);
                    assert(entry_placed(l, l.data@[x - w.data@.len()]));
                }
                crate::util::lemma_prefix_step(key_hash(k), merged.ld());
            }
            assert(merged.keys().no_duplicates()) by {
                assert forall|x: int, y: int| 0 <= x < merged.keys().len() && 0 <= y < merged.keys().len() && x != y implies merged.keys()[x] != merged.keys()[y] by {
                    assert(merged.keys()[x] == merged.data@[x].0);
                    assert(merged.keys()[y] == merged.data@[y].0);
                    if x < w.data@.len() && y < w.data@.len() {
                        assert(w.keys()[x] == merged.keys()[x]);
                        assert(w.keys()[y] == merged.keys()[y]);
                    } else if x >= w.data@.len() && y >= w.data@.len() {
                        assert(l.keys()[x - w.data@.len()] == merged.keys()[x]);
                        assert(l.keys()[y - w.data@.len()] == merged.keys()[y]);
                    }
                }
            }
            assert forall|c: int| 0 <= c < nb.len() implies bucket_ok(#[trigger] nb[c], gd, m) by {
                if c != wn {
                    assert(bucket_ok(bks0[if c < loser { c } else { c + 1 }], gd, m));
                }
            }
            assert forall|k: i32| #[trigger] m.contains_key(k) implies nb[dirs[slot_of(k, gd) as int] as int].keys().contains(k) by {
                lemma_prefix_bound(key_hash(k), gd);
                let o = dirs0[slot_of(k, gd) as int] as int;
                assert(bks0[o].keys().contains(k));
                let j = choose|j: int| 0 <= j < bks0[o].keys().len() && bks0[o].keys()[j] == k;
                assert(bucket_ok(bks0[o], gd, m));
                assert(entry_placed(bks0[o], bks0[o].data@[j]));
                if o == winner {
                    assert(merged.data@[j] == w.data@[j]);
                    assert(merged.keys()[j] == k);
                    lemma_entry_located(dirs, nb, gd, wn, k);
                } else if o == loser {
                    assert(merged.data@[w.data@.len() + j] == l.data@[j]);
                    assert(merged.keys()[w.data@.len() + j] == k);
                    lemma_entry_located(dirs, nb, gd, wn, k);
                } else {
                    let c = if o < loser { o } else { o - 1 };
                    assert(nb[c] == bks0[o]);
                    lemma_entry_located(dirs, nb, gd, c, k);
                }
            }
            self.lemma_view_is(m);
            assert forall|k: i32| #[trigger] old(self).bucket_of(k) == bucket_idx implies self.depth_of(k) + 1
                == bk.ld() && self.bucket_sizes()[self.bucket_of(k)] == sb.data@.len() + bk.data@.len() by {
                lemma_prefix_bound(key_hash(k), gd);
                let sl = slot_of(k, gd) as int;
                assert(bks0[dirs0[sl] as int].covers(sl as nat, gd));
                lemma_child_covers(merged, w, 0, sl as nat, gd);
                lemma_child_covers(merged, l, 1, sl as nat, gd);
                assert(nb[wn].covers(sl as nat, gd));
                assert(dirs[sl] == wn);
            }
        }
    }

    /// Removes `key` from the map and returns its value, if it was there.
    /// The bucket it left may then merge with its sibling.
    pub fn remove(&mut self, key: &i32) -> (r: Option<V>)
        requires
            old(self).wf(),
        ensures
            final(self).wf(),
            final(self)@ == old(self)@.remove(*key),
            final(self)@.dom().finite(),
            r == (if old(self)@.contains_key(*key) {
                Some(old(self)@[*key])
            } else {
                None
            }),
            final(self).depth() == old(self).depth(),
            final(self).slot_count() == old(self).slot_count(),
            !old(self)@.contains_key(*key) ==> *final(self) == *old(self),
            old(self)@.contains_key(*key) && old(self).merges_on_remove(*key) ==> {
                &&& final(self).bucket_sizes().len() + 1 == old(self).bucket_sizes().len()
                &&& final(self).depth_of(*key) + 1 == old(self).depth_of(*key)
                &&& final(self).bucket_sizes()[final(self).bucket_of(*key)] < BUCKET_CAP
            },
            old(self)@.contains_key(*key) && !old(self).merges_on_remove(*key) ==> {
                &&& final(self).bucket_sizes().len() == old(self).bucket_sizes().len()
                &&& final(self).directory() == old(self).directory()
                &&& final(self).bucket_bits() == old(self).bucket_bits()
            },
    {
        let ghost m = self@;
        let ghost gd = self.global_depth as nat;
        let bucket_idx = self.locate_bucket(key);
        let ghost bk = self.buckets@[bucket_idx as int];
        proof {
            assert(bucket_ok(bk, gd, m));
        }
        let key_idx = match self.buckets[bucket_idx].position(key) {
            Some(j) => j,
            None => {
                proof {
                    assert(!m.contains_key(*key));
                    assert(m.remove(*key) =~= m);
                }
                return None;
            },
        };
        let ghost bks_pre = self.buckets@;
        let (_, value) = self.buckets[bucket_idx].data.remove(key_idx);
        proof {
            assert(entry_recorded(m, bk.data@[key_idx as int]));
            assert(m.dom().contains(*key));
        }
        self.len = self.len - 1;
        self.keys = Ghost(self.keys@.remove(*key));
        proof {
            let m2 = m.remove(*key);
            assert(self.keys@ =~= m2.dom());
            let bks = self.buckets@;
            let dirs = self.directories@;
            let nb = bks[bucket_idx as int];
            assert(nb.data@ == bk.data@.remove(key_idx as int));
            assert(bks == bks_pre.update(bucket_idx as int, nb));
            lemma_total_update(bks_pre, bucket_idx as int, nb);
            assert(nb.keys() == bk.keys().remove(key_idx as int)) by {
                assert(nb.keys() =~= bk.keys().remove(key_idx as int));
            }
            assert forall|x: int| 0 <= x < nb.data@.len() implies #[trigger] nb.data@[x] == bk.data@[if x < key_idx { x } else { x + 1 }] by {}
            assert forall|c: int| 0 <= c < bks.len() implies bucket_ok(#[trigger] bks[c], gd, m2) by {
                let ob = old_bucket(bks, c, bucket_idx as int, bk);
                assert(bucket_ok(ob, gd, m));
                assert forall|x: int| 0 <= x < bks[c].data@.len() implies entry_recorded(m2, #[trigger] bks[c].data@[x]) && entry_placed(bks[c], bks[c].data@[x]) by {
                    let ox = if c == bucket_idx && x >= key_idx { x + 1 } else { x };
                    assert(bks[c].data@[x] == ob.data@[ox]);
                    assert(entry_recorded(m, ob.data@[ox]));
                    assert(entry_placed(ob, ob.data@[ox]));
                    if ob.data@[ox].0 == *key {
                        if c == bucket_idx {
                            assert(bk.keys()[ox] == bk.keys()[key_idx as int]);
                        } else {
                            lemma_entry_located(dirs, old(self).buckets@, gd, c, *key);
                        }
                    }
                }
                if c == bucket_idx {
                    assert(nb.keys().no_duplicates()) by {
                        assert forall|x: int, y: int| 0 <= x < nb.keys().len() && 0 <= y < nb.keys().len() && x != y implies nb.keys()[x] != nb.keys()[y] by {
                            let ox = if x < key_idx { x } else { x + 1 };
                            let oy = if y < key_idx { y } else { y + 1 };
                            assert(nb.keys()[x] == bk.keys()[ox]);
                            assert(nb.keys()[y] == bk.keys()[oy]);
                        }
                    }
                }
            }
            assert forall|i: int| 0 <= i < dirs.len() implies #[trigger] dirs[i] < bks.len()
                && bks[dirs[i] as int].covers(i as nat, gd) by {
                assert(old_bucket(bks, dirs[i] as int, bucket_idx as int, bk).covers(i as nat, gd));
            }
            assert forall|c: int, i: int|
                0 <= c < bks.len() && 0 <= i < dirs.len() && #[trigger] bks[c].covers(i as nat, gd)
                    implies dirs[i] == c by {
                assert(old_bucket(bks, c, bucket_idx as int, bk).covers(i as nat, gd));
            }
            assert forall|k: i32| #[trigger] m2.contains_key(k) implies bks[dirs[slot_of(k, gd) as int] as int].keys().contains(k) by {
                lemma_prefix_bound(key_hash(k), gd);
                let o = dirs[slot_of(k, gd) as int] as int;
                assert(m.contains_key(k));
                if o == bucket_idx {
                    let j = choose|j: int| 0 <= j < bk.keys().len() && bk.keys()[j] == k;
                    let nj = if j < key_idx { j } else { j - 1 };
                    assert(j != key_idx);
                    assert(nb.keys()[nj] == k);
                }
            }
            self.lemma_view_is(m2);
            old(self).lemma_sibling_differs(bucket_idx as int);
            assert(self.sibling_slot_of(bucket_idx as int) == old(self).sibling_slot_of(bucket_idx as int));
            assert(self.sibling_of(bucket_idx as int) == old(self).sibling_of(bucket_idx as int));
            assert(self.mergeable(bucket_idx as int) == old(self).merges_on_remove(*key));
            assert(self.bucket_of(*key) == bucket_idx);
            assert(self.bucket_bits() =~= old(self).bucket_bits()) by {
                assert forall|c: int| 0 <= c < bks.len() implies #[trigger] bks[c].bits == bks_pre[c].bits by {}
            }
        }
        let ghost mid = *self;
        self.coalesce(bucket_idx);
        proof {
            assert(mid.bucket_of(*key) == bucket_idx);
            if mid.mergeable(bucket_idx as int) {
                assert(self.depth_of(*key) + 1 == mid.buckets@[bucket_idx as int].ld());
            }
        }
        Some(value)
    }

    /// Returns the number of leading hash bits that address the directory.
    pub fn global_depth(&self) -> (r: usize)
        requires
            self.wf(),
        ensures
            r == self.depth(),
    {
        self.global_depth
    }

    /// Returns the number of buckets.
    pub fn bucket_count(&self) -> (r: usize)
        requires
            self.wf(),
        ensures
            r == self.bucket_sizes().len(),
    {
        self.buckets.len()
    }

    /// Returns the local depth of the bucket where `key` belongs.
    pub fn local_depth_of(&self, key: &i32) -> (r: usize)
        requires
            self.wf(),
        ensures
            r == self.depth_of(*key),
            1 <= r <= self.depth(),
    {
        let idx = self.locate_bucket(key);
        proof {
            assert(bucket_ok(self.buckets@[idx as int], self.global_depth as nat, self@));
        }
        self.buckets[idx].local_depth()
    }

    /// `after` is `before` with the value of entry `j` of bucket `b` replaced.
    spec fn value_replaced(before: HashMap<V>, after: HashMap<V>, b: int, j: int) -> bool {
        &&& after.len == before.len
        &&& after.global_depth == before.global_depth
        &&& after.directories == before.directories
        &&& after.keys == before.keys
        &&& after.buckets@ == before.buckets@.update(
            b,
            Bucket { bits: before.buckets@[b].bits, data: after.buckets@[b].data },
        )
        &&& after.buckets@[b].data@ == before.buckets@[b].data@.update(
            j,
            (before.buckets@[b].data@[j].0, after.buckets@[b].data@[j].1),
        )
    }

    /// Replacing the value of one stored entry keeps the map well formed and
    /// changes the view under that key alone.
    proof fn lemma_value_replaced(before: HashMap<V>, b: int, j: int)
        requires
            before.wf(),
            0 <= b < before.buckets@.len(),
            0 <= j < before.buckets@[b].data@.len(),
        ensures
            forall|after: HashMap<V>|
                #![trigger after.wf()]
                #![trigger after.view()]
                #![trigger after.depth()]
                #![trigger after.directory()]
                #![trigger after.bucket_bits()]
                #![trigger after.bucket_sizes()]
                Self::value_replaced(before, after, b, j) ==> after.wf() && after@
                    == before@.insert(before.buckets@[b].data@[j].0, after.buckets@[b].data@[j].1)
                    && after.depth() == before.depth() && after.directory() == before.directory()
                    && after.bucket_bits() == before.bucket_bits()
                    && after.bucket_sizes() == before.bucket_sizes(),
    {
        assert forall|after: HashMap<V>| Self::value_replaced(before, after, b, j) implies #[trigger] after.wf() && after@
            == before@.insert(before.buckets@[b].data@[j].0, after.buckets@[b].data@[j].1)
            && after.depth() == before.depth() && after.directory() == before.directory()
            && after.bucket_bits() == before.bucket_bits()
            && after.bucket_sizes() == before.bucket_sizes() by {
            Self::lemma_value_replaced_one(before, after, b, j);
        }
    }

    /// The single-state form of `lemma_value_replaced`.
    proof fn lemma_value_replaced_one(before: HashMap<V>, after: HashMap<V>, b: int, j: int)
        requires
            before.wf(),
            0 <= b < before.buckets@.len(),
            0 <= j < before.buckets@[b].data@.len(),
            Self::value_replaced(before, after, b, j),
        ensures
            after.wf(),
            after@ == before@.insert(before.buckets@[b].data@[j].0, after.buckets@[b].data@[j].1),
            after.bucket_bits() == before.bucket_bits(),
            after.bucket_sizes() == before.bucket_sizes(),
    {
        let v = after.buckets@[b].data@[j].1;
        let gd = before.global_depth as nat;
        let m = before@;
        let bk = before.buckets@[b];
        let key = bk.data@[j].0;
        let m2 = m.insert(key, v);
        let bks = after.buckets@;
        let nb = bks[b];
        assert(bucket_ok(bk, gd, m));
        assert(entry_recorded(m, bk.data@[j]));
        assert(nb.keys() =~= bk.keys());
        assert(m2.dom() =~= m.dom());
        assert forall|c: int| 0 <= c < bks.len() implies bucket_ok(#[trigger] bks[c], gd, m2) by {
            let ob = before.buckets@[c];
            assert(bucket_ok(ob, gd, m));
            if c == b {
                assert forall|x: int| 0 <= x < nb.data@.len() implies entry_recorded(m2, #[trigger] nb.data@[x]) && entry_placed(nb, nb.data@[x]) by {
                    assert(entry_placed(bk, bk.data@[x]));
                    if x != j {
                        assert(bk.keys()[x] != bk.keys()[j]);
                        assert(entry_recorded(m, bk.data@[x]));
                    }
                }
            } else {
                assert forall|x: int| 0 <= x < ob.data@.len() implies entry_recorded(m2, #[trigger] ob.data@[x]) by {
                    assert(entry_recorded(m, ob.data@[x]));
                    if ob.data@[x].0 == key {
                        assert(entry_placed(ob, ob.data@[x]));
                        assert(entry_placed(bk, bk.data@[j]));
                        lemma_entry_located(before.directories@, before.buckets@, gd, c, key);
                        lemma_entry_located(before.directories@, before.buckets@, gd, b, key);
                    }
                }
            }
        }
        assert forall|i: int| 0 <= i < after.directories@.len() implies #[trigger] after.directories@[i] < bks.len()
            && bks[after.directories@[i] as int].covers(i as nat, gd) by {
            assert(before.buckets@[after.directories@[i] as int].covers(i as nat, gd));
        }
        assert forall|c: int, i: int|
            0 <= c < bks.len() && 0 <= i < after.directories@.len() && #[trigger] bks[c].covers(i as nat, gd)
                implies after.directories@[i] == c by {
            assert(before.buckets@[c].covers(i as nat, gd));
        }
        assert forall|k: i32| #[trigger] m2.contains_key(k) implies bks[after.directories@[slot_of(k, gd) as int] as int].keys().contains(k) by {
            lemma_prefix_bound(key_hash(k), gd);
        }
        lemma_total_update(before.buckets@, b, nb);
        after.lemma_view_is(m2);
        assert(after.bucket_bits() =~= before.bucket_bits());
        assert(after.bucket_sizes() =~= before.bucket_sizes());
    }

    /// Returns a mutable reference to the value stored under `key`; what is
    /// written through it becomes the value under `key`.
    pub fn get_mut(&mut self, key: &i32) -> (r: Option<&mut V>)
        requires
            old(self).wf(),
        ensures
            final(self).wf(),
            match r {
                Some(v) => old(self)@.contains_key(*key) && *v == old(self)@[*key] && final(self)@
                    == old(self)@.insert(*key, *final(v)),
                None => !old(self)@.contains_key(*key) && *final(self) == *old(self),
            },
            final(self).depth() == old(self).depth(),
            final(self).directory() == old(self).directory(),
            final(self).bucket_bits() == old(self).bucket_bits(),
            final(self).bucket_sizes() == old(self).bucket_sizes(),
    {
        let ghost m = self@;
        let ghost gd = self.global_depth as nat;
        let bucket_idx = self.locate_bucket(key);
        let ghost bk = self.buckets@[bucket_idx as int];
        proof {
            assert(bucket_ok(bk, gd, m));
        }
        match self.buckets[bucket_idx].position(key) {
            Some(j) => {
                proof {
                    assert(entry_recorded(m, bk.data@[j as int]));
                }
                proof {
                    HashMap::lemma_value_replaced(*self, bucket_idx as int, j as int);
                }
                let slot = &mut self.buckets[bucket_idx].data[j].1;
                Some(slot)
            },
            None => {
                proof {
                    if m.contains_key(*key) {
                        assert(bk.keys().contains(*key));
                    }
                }
                None
            },
        }
    }

    /// Returns the index of the bucket where `key` belongs.
    fn locate_bucket(&self, key: &i32) -> (r: usize)
        requires
            self.layout_ok(),
        ensures
            slot_of(*key, self.global_depth as nat) < self.directories@.len(),
            r == self.directories@[slot_of(*key, self.global_depth as nat) as int],
            r < self.buckets@.len(),
    {
        let hash_res = hash_key(key);
        let first_bits = get_first_n_bits(self.global_depth, hash_res);
        proof {
            lemma_prefix_bound(hash_res, self.global_depth as nat);
        }
        let directory_idx = bits_to_value(first_bits.as_slice());
        self.directories[directory_idx]
    }

    /// Returns a reference to the value stored under `key`.
    pub fn get(&self, key: &i32) -> (r: Option<&V>)
        requires
            self.wf(),
        ensures
            match r {
                Some(v) => self@.contains_key(*key) && *v == self@[*key],
                None => !self@.contains_key(*key),
            },
    {
        let bucket_idx = self.locate_bucket(key);
        let bucket = &self.buckets[bucket_idx];
        let ghost gd = self.global_depth as nat;
        assert(bucket_ok(*bucket, gd, self@));
        let mut i: usize = 0;
        while i < bucket.data.len()
            invariant
                i <= bucket.data@.len(),
                bucket_ok(*bucket, gd, self@),
                forall|j: int| 0 <= j < i ==> bucket.data@[j].0 != *key,
            decreases bucket.data@.len() - i,
        {
            if bucket.data[i].0 == *key {
                assert(entry_recorded(self@, bucket.data@[i as int]));
                return Some(&bucket.data[i].1);
            }
            i += 1;
        }
        proof {
            if self@.contains_key(*key) {
                assert(bucket.keys().contains(*key));
                let j = choose|j: int| 0 <= j < bucket.keys().len() && bucket.keys()[j] == *key;
                assert(bucket.data@[j].0 == *key);
            }
        }
        None
    }
}

impl<V> Default for HashMap<V> {
    fn default() -> (r: Self)
        ensures
            r.wf(),
            r@ == Map::<i32, V>::empty(),
    {
        Self::new()
    }
}

/// No entry is lost or counted twice: in every well-formed map, which every
/// sequence of inserts and removes leaves behind, `len()` equals the number
/// of entries summed over all buckets.
pub proof fn lemma_len_counts_every_entry<V>(map: HashMap<V>)
    requires
        map.wf(),
    ensures
        map@.len() == map.stored_entries(),
{
}

/// Between operations no bucket holds more than `BUCKET_CAP` entries.
pub proof fn lemma_buckets_within_capacity<V>(map: HashMap<V>)
    requires
        map.wf(),
    ensures
        forall|i: int| 0 <= i < map.bucket_sizes().len() ==> #[trigger] map.bucket_sizes()[i] <= BUCKET_CAP,
{
    assert forall|i: int| 0 <= i < map.bucket_sizes().len() implies #[trigger] map.bucket_sizes()[i] <= BUCKET_CAP by {
        assert(bucket_ok(map.buckets@[i], map.global_depth as nat, map@));
    }
}

/// Round trip: after `insert(k, v)` the map holds `v` under `k`, so `get(k)`
/// returns `v`; after `remove(k)` it holds nothing under `k`, so `get(k)`
/// returns `None`.
pub proof fn lemma_round_trip<V>(m: Map<i32, V>, k: i32, v: V)
    ensures
        m.insert(k, v).contains_key(k),
        m.insert(k, v)[k] == v,
        !m.remove(k).contains_key(k),
{
}

/// Inserting under a key that is present replaces its value and leaves the
/// number of entries as it was (`insert` returns the value it replaced).
pub proof fn lemma_update_keeps_len<V>(m: Map<i32, V>, k: i32, v: V)
    requires
        m.dom().finite(),
        m.contains_key(k),
    ensures
        m.insert(k, v).len() == m.len(),
        m.insert(k, v)[k] == v,
{
    assert(m.insert(k, v).dom() =~= m.dom());
}

} // verus!
