use core::ops::RangeInclusive;
use vstd::arithmetic::div_mod::{
    lemma_div_multiples_vanish_fancy, lemma_fundamental_div_mod, lemma_mod_bound,
};
use vstd::arithmetic::mul::{lemma_mul_inequality, lemma_mul_is_commutative};
use vstd::arithmetic::power2::{lemma2_to64, lemma_pow2_adds, lemma_pow2_pos, pow2};
use vstd::bits::{lemma_usize_pow2_no_overflow, lemma_usize_shl_is_mul};
use vstd::prelude::*;

verus! {

/// Number of entries a bucket holds before it has to split.
pub const BUCKET_CAP: usize = 3;

/// Relies on `RangeInclusive::start`: it returns the lower bound the range was built with.
pub assume_specification<Idx>[ RangeInclusive::<Idx>::start ](r: &RangeInclusive<Idx>) -> (s: &Idx)
    ensures
        *s == r@.start,
;

/// Relies on `RangeInclusive::end`: it returns the upper bound the range was built with.
pub assume_specification<Idx>[ RangeInclusive::<Idx>::end ](r: &RangeInclusive<Idx>) -> (e: &Idx)
    ensures
        *e == r@.end,
;

/// A sequence of binary digits read as a number, most significant first.
pub open spec fn digits_value(bits: Seq<u8>) -> nat
    decreases bits.len(),
{
    if bits.len() == 0 {
        0
    } else {
        2 * digits_value(bits.drop_last()) + bits.last() as nat
    }
}

/// Every element is 0 or 1.
pub open spec fn is_digit_seq(bits: Seq<u8>) -> bool {
    forall|i: int| 0 <= i < bits.len() ==> #[trigger] bits[i] < 2
}

/// `k` binary digits read as a number stay below `2^k`.
pub proof fn lemma_digits_value_bound(bits: Seq<u8>)
    requires
        is_digit_seq(bits),
    ensures
        digits_value(bits) < pow2(bits.len()),
    decreases bits.len(),
{
    lemma_pow2_pos(bits.len());
    if bits.len() > 0 {
        let init = bits.drop_last();
        assert(is_digit_seq(init)) by {
            assert forall|i: int| 0 <= i < init.len() implies #[trigger] init[i] < 2 by {
                assert(init[i] == bits[i]);
            }
        }
        lemma_digits_value_bound(init);
        assert(bits.last() == bits[bits.len() - 1]);
        lemma_pow2_adds((bits.len() - 1) as nat, 1);
        lemma2_to64();
    }
}

/// Two digit sequences of one length with one value are the same sequence.
pub proof fn lemma_digits_value_injective(a: Seq<u8>, b: Seq<u8>)
    requires
        is_digit_seq(a),
        is_digit_seq(b),
        a.len() == b.len(),
        digits_value(a) == digits_value(b),
    ensures
        a == b,
    decreases a.len(),
{
    if a.len() > 0 {
        let a0 = a.drop_last();
        let b0 = b.drop_last();
        assert(a.last() == a[a.len() - 1]);
        assert(b.last() == b[b.len() - 1]);
        assert(is_digit_seq(a0)) by {
            assert forall|i: int| 0 <= i < a0.len() implies #[trigger] a0[i] < 2 by {
                assert(a0[i] == a[i]);
            }
        }
        assert(is_digit_seq(b0)) by {
            assert forall|i: int| 0 <= i < b0.len() implies #[trigger] b0[i] < 2 by {
                assert(b0[i] == b[i]);
            }
        }
        lemma_digits_value_injective(a0, b0);
        assert(a =~= a0.push(a.last()));
        assert(b =~= b0.push(b.last()));
    } else {
        assert(a =~= b);
    }
}

/// The keys of a sequence of entries, in order.
pub open spec fn keys_of<V>(entries: Seq<(i32, V)>) -> Seq<i32> {
    entries.map_values(|e: (i32, V)| e.0)
}

/// The directory slots of a bucket: one index, or an inclusive range of them.
#[derive(Debug, PartialEq, Eq)]
pub enum BucketValue {
    /// The bucket's local depth equals the global depth: it owns one slot.
    EqualTo(usize),
    /// The bucket's local depth is below the global depth: it owns this range.
    Range(RangeInclusive<usize>),
}

impl BucketValue {
    /// The first slot.
    pub open spec fn first(&self) -> nat {
        match self {
            BucketValue::EqualTo(v) => *v as nat,
            BucketValue::Range(r) => r@.start as nat,
        }
    }

    /// The last slot.
    pub open spec fn last(&self) -> nat {
        match self {
            BucketValue::EqualTo(v) => *v as nat,
            BucketValue::Range(r) => r@.end as nat,
        }
    }

    /// Returns the upper half of a range: the slots that go to the new
    /// sibling when the bucket splits.
    pub fn last_half_range(&self) -> (r: Option<RangeInclusive<usize>>)
        requires
            self is Range ==> self.first() < self.last() && (self.last() - self.first() + 1) % 2
                == 0,
        ensures
            self is EqualTo ==> r is None,
            self is Range ==> r is Some && r->0@.start == self.first() + (self.last()
                - self.first() + 1) / 2 && r->0@.end == self.last(),
    {
        match self {
            BucketValue::Range(val) => {
                let start = *val.start();
                let end = *val.end();
                let half_len = (end - start) / 2 + 1;
                Some(RangeInclusive::new(start + half_len, end))
            },
            _ => None,
        }
    }
}

/// A bucket: the entries whose hashes begin with its bit pattern.
#[derive(Debug)]
pub struct Bucket<V> {
    /// The bits that identify the bucket, most significant first; their
    /// number is the bucket's local depth.
    pub bits: Vec<u8>,
    /// The key/value pairs held here.
    pub data: Vec<(i32, V)>,
}

impl<V> Bucket<V> {
    /// Local depth: the number of identifying bits.
    pub open spec fn ld(&self) -> nat {
        self.bits@.len()
    }

    /// The identifying bits read as a number.
    pub open spec fn val(&self) -> nat {
        digits_value(self.bits@)
    }

    /// Directory slot `i` of a directory of depth `gd` addresses this bucket.
    pub open spec fn covers(&self, i: nat, gd: nat) -> bool {
        self.ld() <= gd && i / pow2((gd - self.ld()) as nat) == self.val()
    }

    /// The keys held, in storage order.
    pub open spec fn keys(&self) -> Seq<i32> {
        keys_of(self.data@)
    }

    /// Creates an empty bucket identified by `bits`.
    pub fn new(bits: &[u8]) -> (r: Self)
        requires
            is_digit_seq(bits@),
        ensures
            r.bits@ == bits@,
            r.data@.len() == 0,
    {
        let mut own: Vec<u8> = Vec::with_capacity(bits.len());
        let mut i: usize = 0;
        while i < bits.len()
            invariant
                i <= bits@.len(),
                own@ == bits@.subrange(0, i as int),
            decreases bits@.len() - i,
        {
            own.push(bits[i]);
            i += 1;
        }
        proof {
            assert(bits@.subrange(0, bits@.len() as int) == bits@);
        }
        Bucket { bits: own, data: Vec::with_capacity(BUCKET_CAP) }
    }

    /// Returns `true` if an entry with `key` is held here.
    pub fn contains(&self, key: &i32) -> (r: bool)
        ensures
            r == self.keys().contains(*key),
    {
        let mut i: usize = 0;
        while i < self.data.len()
            invariant
                i <= self.data@.len(),
                forall|j: int| 0 <= j < i ==> self.data@[j].0 != *key,
            decreases self.data@.len() - i,
        {
            if self.data[i].0 == *key {
                assert(self.keys()[i as int] == *key);
                return true;
            }
            i += 1;
        }
        proof {
            if self.keys().contains(*key) {
                let j = choose|j: int| 0 <= j < self.keys().len() && self.keys()[j] == *key;
                assert(self.data@[j].0 == *key);
            }
        }
        false
    }

    /// Returns the position of the entry with `key`, if there is one.
    pub fn position(&self, key: &i32) -> (r: Option<usize>)
        ensures
            match r {
                Some(j) => j < self.data@.len() && self.data@[j as int].0 == *key,
                None => !self.keys().contains(*key),
            },
    {
        let mut i: usize = 0;
        while i < self.data.len()
            invariant
                i <= self.data@.len(),
                forall|j: int| 0 <= j < i ==> self.data@[j].0 != *key,
            decreases self.data@.len() - i,
        {
            if self.data[i].0 == *key {
                return Some(i);
            }
            i += 1;
        }
        proof {
            if self.keys().contains(*key) {
                let j = choose|j: int| 0 <= j < self.keys().len() && self.keys()[j] == *key;
                assert(self.data@[j].0 == *key);
            }
        }
        None
    }

    /// Returns the local depth.
    pub fn local_depth(&self) -> (r: usize)
        ensures
            r == self.ld(),
    {
        self.bits.len()
    }

    /// Returns `true` if the bucket holds `BUCKET_CAP` entries.
    pub fn is_full(&self) -> (r: bool)
        ensures
            r == (self.data@.len() == BUCKET_CAP),
    {
        self.data.len() == BUCKET_CAP
    }

    /// The directory slots that address this bucket when the directory has
    /// depth `global_depth`: its bits followed by every pattern of the
    /// remaining low bits.
    pub fn value(&self, global_depth: usize) -> (r: BucketValue)
        requires
            is_digit_seq(self.bits@),
            self.ld() <= global_depth < usize::BITS,
        ensures
            (r is EqualTo) == (self.ld() == global_depth),
            r.first() == self.val() * pow2((global_depth - self.ld()) as nat),
            r.last() + 1 == r.first() + pow2((global_depth - self.ld()) as nat),
    {
        let local_depth = self.bits.len();
        let mut acc: usize = 0;
        let mut i: usize = 0;
        proof {
            lemma2_to64();
            vstd::arithmetic::power2::lemma2_to64_rest();
            assert(self.bits@.subrange(0, 0).len() == 0);
        }
        while i < local_depth
            invariant
                i <= local_depth == self.bits@.len() < usize::BITS,
                is_digit_seq(self.bits@),
                acc == digits_value(self.bits@.subrange(0, i as int)),
            decreases local_depth - i,
        {
            let ghost prefix = self.bits@.subrange(0, i as int);
            proof {
                assert(is_digit_seq(prefix)) by {
                    assert forall|j: int| 0 <= j < prefix.len() implies #[trigger] prefix[j]
                        < 2 by {
                        assert(prefix[j] == self.bits@[j]);
                    }
                }
                lemma_digits_value_bound(prefix);
                lemma_pow2_adds(i as nat, 1);
                lemma2_to64();
                lemma_usize_pow2_no_overflow((i + 1) as nat);
                assert(self.bits@[i as int] < 2);
                assert(self.bits@.subrange(0, i + 1).drop_last() == prefix);
            }
            acc = 2 * acc + self.bits[i] as usize;
            i += 1;
        }
        proof {
            assert(self.bits@.subrange(0, local_depth as int) == self.bits@);
        }
        let shift: usize = global_depth - local_depth;
        proof {
            lemma_usize_pow2_no_overflow(shift as nat);
            lemma_usize_pow2_no_overflow(global_depth as nat);
            lemma_usize_shl_is_mul(1, shift);
            lemma_digits_value_bound(self.bits@);
            lemma_pow2_adds(local_depth as nat, shift as nat);
            lemma_mul_inequality(acc as int + 1, pow2(local_depth as nat) as int, pow2(shift as nat) as int);
            let p = pow2(shift as nat) as int;
            assert((acc as int + 1) * p == acc as int * p + p) by (nonlinear_arith);
        }
        let span: usize = 1usize << shift;
        assert(span == pow2(shift as nat));
        let start: usize = acc * span;
        if local_depth == global_depth {
            proof {
                assert(pow2(0) == 1);
            }
            BucketValue::EqualTo(start)
        } else {
            BucketValue::Range(RangeInclusive::new(start, start + (span - 1)))
        }
    }
}

/// Every slot listed by `value(gd)` begins with the bucket's bits, and every
/// slot that begins with them is listed: slot `i` at depth `gd` lies in
/// `b.value(gd)` exactly when its first `b.ld()` bits, read as a number,
/// equal the bucket's bits read as a number.
pub proof fn lemma_value_addresses_bucket<V>(b: &Bucket<V>, gd: nat, v: BucketValue, i: nat)
    requires
        is_digit_seq(b.bits@),
        b.ld() <= gd,
        v.first() == b.val() * pow2((gd - b.ld()) as nat),
        v.last() + 1 == v.first() + pow2((gd - b.ld()) as nat),
    ensures
        (v.first() <= i <= v.last()) == (i / pow2((gd - b.ld()) as nat) == b.val()),
{
    let p = pow2((gd - b.ld()) as nat);
    lemma_pow2_pos((gd - b.ld()) as nat);
    lemma_fundamental_div_mod(i as int, p as int);
    lemma_mod_bound(i as int, p as int);
    lemma_mul_is_commutative(b.val() as int, p as int);
    if v.first() <= i <= v.last() {
        lemma_div_multiples_vanish_fancy(b.val() as int, (i - v.first()) as int, p as int);
    }
}

} // verus!
