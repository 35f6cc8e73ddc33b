use vstd::arithmetic::div_mod::{
    lemma_div_denominator, lemma_fundamental_div_mod, lemma_multiply_divide_lt,
};
use vstd::arithmetic::power2::{lemma2_to64, lemma_pow2_adds, lemma_pow2_pos, pow2};
use vstd::bits::lemma_u64_shr_is_div;
use vstd::prelude::*;

verus! {

/// The `i`-th bit of `num`, counting from the most significant one.
pub open spec fn msb_bit(num: u64, i: nat) -> nat {
    (num as nat / pow2((63 - i) as nat)) % 2
}

/// The number formed by the first `n` bits of `num`, most significant first.
pub open spec fn hash_prefix(num: u64, n: nat) -> nat {
    num as nat / pow2((64 - n) as nat)
}

/// A bit sequence read as an unsigned number, most significant bit first.
pub open spec fn bits_value(bits: Seq<usize>) -> nat
    decreases bits.len(),
{
    if bits.len() == 0 {
        0
    } else {
        2 * bits_value(bits.drop_last()) + bits.last() as nat
    }
}

/// Every element is a binary digit.
pub open spec fn is_bit_seq(bits: Seq<usize>) -> bool {
    forall|i: int| 0 <= i < bits.len() ==> #[trigger] bits[i] < 2
}

/// `k` bits read as a number stay below `2^k`.
pub proof fn lemma_bits_value_bound(bits: Seq<usize>)
    requires
        is_bit_seq(bits),
    ensures
        bits_value(bits) < pow2(bits.len()),
    decreases bits.len(),
{
    lemma_pow2_pos(bits.len());
    if bits.len() > 0 {
        let init = bits.drop_last();
        assert(is_bit_seq(init)) by {
            assert forall|i: int| 0 <= i < init.len() implies #[trigger] init[i] < 2 by {
                assert(init[i] == bits[i]);
            }
        }
        lemma_bits_value_bound(init);
        assert(bits.last() == bits[bits.len() - 1]);
        lemma_pow2_adds((bits.len() - 1) as nat, 1);
        lemma2_to64();
    }
}

/// A shorter prefix of a hash is the longer one with its low bits dropped.
pub proof fn lemma_prefix_shorter(num: u64, a: nat, b: nat)
    requires
        a <= b <= 64,
    ensures
        hash_prefix(num, a) == hash_prefix(num, b) / pow2((b - a) as nat),
{
    lemma_pow2_pos((64 - b) as nat);
    lemma_pow2_pos((b - a) as nat);
    lemma_div_denominator(num as int, pow2((64 - b) as nat) as int, pow2((b - a) as nat) as int);
    lemma_pow2_adds((64 - b) as nat, (b - a) as nat);
}

/// The first `n` bits of a 64-bit number form a number below `2^n`.
pub proof fn lemma_prefix_bound(num: u64, n: nat)
    requires
        n <= 64,
    ensures
        hash_prefix(num, n) < pow2(n),
{
    lemma_pow2_pos((64 - n) as nat);
    lemma_pow2_adds((64 - n) as nat, n);
    lemma2_to64();
    lemma_multiply_divide_lt(num as int, pow2((64 - n) as nat) as int, pow2(n) as int);
}

/// One more bit of prefix appends that bit to the number.
pub proof fn lemma_prefix_step(num: u64, n: nat)
    requires
        n < 64,
    ensures
        hash_prefix(num, n + 1) == 2 * hash_prefix(num, n) + msb_bit(num, n),
{
    let a = hash_prefix(num, n + 1);
    lemma_prefix_shorter(num, n, n + 1);
    lemma2_to64();
    lemma_fundamental_div_mod(a as int, 2);
}

/// Returns the first `n` bits of `num`, most significant first.
pub fn get_first_n_bits(n: usize, num: u64) -> (r: Vec<usize>)
    requires
        n <= 64,
    ensures
        r@.len() == n,
        forall|i: int| 0 <= i < n ==> r@[i] == msb_bit(num, i as nat),
        is_bit_seq(r@),
        bits_value(r@) == hash_prefix(num, n as nat),
{
    let mut ret: Vec<usize> = Vec::with_capacity(n);
    let mut i: usize = 0;
    proof {
        lemma2_to64();
        assert(hash_prefix(num, 0) == 0) by {
            lemma_multiply_divide_lt(num as int, pow2(64) as int, 1);
        }
    }
    while i < n
        invariant
            i <= n <= 64,
            ret@.len() == i,
            forall|j: int| 0 <= j < i ==> ret@[j] == msb_bit(num, j as nat),
            is_bit_seq(ret@),
            bits_value(ret@) == hash_prefix(num, i as nat),
        decreases n - i,
    {
        let shift: u64 = (63 - i) as u64;
        let bit: usize = ((num >> shift) % 2) as usize;
        proof {
            lemma_u64_shr_is_div(num, shift);
            lemma_prefix_step(num, i as nat);
        }
        let ghost prev = ret@;
        ret.push(bit);
        proof {
            assert(ret@.drop_last() == prev);
        }
        i += 1;
    }
    ret
}

/// Reads `bits` as an unsigned number, most significant bit first.
pub fn bits_to_value(bits: &[usize]) -> (r: usize)
    requires
        is_bit_seq(bits@),
        bits@.len() <= usize::BITS,
    ensures
        r == bits_value(bits@),
{
    let mut acc: usize = 0;
    let mut i: usize = 0;
    proof {
        assert(bits@.subrange(0, 0).len() == 0);
    }
    while i < bits.len()
        invariant
            i <= bits@.len() <= usize::BITS,
            is_bit_seq(bits@),
            acc == bits_value(bits@.subrange(0, i as int)),
        decreases bits@.len() - i,
    {
        let ghost prefix = bits@.subrange(0, i as int);
        proof {
            assert(is_bit_seq(prefix)) by {
                assert forall|j: int| 0 <= j < prefix.len() implies #[trigger] prefix[j] < 2 by {
                    assert(prefix[j] == bits@[j]);
                }
            }
            lemma_bits_value_bound(prefix);
            lemma_pow2_adds(i as nat, 1);
            lemma2_to64();
            vstd::arithmetic::power2::lemma2_to64_rest();
            assert(bits[i as int] < 2);
            if i + 1 < usize::BITS {
                vstd::bits::lemma_usize_pow2_no_overflow((i + 1) as nat);
            }
            assert(bits@.subrange(0, i + 1).drop_last() == prefix);
        }
        acc = 2 * acc + bits[i];
        i += 1;
    }
    proof {
        assert(bits@.subrange(0, bits@.len() as int) == bits@);
    }
    acc
}

} // verus!
