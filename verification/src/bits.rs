//! Powers of two on machine integers.

use vstd::arithmetic::div_mod::*;
use vstd::arithmetic::power2::*;
use vstd::prelude::*;

verus! {

/// The exponent of the largest power of two that is at most `n`; zero for `n <= 1`.
pub open spec fn log2(n: nat) -> nat
    decreases n,
{
    if n <= 1 {
        0
    } else {
        1 + log2(n / 2)
    }
}

/// The smallest power of two that is at least `n`.
pub open spec fn next_pow2(n: nat) -> nat
    decreases n,
{
    if n <= 1 {
        1
    } else {
        2 * next_pow2((n - n / 2) as nat)
    }
}

pub proof fn lemma_log2_pow2(k: nat)
    ensures
        log2(pow2(k)) == k,
        is_pow2(pow2(k) as int),
    decreases k,
{
    lemma_pow2(k);
    is_pow2_equiv(pow2(k) as int);
    assert(is_pow2_exists(pow2(k) as int));
    if k == 0 {
        lemma2_to64();
    } else {
        lemma_log2_pow2((k - 1) as nat);
        lemma_pow2_unfold(k);
        lemma_pow2_pos((k - 1) as nat);
    }
}

pub proof fn lemma_pow2_log2(n: nat)
    requires
        is_pow2(n as int),
    ensures
        n == pow2(log2(n)),
        n >= 1,
    decreases n,
{
    is_pow2_equiv(n as int);
    let k = choose|k: nat| vstd::arithmetic::power::pow(2, k) == n;
    lemma_pow2(k);
    lemma_log2_pow2(k);
    lemma_pow2_pos(k);
}

pub proof fn lemma_pow2_mono(a: nat, b: nat)
    requires
        a <= b,
    ensures
        1 <= pow2(a) <= pow2(b),
{
    lemma_pow2_pos(a);
    if a < b {
        lemma_pow2_strictly_increases(a, b);
    }
}

/// A power of two that is at most another one divides it.
pub proof fn lemma_pow2_divides(a: nat, b: nat)
    requires
        a <= b,
    ensures
        pow2(b) == pow2((b - a) as nat) * pow2(a),
        pow2(b) % pow2(a) == 0,
        pow2(b) / pow2(a) == pow2((b - a) as nat),
        pow2(a) >= 1,
{
    lemma_pow2_adds((b - a) as nat, a);
    lemma_pow2_pos(a);
    let q = pow2((b - a) as nat) as int;
    let d = pow2(a) as int;
    lemma_mod_multiples_basic(q, d);
    lemma_div_by_multiple(q, d);
}

pub proof fn lemma_usize_bits()
    ensures
        usize::BITS == 32 || usize::BITS == 64,
        usize::MAX + 1 == pow2(usize::BITS as nat),
        forall|k: nat| k < usize::BITS ==> #[trigger] pow2(k) <= usize::MAX,
{
    lemma2_to64();
    lemma2_to64_rest();
    assert forall|k: nat| k < usize::BITS implies #[trigger] pow2(k) <= usize::MAX by {
        lemma_pow2_strictly_increases(k, usize::BITS as nat);
    }
}

pub proof fn lemma_next_pow2(n: nat)
    ensures
        is_pow2(next_pow2(n) as int),
        n <= next_pow2(n),
        n >= 1 ==> next_pow2(n) < 2 * n,
        forall|k: nat| n <= #[trigger] pow2(k) ==> next_pow2(n) <= pow2(k),
    decreases n,
{
    if n <= 1 {
        lemma2_to64();
        lemma_log2_pow2(0);
        assert forall|k: nat| n <= #[trigger] pow2(k) implies next_pow2(n) <= pow2(k) by {
            lemma_pow2_pos(k);
        }
    } else {
        let h = (n - n / 2) as nat;
        lemma_next_pow2(h);
        lemma_pow2_log2(next_pow2(h));
        let e = log2(next_pow2(h));
        lemma_pow2_unfold(e + 1);
        lemma_log2_pow2(e + 1);
        assert(next_pow2(n) == pow2(e + 1));
        assert forall|k: nat| n <= #[trigger] pow2(k) implies next_pow2(n) <= pow2(k) by {
            if k == 0 {
                lemma2_to64();
            } else {
                lemma_pow2_unfold(k);
                assert(h <= pow2((k - 1) as nat));
            }
        }
    }
}

/// A power of two is its own next power of two.
pub proof fn lemma_next_pow2_fixed(n: nat)
    requires
        is_pow2(n as int),
    ensures
        next_pow2(n) == n,
{
    lemma_next_pow2(n);
    lemma_pow2_log2(n);
}

/// `2^k`.
pub fn pow2_usize(k: usize) -> (r: usize)
    requires
        k < usize::BITS,
    ensures
        r == pow2(k as nat),
        r >= 1,
{
    let mut r: usize = 1;
    let mut i: usize = 0;
    proof {
        lemma2_to64();
        lemma_usize_bits();
    }
    while i < k
        invariant
            i <= k < usize::BITS,
            r == pow2(i as nat),
        decreases k - i,
    {
        proof {
            lemma_usize_bits();
            lemma_pow2_unfold((i + 1) as nat);
            assert(pow2((i + 1) as nat) <= usize::MAX);
        }
        r = r * 2;
        i = i + 1;
    }
    proof {
        lemma_pow2_pos(k as nat);
    }
    r
}

/// Whether `n` is a power of two.
pub fn is_power_of_two(n: usize) -> (r: bool)
    ensures
        r == is_pow2(n as int),
{
    proof {
        reveal_with_fuel(is_pow2, 2);
    }
    if n == 0 {
        return false;
    }
    let mut m: usize = n;
    while m % 2 == 0
        invariant
            m > 0,
            is_pow2(n as int) == is_pow2(m as int),
        decreases m,
    {
        proof {
            reveal_with_fuel(is_pow2, 2);
        }
        m = m / 2;
    }
    m == 1
}

/// The exponent of a power of two.
pub fn log2_strict_usize(n: usize) -> (r: usize)
    requires
        is_pow2(n as int),
    ensures
        r == log2(n as nat),
        n == pow2(r as nat),
        r < usize::BITS,
{
    let mut m: usize = n;
    let mut r: usize = 0;
    proof {
        lemma_pow2_log2(n as nat);
        lemma_usize_bits();
        if log2(n as nat) >= usize::BITS {
            lemma_pow2_mono(usize::BITS as nat, log2(n as nat));
        }
    }
    while m > 1
        invariant
            m >= 1,
            log2(n as nat) == r + log2(m as nat),
            log2(n as nat) < usize::BITS,
        decreases m,
    {
        m = m / 2;
        r = r + 1;
    }
    r
}

/// The smallest power of two that is at least `n`.
pub fn next_power_of_two(n: usize) -> (r: usize)
    requires
        next_pow2(n as nat) <= usize::MAX,
    ensures
        r == next_pow2(n as nat),
        r >= 1,
{
    let mut r: usize = 1;
    let ghost mut k: nat = 0;
    proof {
        lemma2_to64();
        lemma_next_pow2(n as nat);
    }
    while r < n
        invariant
            r == pow2(k),
            r <= next_pow2(n as nat) <= usize::MAX,
            is_pow2(next_pow2(n as nat) as int),
        decreases usize::MAX - r,
    {
        proof {
            lemma_next_pow2(n as nat);
            lemma_pow2_log2(next_pow2(n as nat));
            let e = log2(next_pow2(n as nat));
            if e <= k {
                lemma_pow2_mono(e, k);
            }
            lemma_pow2_mono(k + 1, e);
            lemma_pow2_unfold(k + 1);
            lemma_pow2_pos(k);
            assert(r >= 1);
            k = k + 1;
        }
        r = r * 2;
    }
    proof {
        lemma_next_pow2(n as nat);
    }
    r
}

} // verus!
