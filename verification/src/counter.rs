//! Arithmetic of the ring's counters.
//!
//! A counter counts without bound; the word that stores it holds the count
//! modulo the number of values of a word. A capacity is a power of two, so a
//! slot index is the stored word masked with the capacity less one.

use vstd::prelude::*;
use vstd::arithmetic::div_mod::*;
use vstd::arithmetic::power::*;
use vstd::arithmetic::power2::*;
use vstd::bits::*;
use vstd::layout::unsigned_int_max_values;

verus! {

/// The largest capacity a ring may have.
pub const MAX_CAPACITY: usize = 0x100000;

/// A capacity is a power of two between 1 and `MAX_CAPACITY`.
pub open spec fn valid_capacity(n: usize) -> bool {
    is_pow2(n as int) && n <= MAX_CAPACITY
}

/// How many values a counter word has.
pub open spec fn word_range() -> nat {
    usize::MAX as nat + 1
}

/// The word that stores the count `c`.
#[verifier::opaque]
pub open spec fn wrapped(c: nat) -> usize {
    (c % word_range()) as usize
}

/// How far the tail may run ahead of a lagging counter: half the word range.
pub open spec fn max_lag() -> nat {
    word_range() / 2
}

/// The capacities: every power of two from 1 to `MAX_CAPACITY`.
pub proof fn lemma_capacities()
    ensures
        valid_capacity(1),
        valid_capacity(2),
        valid_capacity(4),
        valid_capacity(8),
        valid_capacity(16),
        valid_capacity(32),
        valid_capacity(64),
        valid_capacity(128),
        valid_capacity(256),
        valid_capacity(512),
        valid_capacity(1024),
        valid_capacity(2048),
        valid_capacity(4096),
        valid_capacity(8192),
        valid_capacity(0x4000),
        valid_capacity(0x8000),
        valid_capacity(0x1_0000),
        valid_capacity(0x2_0000),
        valid_capacity(0x4_0000),
        valid_capacity(0x8_0000),
        valid_capacity(0x10_0000),
        !valid_capacity(0),
        !valid_capacity(3),
        !valid_capacity(0x20_0000),
{
    reveal_with_fuel(is_pow2, 22);
}

/// A capacity is two to a power of at most twenty.
pub proof fn lemma_capacity_exponent(n: usize) -> (k: nat)
    requires
        valid_capacity(n),
    ensures
        k <= 20,
        n == pow2(k),
        n >= 1,
{
    is_pow2_equiv(n as int);
    let k = choose|i: nat| pow(2, i) == n as int;
    lemma2_to64();
    if k > 20 {
        lemma_pow2_strictly_increases(20, k);
    }
    lemma_pow2_pos(k);
    k
}

/// The word range is a multiple of every capacity.
pub proof fn lemma_capacity_divides_range(n: usize) -> (q: nat)
    requires
        valid_capacity(n),
    ensures
        q > 0,
        word_range() == n * q,
{
    let k = lemma_capacity_exponent(n);
    unsigned_int_max_values();
    let bits = usize::BITS as nat;
    assert(bits == 32 || bits == 64);
    let rest = (bits - k) as nat;
    lemma_pow2_adds(k, rest);
    lemma_pow2_pos(rest);
    pow2(rest)
}

/// Masking the stored word gives the count modulo the capacity.
pub proof fn lemma_slot(c: nat, n: usize)
    requires
        valid_capacity(n),
    ensures
        (wrapped(c) & ((n - 1) as usize)) == slot(c, n as nat),
        0 <= slot(c, n as nat) < n,
{
    reveal(wrapped);
    reveal(slot);
    let k = lemma_capacity_exponent(n);
    let q = lemma_capacity_divides_range(n);
    let w = wrapped(c);
    lemma_usize_low_bits_mask_is_mod(w, k);
    assert(low_bits_mask(k) == n - 1);
    assert((w & ((n - 1) as usize)) == w % n);
    lemma_mod_mod(c as int, n as int, q as int);
    assert((c as int % (n as int * q as int)) % (n as int) == c as int % (n as int));
}

/// A count below the word range is stored as it is.
pub proof fn lemma_wrapped_small(c: nat)
    requires
        c <= usize::MAX,
    ensures
        wrapped(c) == c,
{
    reveal(wrapped);
    lemma_small_mod(c, word_range());
}

/// Adding to the stored word, with wrap-around, stores the sum of the counts.
pub proof fn lemma_wrapped_add(c: nat, k: usize)
    ensures
        vstd::wrapping::usize_specs::wrapping_add(wrapped(c), k) == wrapped((c + k) as nat),
{
    reveal(wrapped);
    let r = word_range() as int;
    let w = wrapped(c) as int;
    lemma_add_mod_noop(c as int, k as int, r);
    lemma_small_mod(k as nat, r as nat);
    assert((w + k) % r == (c + k) as int % r);
    if w + k >= r {
        lemma_mod_multiples_vanish(-1, w + k, r);
        lemma_small_mod((w + k - r) as nat, r as nat);
    } else {
        lemma_small_mod((w + k) as nat, r as nat);
    }
}

/// Subtracting stored words, with wrap-around, gives the difference of the
/// counts modulo the word range.
pub proof fn lemma_wrapped_sub(a: nat, b: nat)
    ensures
        vstd::wrapping::usize_specs::wrapping_sub(wrapped(a), wrapped(b)) as int == (a - b)
            % (word_range() as int),
{
    reveal(wrapped);
    let r = word_range() as int;
    let wa = wrapped(a) as int;
    let wb = wrapped(b) as int;
    lemma_sub_mod_noop(a as int, b as int, r);
    assert((wa - wb) % r == (a - b) % r);
    if wa - wb < 0 {
        lemma_mod_multiples_vanish(1, wa - wb, r);
        lemma_small_mod((wa - wb + r) as nat, r as nat);
    } else {
        lemma_small_mod((wa - wb) as nat, r as nat);
    }
}

/// Where the first count is ahead of the second by less than the word range,
/// subtracting the stored words gives the distance.
pub proof fn lemma_wrapped_distance(a: nat, b: nat)
    requires
        b <= a,
        a - b < word_range(),
    ensures
        vstd::wrapping::usize_specs::wrapping_sub(wrapped(a), wrapped(b)) == a - b,
{
    lemma_wrapped_sub(a, b);
    lemma_small_mod((a - b) as nat, word_range());
}

/// Where the first count is behind the second by no more than the largest
/// lag, subtracting the stored words gives at least the largest lag: more
/// than any capacity.
pub proof fn lemma_wrapped_behind(a: nat, b: nat)
    requires
        a < b,
        b - a <= max_lag(),
    ensures
        vstd::wrapping::usize_specs::wrapping_sub(wrapped(a), wrapped(b)) >= max_lag(),
        vstd::wrapping::usize_specs::wrapping_sub(wrapped(a), wrapped(b)) > MAX_CAPACITY,
{
    let r = word_range() as int;
    lemma_wrapped_sub(a, b);
    unsigned_int_max_values();
    lemma2_to64();
    lemma_mod_multiples_vanish(1, a - b, r);
    lemma_small_mod((a - b + r) as nat, r as nat);
}

/// The slot of a ring of `n` slots in which the item with count `c` lives.
#[verifier::opaque]
pub open spec fn slot(c: nat, n: nat) -> int {
    (c % n) as int
}

/// Counts less than a capacity apart live in different slots.
pub proof fn lemma_distinct_slots(a: nat, b: nat, n: nat)
    requires
        n > 0,
        a < b,
        b - a < n,
    ensures
        slot(a, n) != slot(b, n),
        0 <= slot(a, n) < n,
        0 <= slot(b, n) < n,
{
    reveal(slot);
    if slot(a, n) == slot(b, n) {
        lemma_fundamental_div_mod(a as int, n as int);
        lemma_fundamental_div_mod(b as int, n as int);
        let qa = a as int / n as int;
        let qb = b as int / n as int;
        assert(b - a == n * qb - n * qa);
        assert(n * qb - n * qa == n * (qb - qa)) by (nonlinear_arith);
        assert(qb - qa >= 1) by (nonlinear_arith)
            requires
                n * (qb - qa) > 0,
                n > 0,
        ;
        assert(n * (qb - qa) >= n) by (nonlinear_arith)
            requires
                qb - qa >= 1,
                n > 0,
        ;
    }
    lemma_mod_bound(a as int, n as int);
    lemma_mod_bound(b as int, n as int);
}

/// A full turn of the ring comes back to the same slot.
pub proof fn lemma_slot_period(c: nat, n: nat)
    requires
        n > 0,
    ensures
        slot(c + n, n) == slot(c, n),
        0 <= slot(c, n) < n,
{
    reveal(slot);
    lemma_mod_add_multiples_vanish(c as int, n as int);
    lemma_mod_bound(c as int, n as int);
}

/// A capacity leaves room below the largest lag, which is half the word
/// range.
pub proof fn lemma_lag_room(n: usize)
    requires
        valid_capacity(n),
    ensures
        1 <= n <= MAX_CAPACITY,
        MAX_CAPACITY < max_lag(),
        2 * max_lag() == word_range(),
{
    let k = lemma_capacity_exponent(n);
    unsigned_int_max_values();
    lemma2_to64();
    let bits = usize::BITS as nat;
    assert(bits == 32 || bits == 64);
}

/// The first count is ahead of the second, told from the stored words.
pub(crate) fn is_ahead(a: usize, b: usize, Ghost(ca): Ghost<nat>, Ghost(cb): Ghost<nat>) -> (ahead: bool)
    requires
        a == wrapped(ca),
        b == wrapped(cb),
        ca - cb < max_lag(),
        cb - ca <= max_lag(),
    ensures
        ahead == (ca > cb),
{
    let d = a.wrapping_sub(b);
    proof {
        lemma_wrapped_sub(ca, cb);
        unsigned_int_max_values();
        lemma2_to64();
        let r = word_range() as int;
        if ca >= cb {
            lemma_small_mod((ca - cb) as nat, r as nat);
        } else {
            lemma_mod_multiples_vanish(1, ca - cb, r);
            lemma_small_mod((ca - cb + r) as nat, r as nat);
        }
    }
    d != 0 && d <= usize::MAX / 2
}

} // verus!
