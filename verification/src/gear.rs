//! The gear hash as mathematics, and the facts about it that the scans rest on.

use vstd::arithmetic::div_mod::{
    lemma_fundamental_div_mod, lemma_mod_multiples_basic, lemma_mod_multiples_vanish,
};
use vstd::arithmetic::mul::lemma_mul_is_associative;
use vstd::arithmetic::power2::{
    lemma2_to64, lemma2_to64_rest, lemma_pow2_adds, lemma_pow2_unfold, pow2,
};
use vstd::prelude::*;

verus! {

/// A gear table: one pseudo-random word for each byte value.
pub type Table = [u64; 256];

/// The number of bytes after which a byte has left the hash.
pub const WINDOW: usize = 64;

/// One more than the largest hash: hashes are integers modulo this number.
pub open spec fn modulus() -> int {
    0x1_0000_0000_0000_0000
}

/// The hash that follows `hash` when the byte rolled in has the word `word` in
/// the gear table: twice the hash plus the word, modulo 2^64.
pub open spec fn gear_step(hash: u64, word: u64) -> u64 {
    ((2 * hash + word) % modulus()) as u64
}

/// The hash after the first `n` bytes of `buf`, starting from `seed`.
pub open spec fn hash_after(seed: u64, table: Seq<u64>, buf: Seq<u8>, n: int) -> u64
    decreases n,
{
    if n <= 0 {
        seed
    } else {
        gear_step(hash_after(seed, table, buf, n - 1), table[buf[n - 1] as int])
    }
}

/// Whether the hash after the first `n` bytes of `buf` has no bit of `mask` set.
pub open spec fn is_match(seed: u64, table: Seq<u64>, buf: Seq<u8>, mask: u64, n: int) -> bool {
    hash_after(seed, table, buf, n) & mask == 0
}

/// Whether none of the bytes of `buf` after the first `from` and up to the first
/// `to` is a match.
pub open spec fn no_match_in(
    seed: u64,
    table: Seq<u64>,
    buf: Seq<u8>,
    mask: u64,
    from: int,
    to: int,
) -> bool {
    forall|n: int| from < n <= to ==> !#[trigger] is_match(seed, table, buf, mask, n)
}

/// What a scan of `buf` from `seed` returns as `found` and leaves as `hash`.
///
/// `Some(n)`: the `n`-th byte is the first match, and `hash` is the hash after
/// it. `None`: no byte is a match, and `hash` is the hash after all of `buf`.
pub open spec fn scan_outcome(
    seed: u64,
    table: Seq<u64>,
    buf: Seq<u8>,
    mask: u64,
    found: Option<usize>,
    hash: u64,
) -> bool {
    match found {
        Some(n) => {
            &&& 1 <= n <= buf.len()
            &&& is_match(seed, table, buf, mask, n as int)
            &&& no_match_in(seed, table, buf, mask, 0, n - 1)
            &&& hash == hash_after(seed, table, buf, n as int)
        },
        None => {
            &&& no_match_in(seed, table, buf, mask, 0, buf.len() as int)
            &&& hash == hash_after(seed, table, buf, buf.len() as int)
        },
    }
}

/// The place at which a scan that rolls two bytes at a time stops, and the value
/// that it holds there.
///
/// The scan starts at the place `at` with `hash`. For each pair of bytes it
/// shifts by two and adds the first byte's word in `doubled`, tests that under
/// the doubled mask, then adds the second byte's word in `table` and tests under
/// the mask. A place is the number of bytes before the byte last added. A last
/// byte without a partner is not looked at.
pub open spec fn two_byte_scan(
    hash: u64,
    table: Seq<u64>,
    doubled: Seq<u64>,
    buf: Seq<u8>,
    mask: u64,
    at: int,
) -> (Option<int>, u64)
    decreases buf.len() - at,
{
    if at + 1 >= buf.len() {
        (None, hash)
    } else {
        let half = (hash << 2u64).wrapping_add(doubled[buf[at] as int]);
        let next = half.wrapping_add(table[buf[at + 1] as int]);
        if half & (mask << 1u64) == 0 {
            (Some(at), half)
        } else if next & mask == 0 {
            (Some(at + 1), next)
        } else {
            two_byte_scan(next, table, doubled, buf, mask, at + 2)
        }
    }
}

/// The hash that a scan leaves shows whether it stopped at a match: it has no bit
/// of the mask at one, and some bit of the mask where bytes ran out without one.
pub proof fn lemma_outcome_bits(
    seed: u64,
    table: Seq<u64>,
    buf: Seq<u8>,
    mask: u64,
    found: Option<usize>,
    hash: u64,
)
    requires
        scan_outcome(seed, table, buf, mask, found, hash),
    ensures
        found matches Some(n) ==> 1 <= n <= buf.len() && hash & mask == 0,
        found is None && buf.len() > 0 ==> hash & mask != 0,
        buf.len() == 0 ==> found is None && hash == seed,
{
    if found is None && buf.len() > 0 {
        assert(!is_match(seed, table, buf, mask, buf.len() as int));
    }
}

/// A left shift by one and a wrapping addition make one step of the hash.
pub proof fn lemma_shift_add_is_step(hash: u64, word: u64)
    ensures
        (hash << 1u64).wrapping_add(word) == gear_step(hash, word),
{
    assert((hash << 1u64) == (2 * hash) % 0x1_0000_0000_0000_0000) by (bit_vector);
}

/// The hash after `n` bytes of a part of a buffer that starts at `from`, when
/// the scan of the part starts from the hash at that place, is the hash of the
/// whole at `from + n`.
pub proof fn lemma_hash_after_part(
    seed: u64,
    table: Seq<u64>,
    buf: Seq<u8>,
    from: int,
    to: int,
    n: int,
)
    requires
        0 <= from <= to <= buf.len(),
        0 <= n <= to - from,
    ensures
        hash_after(hash_after(seed, table, buf, from), table, buf.subrange(from, to), n)
            == hash_after(seed, table, buf, from + n),
    decreases n,
{
    if n > 0 {
        lemma_hash_after_part(seed, table, buf, from, to, n - 1);
    }
}

/// A scan of a part of `buf`, from the hash at the start of the part, finds the
/// first match of `buf` in that part.
pub proof fn lemma_outcome_of_part(
    seed: u64,
    table: Seq<u64>,
    buf: Seq<u8>,
    mask: u64,
    from: int,
    to: int,
    found: Option<usize>,
    hash: u64,
)
    requires
        0 <= from <= to <= buf.len(),
        scan_outcome(
            hash_after(seed, table, buf, from),
            table,
            buf.subrange(from, to),
            mask,
            found,
            hash,
        ),
    ensures
        match found {
            Some(n) => {
                &&& 1 <= n <= to - from
                &&& is_match(seed, table, buf, mask, from + n)
                &&& no_match_in(seed, table, buf, mask, from, from + n - 1)
                &&& hash == hash_after(seed, table, buf, from + n)
            },
            None => {
                &&& no_match_in(seed, table, buf, mask, from, to)
                &&& hash == hash_after(seed, table, buf, to)
            },
        },
{
    let part = buf.subrange(from, to);
    let start = hash_after(seed, table, buf, from);
    let scanned = match found {
        Some(n) => n - 1,
        None => to - from,
    };
    assert forall|n: int| from < n <= from + scanned implies !#[trigger] is_match(
        seed,
        table,
        buf,
        mask,
        n,
    ) by {
        lemma_hash_after_part(seed, table, buf, from, to, n - from);
        assert(!is_match(start, table, part, mask, n - from));
    }
    match found {
        Some(n) => lemma_hash_after_part(seed, table, buf, from, to, n as int),
        None => lemma_hash_after_part(seed, table, buf, from, to, to - from),
    }
}

/// The hash depends only on the bytes that it has rolled over.
pub proof fn lemma_hash_after_prefix(seed: u64, table: Seq<u64>, a: Seq<u8>, b: Seq<u8>, n: int)
    requires
        n <= a.len(),
        n <= b.len(),
        forall|i: int| 0 <= i < n ==> a[i] == b[i],
    ensures
        hash_after(seed, table, a, n) == hash_after(seed, table, b, n),
    decreases n,
{
    if n > 0 {
        lemma_hash_after_prefix(seed, table, a, b, n - 1);
    }
}

/// A summand of the hash doubles with each step, whatever else is in the hash.
proof fn lemma_step_adds(summand: int, rest: u64, word: u64)
    ensures
        (2 * ((summand + rest) % modulus()) + word) % modulus() == (2 * summand + gear_step(
            rest,
            word,
        )) % modulus(),
{
    let m = modulus();
    let whole = summand + rest;
    lemma_fundamental_div_mod(whole, m);
    lemma_fundamental_div_mod(2 * rest + word, m);
    lemma_mod_multiples_vanish(2 * (whole / m), 2 * (whole % m) + word, m);
    lemma_mod_multiples_vanish((2 * rest + word) / m, 2 * summand + gear_step(rest, word), m);
}

/// The seed enters the hash after `n` bytes as a summand, shifted by `n` bits.
pub proof fn lemma_hash_after_linear(seed: u64, table: Seq<u64>, buf: Seq<u8>, n: nat)
    ensures
        hash_after(seed, table, buf, n as int) == (seed * pow2(n) + hash_after(
            0,
            table,
            buf,
            n as int,
        )) % modulus(),
    decreases n,
{
    if n == 0 {
        lemma2_to64();
        assert(seed * pow2(n) == seed) by (nonlinear_arith)
            requires
                pow2(n) == 1,
        ;
    } else {
        let m = (n - 1) as nat;
        lemma_hash_after_linear(seed, table, buf, m);
        lemma_pow2_unfold(n);
        let p = pow2(m) as int;
        assert(seed * pow2(n) == 2 * (seed * p)) by (nonlinear_arith)
            requires
                pow2(n) == 2 * p,
        ;
        lemma_step_adds(seed * p, hash_after(0, table, buf, m as int), table[buf[n - 1] as int]);
    }
}

/// After at least `WINDOW` bytes the seed has been shifted out of the hash.
pub proof fn lemma_seed_leaves(seed: u64, table: Seq<u64>, buf: Seq<u8>, n: nat)
    requires
        n >= WINDOW,
    ensures
        hash_after(seed, table, buf, n as int) == hash_after(0, table, buf, n as int),
{
    let q = (n - WINDOW) as nat;
    let pow_q = pow2(q) as int;
    lemma_hash_after_linear(seed, table, buf, n);
    lemma_pow2_adds(q, 64);
    lemma2_to64_rest();
    lemma_mul_is_associative(seed as int, pow_q, modulus());
    lemma_mod_multiples_basic(seed * pow_q, modulus());
}

/// The hash at a place of `buf` with `WINDOW` bytes before it is the hash of
/// those bytes alone, started from zero.
pub proof fn lemma_window(seed: u64, table: Seq<u64>, buf: Seq<u8>, at: int)
    requires
        WINDOW <= at <= buf.len(),
    ensures
        hash_after(0, table, buf.subrange(at - WINDOW, at), WINDOW as int)
            == hash_after(seed, table, buf, at),
{
    let from = at - WINDOW;
    lemma_hash_after_part(seed, table, buf, from, at, WINDOW as int);
    lemma_seed_leaves(
        hash_after(seed, table, buf, from),
        table,
        buf.subrange(from, at),
        WINDOW as nat,
    );
}

} // verus!
