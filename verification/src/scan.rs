//! The scans.

use crate::gear;
use crate::gear::Table;
use vstd::prelude::*;

verus! {

/// The number of bytes that the four-lane scan takes at a time.
const CHUNK_SIZE: usize = 1024;

/// The number of bytes of a chunk that one lane scans.
const STRIP_SIZE: usize = CHUNK_SIZE / 4;

/// Rolls one byte into the hash, given the byte's word in the gear table.
#[inline]
fn roll(hash: u64, word: u64) -> (next: u64)
    ensures
        next == gear::gear_step(hash, word),
{
    proof {
        gear::lemma_shift_add_is_step(hash, word);
    }
    (hash << 1).wrapping_add(word)
}

/// Scans `buf` byte by byte.
///
/// Advances `hash` over `buf` and returns `Some(n)`, where `n` is the number of
/// bytes consumed up to and including the first byte at which
/// `hash & mask == 0`, or `None` if there is no such byte.
pub fn scalar_next_match(hash: &mut u64, table: &Table, buf: &[u8], mask: u64) -> (found: Option<
    usize,
>)
    ensures
        gear::scan_outcome(*old(hash), table@, buf@, mask, found, *final(hash)),
        found matches Some(n) ==> 1 <= n <= buf@.len() && *final(hash) & mask == 0,
        found is None && buf@.len() > 0 ==> *final(hash) & mask != 0,
        buf@.len() == 0 ==> found is None && *final(hash) == *old(hash),
{
    let mut i: usize = 0;
    while i < buf.len()
        invariant
            i <= buf.len(),
            *hash == gear::hash_after(*old(hash), table@, buf@, i as int),
            gear::no_match_in(*old(hash), table@, buf@, mask, 0, i as int),
        decreases buf.len() - i,
    {
        *hash = roll(*hash, table[buf[i] as usize]);
        i = i + 1;
        if *hash & mask == 0 {
            return Some(i);
        }
    }
    proof {
        gear::lemma_outcome_bits(*old(hash), table@, buf@, mask, None, *hash);
    }
    None
}

/// Rolls one byte into each of four independent hashes.
#[inline]
fn roll_lanes(lanes: [u64; 4], words: [u64; 4]) -> (next: [u64; 4])
    ensures
        forall|k: int|
            0 <= k < 4 ==> #[trigger] next@[k] == gear::gear_step(lanes@[k], words@[k]),
{
    [
        roll(lanes[0], words[0]),
        roll(lanes[1], words[1]),
        roll(lanes[2], words[2]),
        roll(lanes[3], words[3]),
    ]
}

/// The hashes at the starts of the four strips of `chunk`, when the hash at the
/// start of the chunk is `seed`.
///
/// Only the first strip needs the seed: the others start from zero, one window
/// before the strip.
fn warm_lanes(seed: u64, table: &Table, chunk: &[u8]) -> (lanes: [u64; 4])
    requires
        chunk@.len() == CHUNK_SIZE,
    ensures
        forall|k: int|
            0 <= k < 4 ==> #[trigger] lanes@[k] == gear::hash_after(
                seed,
                table@,
                chunk@,
                k * STRIP_SIZE,
            ),
{
    let ghost w1 = chunk@.subrange(STRIP_SIZE - gear::WINDOW, STRIP_SIZE as int);
    let ghost w2 = chunk@.subrange(2 * STRIP_SIZE - gear::WINDOW, 2 * STRIP_SIZE);
    let ghost w3 = chunk@.subrange(3 * STRIP_SIZE - gear::WINDOW, 3 * STRIP_SIZE);
    let mut lanes: [u64; 4] = [0, 0, 0, 0];
    let mut i: usize = 0;
    while i < gear::WINDOW
        invariant
            i <= gear::WINDOW,
            chunk@.len() == CHUNK_SIZE,
            w1 == chunk@.subrange(STRIP_SIZE - gear::WINDOW, STRIP_SIZE as int),
            w2 == chunk@.subrange(2 * STRIP_SIZE - gear::WINDOW, 2 * STRIP_SIZE),
            w3 == chunk@.subrange(3 * STRIP_SIZE - gear::WINDOW, 3 * STRIP_SIZE),
            lanes@[1] == gear::hash_after(0, table@, w1, i as int),
            lanes@[2] == gear::hash_after(0, table@, w2, i as int),
            lanes@[3] == gear::hash_after(0, table@, w3, i as int),
        decreases gear::WINDOW - i,
    {
        let b1 = chunk[STRIP_SIZE - gear::WINDOW + i];
        let b2 = chunk[STRIP_SIZE * 2 - gear::WINDOW + i];
        let b3 = chunk[STRIP_SIZE * 3 - gear::WINDOW + i];
        lanes = roll_lanes(
            lanes,
            [0, table[b1 as usize], table[b2 as usize], table[b3 as usize]],
        );
        i = i + 1;
    }
    proof {
        gear::lemma_window(seed, table@, chunk@, STRIP_SIZE as int);
        gear::lemma_window(seed, table@, chunk@, 2 * STRIP_SIZE);
        gear::lemma_window(seed, table@, chunk@, 3 * STRIP_SIZE);
    }
    lanes[0] = seed;
    lanes
}

/// The earlier of a match kept so far, if any, and a new one at `off`.
#[inline]
fn earlier(kept: Option<(usize, u64)>, off: usize, hash: u64) -> (first: Option<(usize, u64)>)
    ensures
        first == match kept {
            Some(k) if k.0 <= off => Some(k),
            _ => Some((off, hash)),
        },
{
    match kept {
        Some(k) if k.0 <= off => Some(k),
        _ => Some((off, hash)),
    }
}

/// Scans one whole chunk, its four strips side by side.
///
/// A match in the first strip is the answer at once. One in the second strip is
/// the answer if the rest of the first strip holds none. The earliest match of
/// the last two strips is kept until both are done.
#[verifier::spinoff_prover]
#[verifier::rlimit(40)]
fn next_match_in_chunk(hash: &mut u64, table: &Table, chunk: &[u8], mask: u64) -> (found: Option<
    usize,
>)
    requires
        chunk@.len() == CHUNK_SIZE,
    ensures
        gear::scan_outcome(*old(hash), table@, chunk@, mask, found, *final(hash)),
{
    let ghost seed = *hash;
    let mut lanes: [u64; 4] = warm_lanes(*hash, table, chunk);
    let mut kept: Option<(usize, u64)> = None;
    let mut i: usize = 0;
    while i < STRIP_SIZE
        invariant
            i <= STRIP_SIZE,
            chunk@.len() == CHUNK_SIZE,
            seed == *old(hash),
            forall|k: int|
                0 <= k < 4 ==> #[trigger] lanes@[k] == gear::hash_after(
                    seed,
                    table@,
                    chunk@,
                    k * STRIP_SIZE + i,
                ),
            gear::no_match_in(seed, table@, chunk@, mask, 0, i as int),
            gear::no_match_in(seed, table@, chunk@, mask, STRIP_SIZE as int, STRIP_SIZE + i),
            match kept {
                None => {
                    &&& gear::no_match_in(
                        seed,
                        table@,
                        chunk@,
                        mask,
                        2 * STRIP_SIZE,
                        2 * STRIP_SIZE + i,
                    )
                    &&& gear::no_match_in(
                        seed,
                        table@,
                        chunk@,
                        mask,
                        3 * STRIP_SIZE,
                        3 * STRIP_SIZE + i,
                    )
                },
                Some((off, kept_hash)) => {
                    &&& 2 * STRIP_SIZE <= off < CHUNK_SIZE
                    &&& gear::is_match(seed, table@, chunk@, mask, off + 1)
                    &&& kept_hash == gear::hash_after(seed, table@, chunk@, off + 1)
                    &&& forall|n: int|
                        (2 * STRIP_SIZE < n <= 2 * STRIP_SIZE + i || 3 * STRIP_SIZE < n <= 3
                            * STRIP_SIZE + i) && n <= off ==> !#[trigger] gear::is_match(
                            seed,
                            table@,
                            chunk@,
                            mask,
                            n,
                        )
                },
            },
        decreases STRIP_SIZE - i,
    {
        let b0 = chunk[i];
        let b1 = chunk[STRIP_SIZE + i];
        let b2 = chunk[STRIP_SIZE * 2 + i];
        let b3 = chunk[STRIP_SIZE * 3 + i];
        lanes = roll_lanes(
            lanes,
            [table[b0 as usize], table[b1 as usize], table[b2 as usize], table[b3 as usize]],
        );

        if lanes[0] & mask == 0 {
            *hash = lanes[0];
            return Some(i + 1);
        }
        if lanes[1] & mask == 0 {
            let rest = &chunk[i + 1..STRIP_SIZE];
            *hash = lanes[0];
            let in_rest = scalar_next_match(hash, table, rest, mask);
            proof {
                gear::lemma_outcome_of_part(
                    seed,
                    table@,
                    chunk@,
                    mask,
                    i + 1,
                    STRIP_SIZE as int,
                    in_rest,
                    *hash,
                );
            }
            match in_rest {
                Some(off) => {
                    return Some(i + 1 + off);
                },
                None => {
                    *hash = lanes[1];
                    return Some(STRIP_SIZE + i + 1);
                },
            }
        }
        if lanes[2] & mask == 0 {
            let off = STRIP_SIZE * 2 + i;
            kept = earlier(kept, off, lanes[2]);
        }
        if lanes[3] & mask == 0 {
            let off = STRIP_SIZE * 3 + i;
            kept = earlier(kept, off, lanes[3]);
        }
        i = i + 1;
    }
    match kept {
        Some((off, kept_hash)) => {
            *hash = kept_hash;
            Some(off + 1)
        },
        None => {
            *hash = lanes[3];
            None
        },
    }
}

/// Scans `buf` in four lanes, chunk by chunk; a last chunk that is not whole is
/// scanned byte by byte.
///
/// The arguments and the result are those of [`scalar_next_match`]. Each lane
/// holds the hash of its own strip of a chunk, so that one step of all four fits
/// a 256-bit register.
pub fn avx2_next_match(hash: &mut u64, table: &Table, buf: &[u8], mask: u64) -> (found: Option<
    usize,
>)
    ensures
        gear::scan_outcome(*old(hash), table@, buf@, mask, found, *final(hash)),
        found matches Some(n) ==> 1 <= n <= buf@.len() && *final(hash) & mask == 0,
        found is None && buf@.len() > 0 ==> *final(hash) & mask != 0,
        buf@.len() == 0 ==> found is None && *final(hash) == *old(hash),
{
    let ghost seed = *hash;
    let mut done: usize = 0;
    while done < buf.len()
        invariant
            done <= buf.len(),
            seed == *old(hash),
            *hash == gear::hash_after(seed, table@, buf@, done as int),
            gear::no_match_in(seed, table@, buf@, mask, 0, done as int),
        decreases buf.len() - done,
    {
        let whole = buf.len() - done >= CHUNK_SIZE;
        let end = if whole {
            done + CHUNK_SIZE
        } else {
            buf.len()
        };
        let chunk = &buf[done..end];
        let found = if whole {
            next_match_in_chunk(hash, table, chunk, mask)
        } else {
            scalar_next_match(hash, table, chunk, mask)
        };
        proof {
            gear::lemma_outcome_of_part(
                seed,
                table@,
                buf@,
                mask,
                done as int,
                end as int,
                found,
                *hash,
            );
        }
        if let Some(off) = found {
            return Some(done + off);
        }
        done = end;
    }
    proof {
        gear::lemma_outcome_bits(seed, table@, buf@, mask, None, *hash);
    }
    None
}

/// Scans `buf` in four lanes where `avx2` says that the machine has the
/// registers for it, else byte by byte. The outcome is the same either way.
#[inline]
pub fn next_match(hash: &mut u64, table: &Table, buf: &[u8], mask: u64, avx2: bool) -> (found:
    Option<usize>)
    ensures
        gear::scan_outcome(*old(hash), table@, buf@, mask, found, *final(hash)),
        found matches Some(n) ==> 1 <= n <= buf@.len() && *final(hash) & mask == 0,
        found is None && buf@.len() > 0 ==> *final(hash) & mask != 0,
        buf@.len() == 0 ==> found is None && *final(hash) == *old(hash),
{
    if avx2 {
        avx2_next_match(hash, table, buf, mask)
    } else {
        scalar_next_match(hash, table, buf, mask)
    }
}

} // verus!
