//! What holds between scans. Every law speaks of `scan_outcome`, which is what
//! each of the scans ensures, or of the hash that it is stated over.

use crate::gear;
use vstd::arithmetic::div_mod::{lemma_add_mod_noop, lemma_mul_mod_noop_right};
use vstd::prelude::*;

verus! {

/// A scan has one outcome: any two scans of the same bytes from the same hash,
/// with the same table and mask, return the same and leave the same hash. So the
/// byte-by-byte scan, the four-lane scan and the choice between them agree.
pub proof fn law_same_outcome(
    seed: u64,
    table: Seq<u64>,
    buf: Seq<u8>,
    mask: u64,
    found_a: Option<usize>,
    hash_a: u64,
    found_b: Option<usize>,
    hash_b: u64,
)
    requires
        gear::scan_outcome(seed, table, buf, mask, found_a, hash_a),
        gear::scan_outcome(seed, table, buf, mask, found_b, hash_b),
    ensures
        found_a == found_b,
        hash_a == hash_b,
{
    if let Some(n) = found_a {
        assert(gear::is_match(seed, table, buf, mask, n as int));
    }
    if let Some(n) = found_b {
        assert(gear::is_match(seed, table, buf, mask, n as int));
    }
}

/// The hash at a match and the mask have no bit in common, whatever the mask:
/// no bit, the top one included, is set in both.
pub proof fn law_match_has_no_mask_bit(
    seed: u64,
    table: Seq<u64>,
    buf: Seq<u8>,
    mask: u64,
    n: usize,
    hash: u64,
    bit: u64,
)
    requires
        gear::scan_outcome(seed, table, buf, mask, Some(n), hash),
        bit < 64,
    ensures
        1 <= n <= buf.len(),
        hash & mask == 0,
        !((hash >> bit) & 1 == 1 && (mask >> bit) & 1 == 1),
{
    assert(!((hash >> bit) & 1 == 1 && (mask >> bit) & 1 == 1)) by (bit_vector)
        requires
            hash & mask == 0,
    ;
}

/// A scan stops neither early nor late. Up to any byte before the match, or up to
/// any byte at all if there is none, the scan finds nothing, and the hash there
/// has a bit of the mask. Up to the match, or further, it finds the match.
pub proof fn law_every_prefix(
    seed: u64,
    table: Seq<u64>,
    buf: Seq<u8>,
    mask: u64,
    found: Option<usize>,
    hash: u64,
    len: int,
    prefix_found: Option<usize>,
    prefix_hash: u64,
)
    requires
        1 <= len <= buf.len(),
        gear::scan_outcome(seed, table, buf, mask, found, hash),
        gear::scan_outcome(seed, table, buf.take(len), mask, prefix_found, prefix_hash),
    ensures
        if found is None || len < found->0 {
            prefix_found is None && prefix_hash & mask != 0
        } else {
            prefix_found == found && prefix_hash == hash && prefix_hash & mask == 0
        },
{
    let prefix = buf.take(len);
    lemma_same_matches(seed, table, prefix, buf, mask);
    gear::lemma_hash_after_prefix(seed, table, prefix, buf, len);
    assert(gear::is_match(seed, table, buf, mask, len) == gear::is_match(
        seed,
        table,
        prefix,
        mask,
        len,
    ));
    if let Some(n) = found {
        assert(gear::is_match(seed, table, buf, mask, n as int));
        if n <= len {
            gear::lemma_hash_after_prefix(seed, table, prefix, buf, n as int);
        }
    }
    if let Some(n) = prefix_found {
        assert(gear::is_match(seed, table, prefix, mask, n as int));
    }
}

/// One byte is shifted and added into the hash, and is a match exactly if the
/// hash then has no bit of the mask. With `law_empty_buffer`, `law_resume` and
/// `law_match_is_final` this fixes the outcome of every scan.
pub proof fn law_one_byte(
    seed: u64,
    table: Seq<u64>,
    byte: u8,
    mask: u64,
    found: Option<usize>,
    hash: u64,
)
    ensures
        gear::scan_outcome(seed, table, seq![byte], mask, found, hash) <==> {
            &&& hash == (seed << 1u64).wrapping_add(table[byte as int])
            &&& found == if hash & mask == 0 {
                Some(1usize)
            } else {
                None
            }
        },
{
    let buf = seq![byte];
    let next = (seed << 1u64).wrapping_add(table[byte as int]);
    reveal_with_fuel(gear::hash_after, 2);
    gear::lemma_shift_add_is_step(seed, table[byte as int]);
    assert(gear::hash_after(seed, table, buf, 1) == next);
    assert(gear::is_match(seed, table, buf, mask, 1) == (next & mask == 0));
}

/// The hash after some bytes is the fold of shifting and adding over them, and a
/// scan stops after the first of the folds over one byte, two bytes and so on
/// that has no bit of the mask.
pub proof fn law_scan_is_fold(
    seed: u64,
    table: Seq<u64>,
    buf: Seq<u8>,
    mask: u64,
    found: Option<usize>,
    hash: u64,
    fold: spec_fn(int) -> u64,
)
    requires
        forall|n: int|
            0 <= n <= buf.len() ==> #[trigger] fold(n) == buf.take(n).fold_left(
                seed,
                |h: u64, b: u8| (h << 1u64).wrapping_add(table[b as int]),
            ),
    ensures
        gear::scan_outcome(seed, table, buf, mask, found, hash) <==> match found {
            Some(n) => {
                &&& 1 <= n <= buf.len()
                &&& hash == fold(n as int)
                &&& hash & mask == 0
                &&& forall|k: int| 1 <= k < n ==> #[trigger] fold(k) & mask != 0
            },
            None => {
                &&& hash == fold(buf.len() as int)
                &&& forall|k: int| 1 <= k <= buf.len() ==> #[trigger] fold(k) & mask != 0
            },
        },
        forall|n: int|
            0 <= n <= buf.len() ==> #[trigger] gear::hash_after(seed, table, buf, n) == fold(n),
        forall|n: int|
            0 <= n <= buf.len() ==> (#[trigger] gear::is_match(seed, table, buf, mask, n) <==> fold(
                n,
            ) & mask == 0),
{
    let roll = |h: u64, b: u8| (h << 1u64).wrapping_add(table[b as int]);
    assert forall|n: int| 0 <= n <= buf.len() implies #[trigger] gear::hash_after(
        seed,
        table,
        buf,
        n,
    ) == fold(n) by {
        lemma_hash_is_fold(seed, table, buf, n, roll);
        assert(fold(n) == buf.take(n).fold_left(seed, roll));
    }
    assert forall|n: int| 0 <= n <= buf.len() implies (#[trigger] gear::is_match(
        seed,
        table,
        buf,
        mask,
        n,
    ) <==> fold(n) & mask == 0) by {}
    assert forall|n: int| 0 <= n <= buf.len() implies (#[trigger] fold(n) & mask == 0
        <==> gear::is_match(seed, table, buf, mask, n)) by {}
}

/// A buffer that holds no match can be followed by another: a scan of the second
/// from the hash that the first scan left has the outcome of one scan of both,
/// the place counted from the start of the second.
pub proof fn law_resume(
    seed: u64,
    table: Seq<u64>,
    first: Seq<u8>,
    second: Seq<u8>,
    mask: u64,
    carried: u64,
    found: Option<usize>,
    hash: u64,
)
    requires
        first.len() + second.len() <= usize::MAX,
        gear::scan_outcome(seed, table, first, mask, None, carried),
        gear::scan_outcome(carried, table, second, mask, found, hash),
    ensures
        gear::scan_outcome(
            seed,
            table,
            first + second,
            mask,
            match found {
                Some(n) => Some((first.len() + n) as usize),
                None => None,
            },
            hash,
        ),
{
    law_change_of_mask(seed, table, first, second, mask, mask, carried, found, hash);
}

/// Bytes that follow a match do not change the outcome.
pub proof fn law_match_is_final(
    seed: u64,
    table: Seq<u64>,
    first: Seq<u8>,
    second: Seq<u8>,
    mask: u64,
    n: usize,
    hash: u64,
)
    requires
        gear::scan_outcome(seed, table, first, mask, Some(n), hash),
    ensures
        gear::scan_outcome(seed, table, first + second, mask, Some(n), hash),
{
    lemma_same_matches(seed, table, first, first + second, mask);
    gear::lemma_hash_after_prefix(seed, table, first, first + second, n as int);
}

/// Scanning on from any place of a buffer, with the hash there, finds the next
/// match of the whole buffer. A match is such a place, with the hash that it
/// left, so scans each started where the last one stopped skip no match.
pub proof fn law_next_match_from(
    seed: u64,
    table: Seq<u64>,
    buf: Seq<u8>,
    mask: u64,
    at: int,
    found: Option<usize>,
    hash: u64,
)
    requires
        0 <= at <= buf.len(),
        gear::scan_outcome(
            gear::hash_after(seed, table, buf, at),
            table,
            buf.skip(at),
            mask,
            found,
            hash,
        ),
    ensures
        match found {
            Some(n) => {
                &&& 1 <= n <= buf.len() - at
                &&& gear::is_match(seed, table, buf, mask, at + n)
                &&& gear::no_match_in(seed, table, buf, mask, at, at + n - 1)
                &&& hash == gear::hash_after(seed, table, buf, at + n)
            },
            None => {
                &&& gear::no_match_in(seed, table, buf, mask, at, buf.len() as int)
                &&& hash == gear::hash_after(seed, table, buf, buf.len() as int)
            },
        },
{
    let len = buf.len() as int;
    assert(buf.skip(at) == buf.subrange(at, len));
    gear::lemma_outcome_of_part(seed, table, buf, mask, at, len, found, hash);
}

/// The mask may change between two buffers: after a first one with no match, a
/// scan of the second under another mask, from the hash that the first scan
/// left, finds the first match under that mask of both, past the first.
pub proof fn law_change_of_mask(
    seed: u64,
    table: Seq<u64>,
    first: Seq<u8>,
    second: Seq<u8>,
    first_mask: u64,
    second_mask: u64,
    carried: u64,
    found: Option<usize>,
    hash: u64,
)
    requires
        gear::scan_outcome(seed, table, first, first_mask, None, carried),
        gear::scan_outcome(carried, table, second, second_mask, found, hash),
    ensures
        gear::no_match_in(seed, table, first + second, first_mask, 0, first.len() as int),
        match found {
            Some(n) => {
                let at = first.len() + n;
                &&& at <= (first + second).len()
                &&& gear::is_match(seed, table, first + second, second_mask, at)
                &&& gear::no_match_in(
                    seed,
                    table,
                    first + second,
                    second_mask,
                    first.len() as int,
                    at - 1,
                )
                &&& hash == gear::hash_after(seed, table, first + second, at)
            },
            None => {
                let end = (first + second).len() as int;
                &&& gear::no_match_in(
                    seed,
                    table,
                    first + second,
                    second_mask,
                    first.len() as int,
                    end,
                )
                &&& hash == gear::hash_after(seed, table, first + second, end)
            },
        },
{
    let both = first + second;
    let len = first.len() as int;
    let end = both.len() as int;
    assert(both.subrange(len, end) == second);
    lemma_same_matches(seed, table, first, both, first_mask);
    gear::lemma_hash_after_prefix(seed, table, first, both, len);
    gear::lemma_outcome_of_part(seed, table, both, second_mask, len, end, found, hash);
}

/// The hash is a function of the last `WINDOW` bytes: wherever the same bytes
/// were just rolled in, after whatever came before, the hash is the same.
pub proof fn law_window(
    table: Seq<u64>,
    seed_a: u64,
    a: Seq<u8>,
    at_a: int,
    seed_b: u64,
    b: Seq<u8>,
    at_b: int,
)
    requires
        gear::WINDOW <= at_a <= a.len(),
        gear::WINDOW <= at_b <= b.len(),
        a.subrange(at_a - gear::WINDOW, at_a) == b.subrange(at_b - gear::WINDOW, at_b),
    ensures
        gear::hash_after(seed_a, table, a, at_a) == gear::hash_after(seed_b, table, b, at_b),
{
    gear::lemma_window(seed_a, table, a, at_a);
    gear::lemma_window(seed_b, table, b, at_b);
}

/// Two scans of the same bytes from different hashes have the same outcome if
/// neither finds a match before `WINDOW` bytes are in.
pub proof fn law_seed_is_forgotten(
    table: Seq<u64>,
    buf: Seq<u8>,
    mask: u64,
    seed_a: u64,
    found_a: Option<usize>,
    hash_a: u64,
    seed_b: u64,
    found_b: Option<usize>,
    hash_b: u64,
)
    requires
        buf.len() >= gear::WINDOW,
        gear::scan_outcome(seed_a, table, buf, mask, found_a, hash_a),
        gear::scan_outcome(seed_b, table, buf, mask, found_b, hash_b),
        gear::no_match_in(seed_a, table, buf, mask, 0, gear::WINDOW - 1),
        gear::no_match_in(seed_b, table, buf, mask, 0, gear::WINDOW - 1),
    ensures
        found_a == found_b,
        hash_a == hash_b,
{
    assert forall|n: int| gear::WINDOW <= n implies #[trigger] gear::hash_after(
        seed_a,
        table,
        buf,
        n,
    ) == gear::hash_after(seed_b, table, buf, n) by {
        gear::lemma_seed_leaves(seed_a, table, buf, n as nat);
        gear::lemma_seed_leaves(seed_b, table, buf, n as nat);
    }
    assert forall|n: int| 0 < n <= buf.len() implies #[trigger] gear::is_match(
        seed_a,
        table,
        buf,
        mask,
        n,
    ) == gear::is_match(seed_b, table, buf, mask, n) by {}
    if let Some(n) = found_a {
        assert(gear::is_match(seed_a, table, buf, mask, n as int));
        assert(gear::is_match(seed_b, table, buf, mask, n as int));
    }
    if let Some(n) = found_b {
        assert(gear::is_match(seed_a, table, buf, mask, n as int));
        assert(gear::is_match(seed_b, table, buf, mask, n as int));
    }
}

/// A strip of a buffer can be scanned without the bytes before it but for the
/// last `WINDOW`: from the hash of those, started at zero, the matches of the
/// strip are the matches of the buffer there.
pub proof fn law_strip(
    seed: u64,
    table: Seq<u64>,
    buf: Seq<u8>,
    mask: u64,
    from: int,
    to: int,
    n: int,
)
    requires
        gear::WINDOW <= from <= to <= buf.len(),
        0 <= n <= to - from,
    ensures
        gear::is_match(
            gear::hash_after(
                0,
                table,
                buf.subrange(from - gear::WINDOW, from),
                gear::WINDOW as int,
            ),
            table,
            buf.subrange(from, to),
            mask,
            n,
        ) == gear::is_match(seed, table, buf, mask, from + n),
{
    gear::lemma_window(seed, table, buf, from);
    gear::lemma_hash_after_part(seed, table, buf, from, to, n);
}

/// Strips that tile a buffer can be scanned on their own, and the first strip
/// with a match has the first match of the buffer: after strips with no match,
/// the outcome of the next one, started from the window before it, is that of
/// the buffer up to its end.
pub proof fn law_first_strip_wins(
    seed: u64,
    table: Seq<u64>,
    before: Seq<u8>,
    strip: Seq<u8>,
    mask: u64,
    carried: u64,
    found: Option<usize>,
    hash: u64,
)
    requires
        gear::WINDOW <= before.len(),
        before.len() + strip.len() <= usize::MAX,
        gear::scan_outcome(seed, table, before, mask, None, carried),
        gear::scan_outcome(
            gear::hash_after(
                0,
                table,
                before.skip(before.len() - gear::WINDOW),
                gear::WINDOW as int,
            ),
            table,
            strip,
            mask,
            found,
            hash,
        ),
    ensures
        gear::scan_outcome(
            seed,
            table,
            before + strip,
            mask,
            match found {
                Some(n) => Some((before.len() + n) as usize),
                None => None,
            },
            hash,
        ),
{
    let len = before.len() as int;
    assert(before.skip(len - gear::WINDOW) == before.subrange(len - gear::WINDOW, len));
    gear::lemma_window(seed, table, before, len);
    law_resume(seed, table, before, strip, mask, carried, found, hash);
}

/// Two steps can be taken as one roll by two bytes, with a second table whose
/// words are doubled. Half way, the roll holds the doubled hash, and a doubled
/// mask tests it, unless doubling drops the mask's top bit.
pub proof fn law_two_byte_roll(hash: u64, first: u64, second: u64, mask: u64)
    ensures
        (hash << 2u64).wrapping_add(first << 1u64) == gear::gear_step(hash, first) << 1u64,
        (hash << 2u64).wrapping_add(first << 1u64).wrapping_add(second) == gear::gear_step(
            gear::gear_step(hash, first),
            second,
        ),
        mask <= u64::MAX / 2 ==> ((hash << 2u64).wrapping_add(first << 1u64) & (mask << 1u64) == 0
            <==> gear::gear_step(hash, first) & mask == 0),
{
    let half = gear::gear_step(hash, first);
    assert((hash << 2u64) == (4 * hash) % 0x1_0000_0000_0000_0000) by (bit_vector);
    assert((first << 1u64) == (2 * first) % 0x1_0000_0000_0000_0000) by (bit_vector);
    assert((hash << 2u64).wrapping_add(first << 1u64) == half << 1u64) by {
        assert((half << 1u64) == (2 * half) % 0x1_0000_0000_0000_0000) by (bit_vector);
        lemma_add_mod_noop(4 * hash, 2 * first, gear::modulus());
        lemma_mul_mod_noop_right(2, 2 * hash + first, gear::modulus());
    }
    gear::lemma_shift_add_is_step(half, second);
    assert(mask <= 0x7fff_ffff_ffff_ffff ==> ((half << 1u64) & (mask << 1u64) == 0 <==> half & mask
        == 0)) by (bit_vector);
}

/// A scan that rolls two bytes at a time stops at the same match as the scans
/// byte by byte: it stops at the place `p` exactly if the byte there, the one
/// with `p` bytes before it, is the first match. At an odd place it holds the
/// hash, at an even place the doubled hash, and with no match the hash of all
/// bytes. A last byte without a partner is left out, and the mask's top bit must
/// be clear, since doubling drops it.
pub proof fn law_two_byte_scan(
    seed: u64,
    table: Seq<u64>,
    doubled: Seq<u64>,
    buf: Seq<u8>,
    mask: u64,
)
    requires
        buf.len() <= usize::MAX,
        mask <= u64::MAX / 2,
        forall|b: int| 0 <= b < 256 ==> doubled[b] == #[trigger] table[b] << 1u64,
    ensures
        ({
            let pairs = buf.take(buf.len() - buf.len() % 2);
            let (stop, value) = gear::two_byte_scan(seed, table, doubled, buf, mask, 0);
            match stop {
                Some(p) => {
                    let hash = gear::hash_after(seed, table, pairs, p + 1);
                    &&& 0 <= p < pairs.len()
                    &&& gear::scan_outcome(seed, table, pairs, mask, Some((p + 1) as usize), hash)
                    &&& value == if p % 2 == 0 {
                        hash << 1u64
                    } else {
                        hash
                    }
                },
                None => gear::scan_outcome(seed, table, pairs, mask, None, value),
            }
        }),
        forall|found: Option<usize>, hash: u64| #[trigger]
            gear::scan_outcome(
                seed,
                table,
                buf.take(buf.len() - buf.len() % 2),
                mask,
                found,
                hash,
            ) ==> gear::two_byte_scan(seed, table, doubled, buf, mask, 0) == match found {
                Some(n) => (
                    Some(n - 1),
                    if n % 2 == 0 {
                        hash
                    } else {
                        hash << 1u64
                    },
                ),
                None => (None::<int>, hash),
            },
{
    let pairs = buf.take(buf.len() - buf.len() % 2);
    let (stop, value) = gear::two_byte_scan(seed, table, doubled, buf, mask, 0);
    lemma_two_byte_scan_from(seed, table, doubled, buf, mask, 0);
    lemma_same_matches(seed, table, pairs, buf, mask);
    let (rolled_found, rolled_hash) = match stop {
        Some(p) => {
            gear::lemma_hash_after_prefix(seed, table, pairs, buf, p + 1);
            (Some((p + 1) as usize), gear::hash_after(seed, table, pairs, p + 1))
        },
        None => {
            gear::lemma_hash_after_prefix(seed, table, pairs, buf, pairs.len() as int);
            (None, value)
        },
    };
    assert(gear::scan_outcome(seed, table, pairs, mask, rolled_found, rolled_hash));
    assert forall|found: Option<usize>, hash: u64| #[trigger]
        gear::scan_outcome(seed, table, pairs, mask, found, hash) implies found == rolled_found
        && hash == rolled_hash by {
        law_same_outcome(
            seed,
            table,
            pairs,
            mask,
            found,
            hash,
            rolled_found,
            rolled_hash,
        );
    }
}

/// With no bit to test, every byte is a match: the scan takes one byte.
pub proof fn law_zero_mask(seed: u64, table: Seq<u64>, buf: Seq<u8>, found: Option<usize>, hash: u64)
    requires
        buf.len() > 0,
        gear::scan_outcome(seed, table, buf, 0, found, hash),
    ensures
        found == Some(1usize),
        hash == gear::gear_step(seed, table[buf[0] as int]),
{
    let next = gear::hash_after(seed, table, buf, 1);
    assert(next & 0 == 0) by (bit_vector);
    assert(gear::is_match(seed, table, buf, 0, 1));
    reveal_with_fuel(gear::hash_after, 2);
}

/// A scan of nothing finds nothing and leaves the hash as it was.
pub proof fn law_empty_buffer(
    seed: u64,
    table: Seq<u64>,
    mask: u64,
    found: Option<usize>,
    hash: u64,
)
    ensures
        gear::scan_outcome(seed, table, Seq::<u8>::empty(), mask, found, hash) <==> found is None
            && hash == seed,
{
}

/// A mask with fewer bits matches no later.
pub proof fn law_fewer_mask_bits(
    seed: u64,
    table: Seq<u64>,
    buf: Seq<u8>,
    fewer: u64,
    mask: u64,
    found_fewer: Option<usize>,
    hash_fewer: u64,
    found: Option<usize>,
    hash: u64,
)
    requires
        fewer & mask == fewer,
        gear::scan_outcome(seed, table, buf, fewer, found_fewer, hash_fewer),
        gear::scan_outcome(seed, table, buf, mask, found, hash),
    ensures
        found matches Some(n) ==> found_fewer matches Some(m) && m <= n,
{
    if let Some(n) = found {
        let at = gear::hash_after(seed, table, buf, n as int);
        assert(at & fewer == 0) by (bit_vector)
            requires
                fewer & mask == fewer,
                at & mask == 0,
        ;
        assert(gear::is_match(seed, table, buf, fewer, n as int));
    }
}

/// Where a scan by two bytes stops that starts at an even place of `buf` with
/// the hash there.
proof fn lemma_two_byte_scan_from(
    seed: u64,
    table: Seq<u64>,
    doubled: Seq<u64>,
    buf: Seq<u8>,
    mask: u64,
    at: int,
)
    requires
        0 <= at <= buf.len(),
        at % 2 == 0,
        mask <= u64::MAX / 2,
        forall|b: int| 0 <= b < 256 ==> doubled[b] == #[trigger] table[b] << 1u64,
    ensures
        ({
            let start = gear::hash_after(seed, table, buf, at);
            let (stop, value) = gear::two_byte_scan(start, table, doubled, buf, mask, at);
            let end = buf.len() - buf.len() % 2;
            match stop {
                Some(p) => {
                    let hash = gear::hash_after(seed, table, buf, p + 1);
                    &&& at <= p < end
                    &&& gear::is_match(seed, table, buf, mask, p + 1)
                    &&& gear::no_match_in(seed, table, buf, mask, at, p)
                    &&& value == if p % 2 == 0 {
                        hash << 1u64
                    } else {
                        hash
                    }
                },
                None => {
                    &&& gear::no_match_in(seed, table, buf, mask, at, end)
                    &&& value == gear::hash_after(seed, table, buf, end)
                },
            }
        }),
    decreases buf.len() - at,
{
    if at + 1 < buf.len() {
        let start = gear::hash_after(seed, table, buf, at);
        let first = table[buf[at] as int];
        let second = table[buf[at + 1] as int];
        law_two_byte_roll(start, first, second, mask);
        assert(gear::hash_after(seed, table, buf, at + 1) == gear::gear_step(start, first));
        assert(gear::hash_after(seed, table, buf, at + 2) == gear::gear_step(
            gear::gear_step(start, first),
            second,
        ));
        lemma_two_byte_scan_from(seed, table, doubled, buf, mask, at + 2);
    }
}

/// The hash is a fold of any `roll` that shifts by one and adds the byte's word.
proof fn lemma_hash_is_fold(
    seed: u64,
    table: Seq<u64>,
    buf: Seq<u8>,
    n: int,
    roll: spec_fn(u64, u8) -> u64,
)
    requires
        0 <= n <= buf.len(),
        forall|h: u64, b: u8| #[trigger]
            roll(h, b) == (h << 1u64).wrapping_add(table[b as int]),
    ensures
        gear::hash_after(seed, table, buf, n) == buf.take(n).fold_left(seed, roll),
    decreases n,
{
    if n > 0 {
        lemma_hash_is_fold(seed, table, buf, n - 1, roll);
        assert(buf.take(n).drop_last() == buf.take(n - 1));
        gear::lemma_shift_add_is_step(
            gear::hash_after(seed, table, buf, n - 1),
            table[buf[n - 1] as int],
        );
    }
}

/// The matches in the bytes that a buffer shares with a longer one are the same.
proof fn lemma_same_matches(seed: u64, table: Seq<u64>, first: Seq<u8>, both: Seq<u8>, mask: u64)
    requires
        first.len() <= both.len(),
        forall|i: int| 0 <= i < first.len() ==> first[i] == both[i],
    ensures
        forall|n: int|
            #![trigger gear::is_match(seed, table, both, mask, n)]
            #![trigger gear::is_match(seed, table, first, mask, n)]
            n <= first.len() ==> gear::is_match(seed, table, both, mask, n) == gear::is_match(
                seed,
                table,
                first,
                mask,
                n,
            ),
{
    assert forall|n: int|
        #![trigger gear::is_match(seed, table, both, mask, n)]
        #![trigger gear::is_match(seed, table, first, mask, n)]
        n <= first.len() implies gear::is_match(seed, table, both, mask, n) == gear::is_match(
        seed,
        table,
        first,
        mask,
        n,
    ) by {
        gear::lemma_hash_after_prefix(seed, table, first, both, n);
    }
}

} // verus!
