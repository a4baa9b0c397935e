use gear_simd::{avx2_next_match, next_match, scalar_next_match, Table};

/// Every entry is its own index.
fn identity_table() -> Table {
    let mut table = [0u64; 256];
    for (i, word) in table.iter_mut().enumerate() {
        *word = i as u64;
    }
    table
}

/// Byte 1 makes the hash even, every other byte makes it odd.
fn parity_table() -> Table {
    let mut table = [1u64; 256];
    table[1] = 2;
    table
}

struct SplitMix64(u64);

impl SplitMix64 {
    fn next_u64(&mut self) -> u64 {
        self.0 = self.0.wrapping_add(0x9E3779B97F4A7C15);
        let mut z = self.0;
        z = (z ^ (z >> 30)).wrapping_mul(0xBF58476D1CE4E5B9);
        z = (z ^ (z >> 27)).wrapping_mul(0x94D049BB133111EB);
        z ^ (z >> 31)
    }
}

fn random_table(seed: u64) -> Table {
    let mut rng = SplitMix64(seed);
    let mut table = [0u64; 256];
    for word in table.iter_mut() {
        *word = rng.next_u64();
    }
    table
}

fn random_bytes(len: usize, seed: u64) -> Vec<u8> {
    let mut rng = SplitMix64(seed);
    (0..len).map(|_| rng.next_u64() as u8).collect()
}

/// Runs all scans and returns their common outcome.
fn scan(seed: u64, table: &Table, buf: &[u8], mask: u64) -> (Option<usize>, u64) {
    let mut hash = seed;
    let found = scalar_next_match(&mut hash, table, buf, mask);
    let mut lanes_hash = seed;
    let lanes_found = avx2_next_match(&mut lanes_hash, table, buf, mask);
    assert_eq!((found, hash), (lanes_found, lanes_hash));
    for avx2 in [false, true] {
        let mut picked_hash = seed;
        let picked_found = next_match(&mut picked_hash, table, buf, mask, avx2);
        assert_eq!((found, hash), (picked_found, picked_hash));
    }
    (found, hash)
}

fn zeros_with_ones_at(len: usize, ones: &[usize]) -> Vec<u8> {
    let mut buf = vec![0u8; len];
    for &at in ones {
        buf[at] = 1;
    }
    buf
}

#[test]
fn small_buffers_have_exact_outcomes() {
    let table = identity_table();
    // The hashes after one, two and three bytes are 1, 4 and 11.
    assert_eq!(scan(0, &table, &[1, 2, 3], 3), (Some(2), 4));
    assert_eq!(scan(0, &table, &[1, 2, 3], 4), (Some(1), 1));
    assert_eq!(scan(0, &table, &[1, 2, 3], 0b101), (None, 11));
    // From 5 they are 11, 24 and 51.
    assert_eq!(scan(5, &table, &[1, 2, 3], 0b11), (Some(2), 24));
    assert_eq!(scan(5, &table, &[1, 2, 3], 0b1001), (None, 51));
}

#[test]
fn the_hash_wraps() {
    let mut table = [0u64; 256];
    table[7] = u64::MAX;
    assert_eq!(scan(0x8000_0000_0000_0003, &table, &[7], 1), (None, 5));
    assert_eq!(scan(u64::MAX, &table, &[7], 2), (Some(1), u64::MAX - 2));
}

#[test]
fn no_match_leaves_the_hash_of_all_bytes() {
    let table = [1u64; 256];
    assert_eq!(scan(0, &table, &[0; 5], 1), (None, 31));
    assert_eq!(scan(0, &table, &[0; 100], 1), (None, u64::MAX));
    for len in [1023, 1024, 1025, 2048, 5000] {
        assert_eq!(scan(0, &table, &vec![0; len], 1), (None, u64::MAX));
    }
}

#[test]
fn empty_buffer_leaves_the_hash() {
    assert_eq!(scan(42, &identity_table(), &[], 0), (None, 42));
    assert_eq!(scan(42, &identity_table(), &[], u64::MAX), (None, 42));
}

#[test]
fn zero_mask_takes_one_byte() {
    let table = identity_table();
    assert_eq!(scan(3, &table, &[9], 0), (Some(1), 15));
    assert_eq!(scan(3, &table, &[9; 4096], 0), (Some(1), 15));
}

#[test]
fn a_match_is_found_in_every_strip() {
    let table = parity_table();
    for at in [0, 1, 63, 64, 255, 256, 257, 511, 512, 767, 768, 769, 1023, 1024, 1500, 2047, 2048] {
        let buf = zeros_with_ones_at(3000, &[at]);
        let hash = if at < 63 { 1u64 << (at + 1) } else { 0 };
        assert_eq!(scan(0, &table, &buf, 1), (Some(at + 1), hash), "match at {}", at);
    }
}

#[test]
fn the_earliest_of_several_strips_wins() {
    let table = parity_table();
    // Each list names matches that the lanes meet in another order than the bytes.
    let cases: [(&[usize], usize); 8] = [
        (&[200, 260], 200),
        (&[255, 256], 255),
        (&[300, 520], 300),
        (&[500, 513, 769], 500),
        (&[700, 770], 700),
        (&[767, 768], 767),
        (&[600, 650, 780], 600),
        (&[800, 801, 1023], 800),
    ];
    for (ones, first) in cases {
        let buf = zeros_with_ones_at(1024, ones);
        assert_eq!(scan(0, &table, &buf, 1), (Some(first + 1), 0), "matches at {:?}", ones);
        let mut later = vec![0u8; 1024];
        later.extend_from_slice(&buf);
        assert_eq!(scan(0, &table, &later, 1), (Some(1024 + first + 1), 0));
    }
}

#[test]
fn scans_agree_on_random_data() {
    for seed in 0..6u64 {
        let table = random_table(seed);
        let buf = random_bytes(20_000 + 97 * seed as usize, 1000 + seed);
        for bits in [0u32, 1, 4, 8, 11, 13, 16, 20, 63] {
            let mask = !(u64::MAX >> bits);
            let mut at = 0;
            let mut hash = seed;
            for _ in 0..200 {
                let (found, next) = scan(hash, &table, &buf[at..], mask);
                hash = next;
                match found {
                    Some(n) => at += n,
                    None => break,
                }
            }
        }
    }
}

#[test]
fn a_scan_resumes_in_the_next_buffer() {
    let table = parity_table();
    let buf = zeros_with_ones_at(4000, &[2500]);
    for cut in [0, 1, 255, 1024, 1500, 2048, 2500] {
        let (found, carried) = scan(7, &table, &buf[..cut], 1);
        assert_eq!(found, None);
        let (found, hash) = scan(carried, &table, &buf[cut..], 1);
        assert_eq!(found, Some(2501 - cut));
        assert_eq!(scan(7, &table, &buf, 1), (Some(2501), hash));
    }
}

#[test]
fn the_mask_may_change_between_buffers() {
    // The hashes are 1, 4, 11, 26 and 57.
    let table = identity_table();
    let (found, carried) = scan(0, &table, &[1, 2], 0b101);
    assert_eq!((found, carried), (None, 4));
    assert_eq!(scan(carried, &table, &[3, 4, 5], 0b1), (Some(2), 26));
    assert_eq!(scan(carried, &table, &[3, 4, 5], 0b1000), (None, 57));
}

#[test]
fn bytes_after_a_match_do_not_matter() {
    let table = parity_table();
    let buf = zeros_with_ones_at(700, &[600]);
    let mut longer = buf.clone();
    longer.extend_from_slice(&[1; 2000]);
    assert_eq!(scan(0, &table, &buf, 1), (Some(601), 0));
    assert_eq!(scan(0, &table, &longer, 1), (Some(601), 0));
}

#[test]
fn repeated_scans_meet_every_match_in_order() {
    let table = parity_table();
    let ones = [3usize, 4, 700, 1023, 1024, 1900, 3999];
    let buf = zeros_with_ones_at(4096, &ones);
    let mut met = Vec::new();
    let mut at = 0;
    let mut hash = 0;
    loop {
        let (found, next) = scan(hash, &table, &buf[at..], 1);
        hash = next;
        match found {
            Some(n) => {
                at += n;
                met.push(at - 1);
            }
            None => break,
        }
    }
    assert_eq!(met, ones);
}

#[test]
fn the_hash_depends_on_the_last_sixty_four_bytes() {
    let table = random_table(11);
    let tail = random_bytes(64, 12);
    let mut buf = random_bytes(500, 13);
    buf.extend_from_slice(&tail);
    // No hash here has all of these bits clear.
    let mask = u64::MAX;
    let (found, alone) = scan(0, &table, &tail, mask);
    assert_eq!(found, None);
    assert_eq!(scan(99, &table, &buf, mask), (None, alone));
    let (_, shorter) = scan(0, &table, &tail[1..], mask);
    assert_ne!(scan(1, &table, &tail[1..], mask), (None, shorter));
}

#[test]
fn the_seed_is_forgotten() {
    let table = parity_table();
    let buf = zeros_with_ones_at(2000, &[900]);
    for seed in [0, 1, 77, u64::MAX] {
        assert_eq!(scan(seed, &table, &buf, 1), (Some(901), 0));
    }
}

#[test]
fn a_strip_is_scanned_from_the_window_before_it() {
    let table = random_table(21);
    let buf = random_bytes(4096, 22);
    let mask = 0xfff0_0000_0000_0000;
    for from in [64usize, 300, 1024, 2000] {
        let (_, warm) = scan(0, &table, &buf[from - 64..from], u64::MAX);
        let (_, whole) = scan(5, &table, &buf[..from], u64::MAX);
        assert_eq!(warm, whole);
        assert_eq!(scan(warm, &table, &buf[from..], mask), scan(whole, &table, &buf[from..], mask));
    }
}

#[test]
fn the_first_strip_with_a_match_wins() {
    let table = parity_table();
    let buf = zeros_with_ones_at(900, &[650, 800]);
    assert_eq!(scan(9, &table, &buf[..300], 1).0, None);
    assert_eq!(scan(9, &table, &buf[..600], 1).0, None);
    let (_, warm) = scan(0, &table, &buf[600 - 64..600], 1);
    assert_eq!(scan(warm, &table, &buf[600..], 1), (Some(51), 0));
    assert_eq!(scan(9, &table, &buf, 1), (Some(651), 0));
}

#[test]
fn a_two_byte_roll_is_two_steps() {
    let table = random_table(31);
    let buf = random_bytes(2, 32);
    let (first, second) = (table[buf[0] as usize], table[buf[1] as usize]);
    let seed = 0xdead_beef_0123_4567u64;
    let half = (seed << 2).wrapping_add(first << 1);
    assert_eq!(scan(seed, &table, &buf, u64::MAX), (None, half.wrapping_add(second)));
    for bit in 0..63 {
        let mask = 1u64 << bit;
        let (found, _) = scan(seed, &table, &buf[..1], mask);
        assert_eq!(found == Some(1), half & (mask << 1) == 0);
    }
}

/// Rolls two bytes at a time; returns where it stopped and the value there.
fn two_byte_scan(seed: u64, table: &Table, buf: &[u8], mask: u64) -> (Option<usize>, u64) {
    let mut hash = seed;
    for (i, pair) in buf.chunks_exact(2).enumerate() {
        hash = (hash << 2).wrapping_add(table[pair[0] as usize] << 1);
        if hash & (mask << 1) == 0 {
            return (Some(2 * i), hash);
        }
        hash = hash.wrapping_add(table[pair[1] as usize]);
        if hash & mask == 0 {
            return (Some(2 * i + 1), hash);
        }
    }
    (None, hash)
}

#[test]
fn a_two_byte_scan_stops_at_the_same_match() {
    // The hashes are 1, 4, 11 and 26.
    let table = identity_table();
    assert_eq!(scan(0, &table, &[1, 2, 3, 4], 0b11), (Some(2), 4));
    assert_eq!(two_byte_scan(0, &table, &[1, 2, 3, 4], 0b11), (Some(1), 4));
    assert_eq!(scan(5, &table, &[1, 2, 3, 4], 0b100), (Some(1), 11));
    assert_eq!(two_byte_scan(5, &table, &[1, 2, 3, 4], 0b100), (Some(0), 22));

    let table = random_table(51);
    for seed in 0..40u64 {
        let buf = random_bytes(3001, 500 + seed);
        let (found, hash) = scan(seed, &table, &buf[..3000], 0x01ff_0000_0000_0000);
        let expected = match found {
            Some(n) if n % 2 == 0 => (Some(n - 1), hash),
            Some(n) => (Some(n - 1), hash << 1),
            None => (None, hash),
        };
        assert_eq!(two_byte_scan(seed, &table, &buf, 0x01ff_0000_0000_0000), expected);
    }
}

#[test]
fn fewer_mask_bits_match_no_later() {
    let table = random_table(41);
    let buf = random_bytes(30_000, 42);
    let mut last = 0;
    for bits in 0..12u32 {
        let (found, _) = scan(0, &table, &buf, !(u64::MAX >> bits));
        let n = found.unwrap_or(buf.len() + 1);
        assert!(last <= n);
        last = n;
    }
}
