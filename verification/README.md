# gear_simd

A boundary scan with a gear hash, for content-defined chunking. `next_match`
advances a rolling 64-bit hash over a buffer and returns how many bytes it took
up to and including the first one at which `hash & mask == 0`.

There are two scans with the same contract. `scalar_next_match` goes byte by
byte. `avx2_next_match` takes 1024 bytes at a time as four strips that it hashes
side by side; this is sound because a byte leaves the hash after 64 more bytes,
so that the hash at the start of a strip is that of the 64 bytes before it.

- `src/gear.rs`: the hash as mathematics, and what a scan returns
- `src/scan.rs`: the scans
- `src/laws.rs`: what holds between scans
- `app/`: asks the processor which scan to use
