# sov-probe

An out-of-band network probe. It looks at frames next to the data path, keeps their addressing and
the head of their payload, and writes them as records of a write-ahead log in memory. The log goes
to a receiving end in chunks, in any order, and is put together there again. What decides and
computes is verified with Verus; what touches files, threads, the kernel and the network is ordinary
Rust around it.

## Layout

- `src/` is the verified library.
  - `parse/` cuts a frame into its layers (`frame.rs`) and makes a record of it (`slicer.rs`).
  - `wal/` is the log: the 64-byte header (`header.rs`), what holds of a log as a whole (`laws.rs`),
    segment numbers and the removal of the oldest (`rotate.rs`), and the writer (`writer.rs`).
  - `guard/breaker.rs` decides when load is shed, by the queue's fill and by samples of memory,
    CPU use and load.
  - `capture.rs` is what becomes of a captured frame.
  - `reassembly/` is the receiving end: chunk encryption (`cipher.rs`), identifiers (`hexid.rs`), the
    cache of chunks (`blind.rs`), one segment (`segment.rs`), all of them (`reassembler.rs`), and
    what holds however chunks arrive (`laws.rs`).
  - `pcap.rs` turns records back into frames, `genwal.rs` makes up logs, `config.rs`, `metrics.rs`,
    `text.rs` and `endian.rs` are what the others stand on.
- `tests/` runs the library.
- `app/` is the program. The name under which it is run picks the tool: `genwal`,
  `genwal_distinct`, `sov2pcap`, `sub_save_test`, `zenoh_pub_probe`, `zenoh_pub_enc`, or else the
  probe.

## What is trusted

Calls into `byteorder`, `crc32fast`, `etherparse`, `crossbeam-channel`, `chacha20poly1305` and `hex`
stand behind small functions whose contracts say what is relied on. Checksums, the layers of a
frame, and ciphertexts have names in the contracts; what a checksum or a ciphertext is on given
bytes is not stated, only what follows from them being the same on the same bytes.

## Public functions with preconditions

A `requires` asks for the validity of the arguments, for a bound on a number that the caller holds in
a public field or as an argument (`Rotator::next_segment`, `WalWriter::segment_opened`), or for what
a function of the library tests: `Breaker::try_hot_path_check`, `Reassembler::has_room`,
`WalWriter::can_count`, `genwal::accepts_segno`, `rotate::segment_no`.
