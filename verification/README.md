# dep16

A monotone term calculus for ledger-based deposit authorization, with its canonical byte
encodings, verified with Verus.

A deposit's authorization condition is a descriptor: constants and a closed boolean term,
evaluated against an operation, a ledger-state snapshot and a witness (signatures, hash
preimages, attestations). Proof obligations may only stand in positive position, which makes
acceptance monotone in the witness.

## Layout

- `src/` — the verified library.
  - `ast`, `value`, `registry`, `descriptor`, `maps`, `tree`: terms, values, primitive
    registries, and sorted maps.
  - `eval`, `capability`, `admission`, `modify`: evaluation, the capability gate and placement
    rule applied at admission, and self-modification of descriptors.
  - `encode`, `decode`, `snapshot_codec`, `witness_codec`, `fraud`: the canonical encodings,
    their decoders with canonical rejection, and fraud-proof replay.
  - `lex`, `parse`, `print`: the source syntax.
  - `monotone`, `resolution`, `codec_laws`, `canonical`, `source_laws`: the laws — witness
    monotonicity, resolution of constants in admitted descriptors, decoding what was encoded,
    re-encoding what was decoded (only canonical bytes decode), and parsing what was printed.
  - `hashes`: SHA-256, RIPEMD-160 and their compositions from the `bitcoin` crate.
  - `secp`, `mock`: verification hosts — secp256k1 ECDSA and BIP-340 Schnorr from the
    `bitcoin` crate, and the mock signature scheme used in tests.
- `tests/` — worked examples and concrete instances of the laws.
- `app/` — fuzzing entry points.
