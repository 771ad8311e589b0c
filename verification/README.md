# hyperplonk_evm

Verified Rust (Verus) for the EVM-facing side of a HyperPlonk prover over KoalaBear with
Keccak Merkle commitments.

- `src/` is the verified library:
  - `blob`, `format`, `parse`, `encode`, `decode`: the `HPK1` proof blob. `format` says what
    the encoder writes, `parse` what the decoder accepts; `roundtrip` proves that decoding an
    encoded proof gives it back and that trailing bytes are refused, `wellformed` that whatever
    the decoder accepts encodes and decodes back to itself, `strict` that the blobs the decoder
    accepts whose field limbs are all below the modulus are exactly the encodings of
    well-formed proofs (re-encoding what was decoded gives the very bytes read), `offsets` that the recorded offsets locate the first field of each kind.
  - `calldata`, `render`: ABI calldata for `verify(bytes)`, with laws that decoding inverts
    encoding and accepts nothing else, and the JSON payload (schema, hashing mode, `0x` hex
    bytes, lengths and the prover's and verifier's hash counts with their total).
  - `keccak`, `bytes`, `field`: the bytes32 digest form, the domain-separated Keccak leaf and
    node hashers (Keccak itself comes from `p3-keccak`), KoalaBear values.
  - `concat`: laying matrices out as aligned sub-cubes of one multilinear polynomial, copying
    them in and reading them back; `constraint`: the constraint and value a query on one matrix
    puts on the concatenated polynomial.
  - `config`: the proof configuration and its univariate skip rounds.
- `tests/` runs the library on concrete values.
- `app/` connects the library to Plonky3 types and traits.

## Not here

The WHIR polynomial commitment scheme itself is not part of this crate: `WhirPcs` and
`WhirPcsKeccak` with their `commit`, `get_evaluations`, `open` and `verify`, the
`FieldHashFlavor` and `KeccakFlavor` markers, `LinearEqStatement` and `eq_r_per_matrix`.
They are built on the `whir-p3` and `p3-ml-pcs` crates, which are not available to this
build. What of that logic stands on its own is here: the
layout of the concatenated polynomial and reading matrices back from it (`concat`), and the
constraint a query on one matrix puts on the concatenation (`constraint`).
