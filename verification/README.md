# stark_backend

A verified core of a STARK backend over the BabyBear field and its extension of degree four:
stacked commitments on the prover's side, and the verifier. Three parts of a verification are left
to implementations of the trait `SubProtocols`: the check of the sum over all interactions (GKR),
the reduction of column values to stacked columns, and the evaluation of univariate equality
polynomials and constraint graphs. The verifier states what it hands to them and what it makes of each reply.

Everything under `src/` is checked by Verus. The contracts are stated over mathematical models:
field elements are residues, matrices are cells, a Merkle tree is the tree that its leaves
determine, a transcript is a state that each operation maps to the next.

| modules | what they hold |
|---|---|
| `field`, `algebra`, `prime`, `bits`, `poly`, `multilinear` | the two fields, ring laws, evaluation of multilinear and univariate polynomials |
| `hasher`, `tree`, `digest_layers`, `poseidon2`, `multi_field`, `packed` | hashing and compression, Merkle trees as a mathematical object, sponges over packed field elements |
| `matrix`, `stacked_layout`, `layout_laws`, `stacked_pcs`, `reed_solomon`, `code_laws`, `merkle_tree`, `cpu_merkle`, `commitment` | laying traces out in one matrix, encoding it and committing to it |
| `transcript`, `cpu_transcript`, `config`, `codec`, `params`, `proofs`, `keys` | Fiat-Shamir transcripts, the Poseidon2 configuration, wire formats and the data of a proof |
| `verification` | the verifier: proof shape, batch constraints, WHIR, and the protocol as a whole |
| `meter`, `error` | compute-unit accounting and errors |

`app/` is ordinary Rust around the library: streams, error messages, serialisation, the search
for proof-of-work witnesses, and the counter of Solana. `tests/` runs the library from outside.

## Laws

Besides the contracts, public proof functions state what holds between functions. Among them:

- rows that a tree opens are accepted by the path check, and two different openings of one index
  under one root, with paths of one length, show a collision on their way up (`merkle_check`,
  `tree`);
- the sizes that the verifier checks fix the lengths of all paths, so what an accepted WHIR proof
  opens is bound by its commitments (`whir_binding`), and an accepted proof has passed every check
  (`acceptance`);
- the public values of AIRs without a trace change no outcome (`batch_laws`);
- stacked columns do not overlap, a view of the stacked matrix shows the trace that was put in, and
  the columns of a layout make that layout again (`stacked_layout`, `stacked_pcs`, `layout_laws`);
- row-major and column-major codewords have the same tree, and hashing rows in packs gives the
  same digests (`cpu_merkle`, `packed`);
- encoding works column by column, is linear in the messages and gives codewords of low degree,
  and committing row by row gives the tree of the code matrix (`code_laws`);
- folding values on a coset sets variables of the polynomial (`polynomial_fold`);
- interpolation gives polynomials back, and an honest sumcheck ends in the value at its point
  (`interpolation_laws`, `sumcheck_laws`);
- the final check of WHIR is a weighted sum over a hypercube, and a proof that follows the protocol
  is accepted (`final_check`, `whir_completeness`).

## What is trusted

Calls into other crates stand behind small functions marked `#[verifier::external_body]`, each
with a comment on what it claims: field operations of `p3-field`, the Poseidon2 permutation,
sponge and compression of `p3-baby-bear` and `p3-symmetric`, the duplex challenger of
`p3-challenger`, and the transform of `p3-dft`.
