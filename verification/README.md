# maxsim-lut

Asymmetric int8-query by fused-table MaxSim over packed residual codes: the
stage-2 scoring kernel of a ColBERT / PLAID-style late-interaction engine,
verified with Verus.

```text
q . token  =  q . centroid[cid]                   (optional; the host's stage-1 product)
           +  sum_d q_d * bucket_weight[code_d]   (int8 query by int8 table, integer MACs)
score      =  sum_q max_t (q . token_t) * inv_norm_t
```

A packed residual byte is turned directly into its `8/nbits` int8 bucket
weights. The scalar reference and five vector kernels (`neon-sdot`,
`neon-i8mm`, `avx2`, `avx2-vnni`, `avx512-vnni`) all meet one statement of what
a score is, so every path returns the same bits. A vector kernel follows the
arithmetic of the instructions it is named after and carries them out lane by
lane in safe code; it issues none of them.

The packed rows of a document must hold at least `n_tokens * row_stride` bytes:
the last row has its padding too.

## Layout

| path | what it holds |
|---|---|
| `src/packing.rs`, `src/bits.rs` | bit layouts of bucket indices; the ColBERT layout |
| `src/lut.rs` | the fused table and its nibble factorisation |
| `src/query.rs` | the quantised query in plane order, tiles and row pairs |
| `src/codes.rs`, `src/scorer.rs` | documents, shape validation, scoring, the laws of a score |
| `src/kernel/model.rs` | what a score is |
| `src/kernel/scalar.rs` | the scalar reference |
| `src/kernel/lanes.rs`, `src/kernel/token.rs` | vector instructions lane by lane; expansion and fold |
| `src/kernel/{neon,neon_i8mm,avx2,avx2_vnni,avx512}.rs` | the vector kernels |
| `src/kernel/dispatch.rs`, `src/kernel/calibrate.rs` | which kernel runs |
| `src/laws.rs` | what several calls return, side by side |
| `src/float.rs` | single-precision values as bit patterns, and the host's arithmetic |
| `app/` | the f32 interface: native arithmetic, CPU detection, environment, the process-wide decision |

Overrides, read once per process by `app/`:

```
MAXSIM_LUT_KERNEL=neon-i8mm     # pin by name
MAXSIM_LUT_NO_CALIBRATE=1       # take the first listed kernel, skip measuring
MAXSIM_LUT_FORCE_SCALAR=1       # the reference path
```
