# cb_backend

The compute kernels and the training-session logic of a gradient-boosting backend, verified
with Verus.

- `src/` is the library. Every function states what it returns and is proved against it.
  - Elements: `channel`, `smooth`, `modular`. The kernels are generic in their element; `u64`
    is the raw fixed-point accumulator, `Fixed` the fixed-point number.
  - Kernels: `elementwise`, `loss`, `histogram`, `scan`, `segment`, `sort`, `partition`,
    `cindex`, `split`, `pairwise`.
  - Drivers: `ranking`, `multiclass`, `ordered`, `ctr`, `session`, with `config`, `coverage`,
    `guard`, `error`, `text`, `rng` and `warmup`.
  - Laws that span functions are public proof functions named `law_*`; those on histograms as
    a whole stand in `mass`.
- `tests/` runs the library on given values, with double-precision elements.
- `app/` holds double-precision elements, device buffers, the loop that grows trees, pairwise
  levels, and the warm-up thread.

One outside function is trusted: `bytemuck::pod_collect_to_vec`, in `src/ctr.rs`.
