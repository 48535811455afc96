# llamma_math

Curve LLAMMA (lending-liquidating AMM) pool math — swap quotes and spot
prices with wei-exact EVM integer semantics — written in Verus and proved
against its specifications.

Layout:

- `src/uint.rs` — 256-bit unsigned and signed integers (four 64-bit limbs);
  the arithmetic is delegated to `alloy_primitives` through small trusted
  wrappers whose contracts state each operation's EVM semantics.
- `src/constants.rs` — protocol constants.
- `src/core_math.rs` — integer square root, band prices, dynamic fee, the band
  invariant `get_y0` and band price `get_p`.
- `src/exp.rs` — the fixed-point exponential `wad_exp`.
- `src/swap.rs` — band traversal `calc_swap_out`, specified band by band, with
  the input-accounting, liquidity-bound, rounding, fee and structure laws.
- `src/swap_order.rs` — order laws: a larger input, or a lower fee, never
  pays out less (where no 256-bit computation wraps around).
- `src/pool.rs` — `LlammaPool`, `get_amount_out`, `spot_price`, and the
  order laws restated for quotes.
- `src/builder.rs` — `build_pool` from raw state.
- `src/immutables.rs` — reading the deploy-time constants from bytecode.
- `app/` — serde forms, `Display`, and `alloy_primitives` conversions.
