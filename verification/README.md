# dep-graph read analytics

Read-side analytics over one block's access list, verified with Verus.

- `src/primitives.rs` — addresses and 32-byte words as big-endian words;
  their order is proved to be byte order.
- `src/block.rs` — the access list: read set, writes with their positions,
  touched accounts.
- `src/tally.rs` — counts per storage slot and per account.
- `src/order.rs` — the order each report lists its rows in, and a verified
  insertion sort into it.
- `src/analytics.rs` — the seven reports and `compute_read_analytics`.
- `src/laws.rs` — how the reports of one block relate.
- `app/` — conversions from `alloy_primitives` values, and the read ratio
  as a floating-point number.
