# promptmeter

Token estimates, prompt-prefix fingerprints and usage accounting for a
language-model proxy.

- `src/` is the library. Its contracts are proved with Verus.
  - `text`, `json`, `digest`, `calendar`, `ratio`: strings, JSON text, digests,
    dates and binary64 shares.
  - `messages`, `token`, `remote`: requests, their token estimates and the
    remote counter.
  - `canonical`, `profile`, `fingerprint`: which prefix of a request an account
    already sent, and how it is charged.
  - `pricing`, `selection`, `usage`: prices, and usage records kept, summed up
    and shown in pages.
  - `fingerprint_laws`, `usage_laws`, `summary_laws`: what holds across operations.
- `tests/` runs the library.
- `app/` is ordinary Rust around it: files, locks, timers, the network and sums
  of money, which are floating point.

Amounts of money pass through the library as the bits of binary64 numbers; it
selects and orders them, and `app/` adds them up.
