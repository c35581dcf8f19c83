# SRS: systematic Reed-Solomon erasure coding, verified

SRS encodes `k` data symbols into `k + m` symbols such that any `k` of them give
the data back. Symbols `0..k` are the data verbatim; only symbols `k..k + m` carry
redundancy. The library is written in Verus: every function states what it
returns, and Verus proves it.

| Field | Engine | `k + m` at most | Encode model | Symbol length |
| --- | --- | ---: | --- | --- |
| GF(256) | Standard Cauchy | 256 | block-final | any |
| GF(256) | Good Cauchy | 255 | incremental or block-final | any |
| GF(256) | Additive FFT | 256 | block-final | any |
| GF(65536) | Tower | 65535 | incremental | even |
| GF(65536) | Additive FFT | 65536 | block-final | even |

Every engine decodes streaming and block-final. A sender and a receiver must use
the same engine; `Profile::recommended` derives one from `(field, k, m)`.

## Layout

- `src/algebra` holds the mathematics: the two fields, sums and products,
  Lagrange interpolation, Cauchy systems, determinants, the novel polynomial
  basis, the Walsh transform, discrete logarithms.
- `src/codec.rs`, `src/stream.rs`, `src/error.rs` hold the traits, their
  contracts and the errors. A code is its geometry and its coefficients
  (`codec::Code`); a decoder's contract says that the output is the one message
  that explains the received symbols.
- `src/matrices`, `src/encoder`, `src/decoder`, `src/batch` are the GF(256)
  Cauchy engines, `src/tower` is the GF(65536) one.
- `src/afft` holds the evaluation codes: erasure locators, row recovery, strip
  encoding, targeted solves, and the choice between the two recovery paths.
- `src/selector.rs` dispatches on a `Profile` at run time.
- `src/laws.rs` states what holds across engines and calls;
  `src/encoder/feeding.rs` what an incremental encoder holds after any feeds, and
  `src/decoder/recency.rs` which recipes a cache holds after any uses.
- `app` is ordinary Rust for the host: standard errors, kernel detection, shared
  caches.

## What is trusted

Payload arithmetic comes from `fgf`, additive transforms from `butterfly-fft` and
dense inversion from `gfm`. Each call stands in a small function marked
`#[verifier::external_body]`, whose contract says in the library's own terms what
the call does. They are in `src/payload.rs`, `src/tower/payload.rs`,
`src/tower/butterfly.rs`, `src/afft/gf8.rs` and `src/afft/gf16.rs`.

Of the standard library three functions are trusted in the same way: `Vec::capacity`
and `Arc::clone` in `src/decoder/recipe.rs`, and `String::push_str` in
`src/error.rs`.
