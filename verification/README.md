# legendre

Legendre polynomials and associated Legendre polynomials with exact rational
coefficients, verified with Verus.

- `src/` is the verified library. Rationals are carried as two's-complement
  bytes and every arithmetic operation is made by `num_rational` /
  `num_bigint`; the library proves that `Polynomial::new(n)` holds the
  closed-form coefficients of `P_n`, that differentiation, negation and
  evaluation do what their contracts say, and that the batch recurrence fills
  its triangle with the values of the associated Legendre polynomials
  (`scalar^m` times the polynomial part of `P_l^m` at `x`).
- `src/laws.rs`, `src/at_one.rs` and `src/recurrence.rs` hold the properties
  of the library as a whole: parity and symmetry, the values at `1` and `-1`,
  orders of derivatives and associated polynomials, and the agreement between
  the batch recurrence and the associated polynomials, and the factor
  `(-1)^(l+m)` that reflecting `x` puts on `P_l^m`.
- `app/` is the floating-point interface around it: conversions from and to
  `f64`, the `f64` polynomial with compensated summation, and the normalized
  associated Legendre polynomials.
