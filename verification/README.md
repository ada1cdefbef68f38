# diffable

Exact algebra, jets and the topology of finite covers for differential
geometry, with every operation proved against its contract by Verus.

- `src/` is the verified library. `algebra` holds the algebraic hierarchy
  (monoids to fields, with their laws as proof obligations), `residue` a
  concrete prime field, `tensor` and `kernels` tensor products and their
  coordinate kernels, `jet`, `elementary` and `transport` truncated Taylor
  jets, forward differentiation, the jets of the elementary functions and
  parallel transport by Picard iteration and the Magnus exponent, `dual`
  dual numbers as a ring, so that differentiated programs can be
  differentiated again (nested and directional derivatives, and the
  Christoffel symbols of a connection from its chart transition), `chart`
  the charts of a Lie group,
  `elimination` and `homology` integer elimination and abelianisation, and
  `presentation` and `nerve` group presentations, Tietze simplification and
  the fundamental group of the nerve of a cover.
- `tests/` runs the library on concrete values.
- `app/` holds what works on floating-point values or on process-wide
  state: real jets and their transcendental functions, adaptive step control
  of parallel transport, the metric geometry of a cover and its geodesic
  search, and the memo of node sets.
