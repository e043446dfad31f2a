# extruded_profile

A convex profile of straight edges and circular arcs in the XZ plane, swept along Y, as a shape for
collision detection: support function, contact features, bounding volumes, scaling, and mass
properties. The library is written in Verus, and every function states in its contract exactly what
it returns.

- `scalar`: the scalars that everything is generic over. `Scalar` says what their operations mean,
  `Real` has the operations themselves, and `Lawful` what is known of their order and rounding.
- `fixed`: a fixed-point scalar, verified to be all three.
- `ideal`: the real numbers as a scalar, for proofs only.
- `vector`, `angle`, `arc`, `winding`, `polygon`: the geometry that the shape is made of.
- `profile`: the shape itself, its boundary, and its section.
- `support`, `feature`, `bounds`, `mass`, `shape`: what can be asked of it.
- `exact`, `steps`, `lattice`, `grid`: laws that hold to the last step in fixed point, and
  `accuracy`: how near its sine, cosine and arc tangent come to their series.
- `series`, `loops`, `moving`, `convex`, `cutting`, `models`, `reach`, `regular`, `turning`,
  `covering`, `circuit`, `outline`, `disc`: laws that hold but for rounding, stated of the real
  numbers.

Laws are the proof functions whose names start with `law_`.

`app/` holds the double-precision scalar, the stored form of a profile, and the queries that a
collision engine answers from the support function. A scalar that is implemented there is not
verified: that its operations are total, give the same result for the same values and obey the laws
of order and rounding is up to it and to IEEE 754.
