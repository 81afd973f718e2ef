# maven_range

Version-range bounds and the Maven version-range grammar, verified with Verus.

- `src/range.rs`: `Direction`, `Edge` and `Interval<V>`, a one-sided bound on
  versions; `Interval::dedupe_union` keeps, of two bounds facing the same way,
  the one that admits every version the other admits. The proofs show that the
  kept bound admits exactly the union of the two, and that the choice commutes
  and associates. `version`, `edge` and `direction` read a bound's parts back,
  so a bound over a byte span can be rebuilt over the version it spans.
- `src/maven/range.rs`: the range grammar (`[1.0,2.0)`, `(,1.0]`, `[1.5]`,
  several intervals separated by commas) as a parser on bytes, with its
  grammar stated as spec functions. Where a version ends is handed in by the
  caller, one entry per byte offset, so any version syntax can be plugged in.
  Bounds come back over byte spans; compare them with `dedupe_union` only
  after rebuilding them over versions (`Interval::new(parse(span), b.edge(),
  b.direction())`), since spans compare as offsets.
- `tests/`: unit tests, and a comparison of the parser with the same grammar
  written with `winnow` combinators over every short text.
