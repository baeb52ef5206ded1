# oximedia

Media-graph, broadcast-graphics and HDR-metadata building blocks whose logic is
specified with `requires`/`ensures` contracts and proved with Verus.

- `src/` is the verified library. Each module states its behaviour over
  mathematical models (`Seq`, `Map`, `Set`, integers) and proves it, together
  with the laws that relate its operations (for instance, drop-frame timecode
  labels can be read back to their frame number, a clamped logo region lies
  inside its frame, a pooled frame can be taken again, and parameters read
  back what was written). Pixel computations that end in
  floating point (field and combing measures, motion-compensated averaging,
  edge responses) are computed exactly in integers here, and `app/` takes the
  final ratios. The `.cube`, CSV and `.3dl` LUT texts are read here too; the
  floats of the first two are handed on as the words they are written as.
- `app/` is the ordinary Rust around the library: floating-point measurement
  and conversion, LUT file reading and the floats of its words, text measurement with `ab_glyph` and `fontdue`,
  serde-enabled copies of the text descriptors, the HDR error type, and the
  reads of the clock, file paths and build configuration that the library
  takes as arguments.
- `tests/` exercises the library from outside, including comparisons against
  direct formulations of the same computations.
