# bitkit

A verified library of small bit-level and numeric tools, with a command-line
front end.

- `src/` — the library, specified and proved with Verus: Hamming distances,
  bitwise choice/majority/rotations, primality and integer square roots,
  half-precision packing, Base64/Base85 encoders and their line-wrapped armor,
  SHA-512, signed arbitrary-precision hexadecimal integers, line diffs and
  reverse patches, and a snapshot store that records and reverts commits of a
  file tree.
- `tests/` — tests of the library on concrete values.
- `app/` — the command line: `bitkit <tool> ...` reads files, arguments and the
  `.scm` store, calls the library and prints the results.
