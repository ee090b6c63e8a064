# Microscope Memory

The verified core of a binary cognitive memory engine, written in Verus.

- `src/` is the library. Each module holds a binary format, an integrity
  structure or a decision rule of the engine, with contracts over
  mathematical models and the laws that tie the functions together (proofs
  verify, loops close, parsers agree with their grammar, and files read
  back what was written). Each read-back law states the inputs it covers:
  some readers look ahead further than a record reaches, so a few stores
  do not come back whole. The neuroplasticity reader, for one, needs 36
  bytes left before it reads a 28-byte synapse, so a store whose last
  record is a synapse loses it.
- `tests/` run the library on concrete values.
- `app/` is the `microscope-mem` program around the library: files, the
  clock, the MCP server over stdio, and the engine's floating-point
  dynamics (growth, salience, resonance, ranking), which the library does
  not model.
