# nnue

Reading NNUE chess evaluation networks and computing their first layer, with
every function of the library proved by Verus against its contract.

- `src/types/`: squares and bitboards (`Bboard`), pieces and positions
  (`Position`), algebraic notation, and the network types with their views.
- `src/features.rs`: HalfKA feature indices (`make_index`) and the laws of their
  mirrors, their range and the shared king category.
- `src/accumulator.rs`: the accumulator and its refresh from a position.
- `src/parser/`: a byte cursor (`reader.rs`, `readers.rs`) whose reads are
  specified over the bytes and the offset, including signed LEB128 blocks, and
  `parse_network`, which reads a whole network file held in memory.
- `app/`: reading a network file from disk, error reporting with `anyhow`, and
  `Display` for a bitboard.
- `tests/`: the library's tests.
