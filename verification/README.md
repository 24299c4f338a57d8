# compressors

LZ77 and LZ78 byte compressors whose encoders and decoders are verified with
Verus, and a small command-line program around them.

- `src/algorithms/lz77.rs`: LZ77 with a 32 KiB sliding window and nine-byte
  codes; `find_match`, `compress`, `validate`, `decompress`, and the proof
  that decompression undoes compression whenever no byte is lost as an end
  mark.
- `src/algorithms/lz78.rs`: LZ78 with five-byte codes; the same functions and
  laws, with the dictionary kept as a hash map from (phrase index, byte) to
  phrase index.
- `src/algorithms/le_bytes.rs`: the little-endian `u32` fields of the codes,
  written and read through the `byteorder` crate.
- `src/io_controller.rs`, `src/readfile.rs`: the decisions of two chunked
  readers (one read per chunk, or as many reads as a chunk takes); the reads
  themselves happen in `app/`.
- `app/`: file handling and the command line.
