# mcapable_core

A verified core for reading and writing MCAP files, written in Verus. The
writer produces uncompressed files (a chunk compression setting is refused
with `UnsupportedCompression`). On the reading side the library holds the
decisions of the streams (messages, message metadata, records, chunks,
record metadata), random access to the n-th message, the choice of a parser
for a parsed stream, and the reading of chunk and message indexes; the
caller reads each record block and hands it over, and answers the channel,
message and record filters it is asked about. Compressed chunks are refused
when read.

- `src/` is the verified library: record encoding (`encode`, `format`) and
  decoding (`decode`), chunk buffering (`chunk`, `streams`), the file writer
  state machine (`writer`, `summary`, `sink`), rolling-file decisions
  (`rolling`), stream decisions (`stream`, `message_stream`, `message_filter`,
  `record_stream`, `parsed`), ROS1 definition parsing and message decoding
  (`ros1`, `text`), and typed decoding (`typed`). `read_back` proves that
  what the writer writes, chunked or not, the message stream and random
  access read back, over the vocabulary of `round_trip`.
  Outside code is reached through two trusted wrappers: `crc32fast::hash` and
  `std::str::from_utf8`.
- `app/` holds what cannot be verified: file sinks, the wall clock, sink
  factories that create and evict files, the loops that read record blocks
  and hand them to the stream steps, and the rebuilding of decoded ROS1
  tokens into `serde_json` values.
- `tests/` exercises the library on concrete values.
