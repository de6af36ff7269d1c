# oxihipo

Reader and writer for HIPO v6 event files, verified with Verus.

- `src/`: the library. Every on-disk structure (file header, record header, record layouts,
  events, banks, dictionary, trailer index) has a model over `Seq<u8>`; parsers and builders are
  proved against the models. Chains of files, filters, column sweeps, tags and the writer stand
  on those. Sources are anything that implements `ReadAt`; the writer hands out the bytes to
  store.
- `tests/`: tests on concrete files, built and read in memory.
- `app/`: files on disk, worker threads and floating-point numbers around the library.

Outside code that the proofs rest on: LZ4 (`lz4_flex`), gzip (`flate2`) and glob patterns
(`glob`). Each call stands in a small function marked `external_body`, whose doc comment says
what is taken from it.

Laws that span the library stand in files of their own:

- `src/write/round_trip.rs`, `src/write/column_round_trip.rs`, `src/write/layout_round_trip.rs`:
  a record gives back the events it was built from: byte for byte where it is one block; tag by
  tag and bank by bank where it splits events, as long as no event has two banks of one id, and
  for columns under the dictionary that it was written with.
- `src/write/file_round_trip.rs`: a file of fewer than 524,288 records, finished or not, opens
  with the schemas, tag names and record index that were written.
- `src/write/history.rs`: what is appended to such a file comes out again in order, in the sense
  above, from records that hold no more events than the options allow.
- `src/write/salvage.rs`: a file without its header is found again whole, unless it names tags and
  declares no schema.
- `src/read/order.rs`: walking a chain and looking events up by number agree, where every record
  can be read; for records in big-endian order, where the dictionaries agree on what they hold.
- `src/read/passing.rs`, `src/read/counts.rs`: a filter hands out only events with the banks it
  requires; a scan of ranges counts each event once, however they overlap.
- `src/read/determined.rs`: a column read has one result, however its work is shared out.
- `src/read/sweep_values.rs`: a sweep of a column hands out the bytes of its values, where records
  keep the column in step with their rows.
- `src/event/column_bank.rs`: a bank that is kept in columns is there whatever its streams hold; a
  column that cannot be read is lost alone.
- `src/read/occupancy.rs`: records counted apart and merged give the counts of all their events.
- `src/read/tagging.rs`: a tag that is patched in place is the tag that is read back.
