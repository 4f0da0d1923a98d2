# rlb

Reading, editing and writing RLB table files, with each step specified and
proved with Verus.

An RLB file is a container: a 32-byte header, a data blob, a relocation table
(the offsets in the blob that hold pointers), two lists of table records
(where a table starts and where its label starts) and a pool of labels. The
tables in the blob have fixed schemas, chosen by label; their string fields
point into a pool of NUL-terminated Shift-JIS strings at the start of the blob.

Layout of `src/`:

- `header`, `raw_file`, `be`: the container, read and written byte for byte.
- `relocation`, `string_pool`, `sjis`, `util`: pointer sites, the string pool,
  and the Shift-JIS conversions (through `encoding_rs`).
- `schema`, `field`, `value`, `codec`, `entry`, `table`: the table schemas and
  reading and writing entries and tables.
- `parse_context`, `collection`, `rlb_file`, `table_of_contents`, `row`: whole
  files, their tables of contents, and rows for building tables.
- `roundtrip`: proofs that written tables and files read back unchanged.

The tables of a file are kept in a `slotmap::SlotMap` behind a few trusted
wrappers in `collection`; a `TableId` is a table's position in the order the
tables were added, from which its key in the map follows.

`app/` holds displayable copies of the error and value types.
