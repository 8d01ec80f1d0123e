# wubi

A Wubi-2008 code lookup library, verified with Verus.

- `src/wubima.rs`: the codes of one word (one slot per code length), code
  validation, storing a code, and the lookup report.
- `src/dict.rs`: reading the Wubi dictionary (a code, then the words that have
  it) into a table of words and codes.
- `src/table.rs`: the immutable `phf` code table, laying it out from the
  dictionary, and the lookups on it.
- `src/history.rs`: the history of looked-up words with its cursor, loading
  and storing history files.
- `src/reply.rs`: the replies to the front end's requests.
- `src/text.rs`: decimal numbers, trimming and splitting on whitespace.

`app/main.rs` is a line-oriented front end: it reads the dictionary file
`新世纪五笔词库` at start-up, has the library lay it out as a `phf` map and
answers requests
`q <word>`, `l <file>`, `s <file>` and `n <word>` read from standard input.

The code table is laid out when the program starts, with
`phf_generator::generate_hash`, the same generator that `phf`'s code
generation uses; that is why `phf_generator` is a dependency.
