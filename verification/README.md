# bplist

A reader and writer of binary property lists (`bplist00`), verified with Verus.

- `src/` is the verified library. `bytes` models big-endian numbers; `trailer`
  reads and writes the 32-byte trailer; `de` is the reader (a deserializer per
  object, found through the offset table); `ser` is the writer; `text` holds the
  string decoders of the standard library behind their contracts; `laws` and
  `tree` state and prove what the reader gives back of what the writer wrote,
  object by object and for whole trees of values, at any reference size and
  with any larger nesting budget.
- `app/` implements the `serde` traits over the library (`from_slice`, `to_vec`),
  and does the floating-point conversions of reals and dates.
- `tests/` exercises the library on concrete property lists.
