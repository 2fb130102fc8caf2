# curp_log

The in-memory log of a node of a CURP cluster, as a Verus library.

- `src/` is the library. `model.rs` gives the log as a mathematical value and says what each
  operation makes of it; `log.rs` and `append.rs` hold the operations, whose contracts are stated
  over that value; `laws.rs` proves what holds of several operations together.
- `tests/` runs the library on concrete values.
- `app/` is the ordinary Rust around it: serialisation of commands, diagnostics, the operations with
  their conditions tested at run time, and the reactions to a change of role carried out on a lease
  storage and an auto compactor.

Entries have consecutive indexes behind a compacted prefix and are sent in batches. The batch from
an entry takes the entries that follow as long as their encoded sizes stay within a limit; an entry
that alone exceeds the limit is a batch of its own. A command comes with its encoding, and the size
of an entry is that of a fixed header and of these bytes.
