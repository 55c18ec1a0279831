# cf_dialect

A control-flow dialect over a region-based SSA intermediate representation: branches, loops over
one or several index ranges, choices and inline regions, with their construction, checking,
textual form and lowering to the LLVM dialect.

- `src/ir` is the representation: operations in blocks in regions, a context that changes it and
  keeps a journal of what it did, and a rewriter.
- `src/cf/ops` holds the operations, `src/cf/verify.rs` checks them, `src/cf/syntax` reads and
  writes them.
- `src/cf/to_llvm` lowers them. Each lowering states the representation that it leaves as a
  function of the one that it found. `forwarding.rs` states that a lowering keeps what branches
  forward to their targets, where an index counts as the 64-bit integer that it becomes, and
  `typing.rs` that it is right to begin with if the check finds nothing wrong; `progress.rs` states
  that what passes its check can be lowered, and that a lowering leaves less to be lowered.
- `src/cf/semantics.rs` says what running the operations means. `src/cf/to_llvm/meaning` states
  that lowering any one of them keeps what the program around it means, adds nothing to it
  (`program.rs`, `exact.rs`), and leaves all others in order (`shapes.rs`). `conversion.rs` puts
  this together for the conversion as a whole, step by step, in whatever order operations are
  lowered and types converted: it keeps what the program means and what branches forward, and
  misses nothing; `ending.rs` states how many lowerings it takes. `single.rs` states that a program
  with a loop over a single dimension and the one with the plain loop do the same, before the
  conversion and after it.
- `app` carries all this over to pliron: it mirrors a part of pliron's data, lets the library
  decide, and replays the journal.
