# mothcdc

Content-defined chunking with a recursive minimum search, verified with Verus.

The input is scanned in spans of at most 1024 bytes. Each span is scored by
its lowest four-byte window hash, and the spans are kept in a Cartesian tree
ordered by score. A cut falls right after the lowest-scoring window of the
best span that leaves room for the minimum chunk size on both sides; where a
cut lies more than the maximum chunk size past the previous one, the stretch
in between is cut the same way, recursively.

Layout of `src/`:

- `window.rs`: window values and hashes, and the search for the earliest
  lowest-scoring window of a slice.
- `arena.rs`: the slot map that holds tree nodes; the calls into `slotmap`
  are the crate's trusted items.
- `shape.rs`: the shape of a Cartesian tree over a sequence, by positions,
  and how each tree operation changes it.
- `cart_tree.rs`: the Cartesian tree (push and pop at both ends, split at the
  minimum) with contracts over the sequence it holds, and its laws.
- `chunk.rs`: chunks, what it means for chunks to tile the input, and the law
  that tiling chunks join back into the input.
- `recursive.rs`: scored spans (`MinChunk`) and the chunker
  (`SliceRecMinCdcHash4`).  `top_cuts` and `rec_cuts` describe, round by
  round, the spans the scan lays down, how they are trimmed, and where each
  round cuts; `chunks` ensures that the chunk ends it returns are exactly
  those cuts.  Each round takes the lowest-scoring span, and of several
  equally low spans the one that joined the tree first; a span narrowed at
  an edge of the stretch joins anew.  With a minimum chunk size of at least
  1024 bytes every round finds a span to cut in; with a smaller one some
  inputs leave a search without a span.  `try_chunks` returns `None`
  exactly there (`runs_through` fails), and `chunks` asks for settings
  where it cannot happen.

`tests/` runs the library on concrete inputs.
