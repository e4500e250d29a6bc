# lseq

An LSeq: a sequence that several sites edit without coordination. Each site applies the
operations of all sites; the values of the sequence stand in a tree, and their identifiers
are the paths of that tree. The library is written in Verus, and its contracts are proved.

## How it is used

```rust
let mut lseq = LSeq::<char, u64>::new(10, 32, LSeqStrategy::Alternate);
let ctx = lseq.read_ctx().derive_add_ctx(100);
let op = lseq.insert('A', None, None, ctx);
if lseq.accepts(&op) {
    lseq.apply(op);
}
let values = lseq.read().val;
```

`apply` may be called with operations that `accepts` lets pass: an insert needs room between
its bounds, a delete must name an identifier. There is room wherever the upper bound comes
after the lower one, down to the deepest level.

## What is where

- `lseq`: the sequence itself, and its operations
- `state`: the model that the contracts speak of, and what each operation makes of it
- `tree`: the model of the tree, and its reading
- `nodes`, `walk`, `soundness`: the tree as it is stored, and walks over it
- `allocation`, `strategy`: where a new identifier goes
- `identifier`: paths and their order
- `actor`, `vclock`, `clock_order`, `ctx`: actors, vector clocks and the contexts of operations
- `between`, `laws`, `history`, `convergence`, `validity`, `clock_laws`: what holds of all
  sequences
- `text`: a sequence as text

`app/` adds what needs serde or `Display`.
