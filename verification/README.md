# tensorfs_core

The verified core of a content-addressed store for model files. Tensor
containers are cut into objects along their tensors, snapshots name those
objects in one canonical manifest, and packs carry them over a wire.

`src/` is the library. Verus proves every function in it against its contract;
`src/trusted.rs` holds all that the proofs take on trust.

- `planner`, `object`, `hashrepo`: how a file is cut into objects and hashed.
- `tfm1`: the snapshot manifest, its builder, its decoder and their laws.
- `tfp1`: the transport pack.
- `contract`, `contract_changes`, `contract_rendering`, `pattern`, `fusion`,
  `verdict`: layout contracts, how they are told apart, and what they say of a
  model's tensors.
- `adapter`, `layout_morphism`, `layout_fill`, `layout_fill_laws`: where each
  element of a converted tensor comes from and goes to.
- `compose`: renaming and trimming a container without rewriting its tensors.
- `workspace`: the tree of a workspace, its mutations, sealing and collection.
- `store`, `stream`, `layout`, `sync`: the rules of the object store, of
  streamed reads, of projected trees and of synchronisation.
- `arith`, `digest_index`, `radix`, `sort`, `text`, `wire`: what the others
  share.

`app/` does the reading, writing, locking and sending, and asks the library for
every decision. `tests/` runs the library on concrete values.
