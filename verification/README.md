# ndarray_npz

Views of `.npz` archives (zip archives of `.npy` files) whose zip layout and CRC-32
bookkeeping are verified with Verus.

- `src/` is the verified library:
  - `bytes`: byte ranges within a buffer and little-endian integers read from it;
  - `checksum`: CRC-32 checksums (through `crc32fast`) and the checksum status;
  - `archive`: the entries of an archive as the `zip` crate reports them;
  - `view`: immutable views of the uncompressed members;
  - `layout`: where the regions of each member lie, and how the buffer is cut into disjoint
    pieces;
  - `view_mut`: mutable views, each over its own piece of the buffer;
  - `laws`: how the immutable and the mutable views of one archive relate.
- `app/` holds what stays outside the verifier: reading and writing archives of arrays
  through `zip` and `ndarray-npy`, the error types with `Display`, array views of the
  members, and updating outdated checksums when a mutable member view is dropped.
- `tests/` builds archives in memory and exercises the library.

Lookups by name go through plain vectors: the names of each kind are kept in `Vec<String>`
in archive order, searched from the front, with their distinctness stated as an invariant,
and the regions of the buffer are kept in a `Vec` sorted by start offset that a verified
insertion maintains. Maps and sets keyed by `String` are not used, since Verus proves
little about such keys.

A mutable view borrows each member's data, local CRC-32 and central CRC-32 as separate
pieces of the caller's buffer. The contract of `NpzViewMut::new` states what the buffer
holds once those borrows end: each region carries what its piece was left holding, and
every other byte is as before; a failed call leaves the buffer untouched.
