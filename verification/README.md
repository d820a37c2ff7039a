# lukes_os

The logic of a small x86_64 hobby kernel, verified with Verus, and the kernel around it.

- `src/` is the verified library:
  - `ramfs`: the in-memory filesystem (inode table, files as byte vectors, directories
    with entries kept in name order) with read, write, lookup, create, mkdir, readdir;
  - `pci`: PCI configuration addresses, register extraction and merging, and the bus
    scan as a state machine that asks for one configuration dword at a time;
  - `thread`, `scheduler`: thread identifiers, initial CPU contexts, and the
    round-robin scheduler's decisions (switch to the next thread, exit);
  - `keyboard`: scancode decoding through `pc_keyboard`;
  - `virtio`, `block`, `vfs`: VirtIO candidate selection and shared types.
- `app/` is the kernel: boot entry, locks around the global state, port I/O, the
  context switch in assembly, the VirtIO driver glue, and the `Inode`/`FileSystem`
  trait objects over the verified filesystem.
- `tests/` run the library on concrete values.
