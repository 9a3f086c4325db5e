# quark

The memory-management and container-filesystem pieces of a sandbox kernel,
written in Verus with their contracts proved.

- `block_alloc`: a pool of 4 KB pages with reference counts.
- `pma`: the page manager (pool plus the shared vsyscall pages) and the
  address-space operations: building an address space that shares the kernel
  half, the vsyscall path, remapping for anonymous and host memory, unmapping
  and tear-down (mappings taken down, table pages given back).
- `pagetable`: a 4-level x86-64 page table kept in pool pages, with its
  well-formedness invariant, its view (which leaf entry maps each page) and
  the proof that the view is what the MMU's walk finds.
- `flags`: entry flags, page options by access type, and the table indices
  of an address (computed by the `x86_64` crate).
- `path`, `mounts`, `fs`: lexical path cleaning and joining, mount-option
  parsing, and the plan of mounts that puts a container's filesystem below
  the sandbox root.
- `laws`: properties that relate several operations.

`app/` performs the planned mounts on the host and prints diagnostics.
