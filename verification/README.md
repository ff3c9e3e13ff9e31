# lib

The decision-making core of a small x86-64 teaching kernel, its user
programs and its `mkfs` tool, written in Verus and proved against
contracts over mathematical models.

- `src/` is the verified library: physical page allocator, four-level page
  tables (`vm`, `mapping`, `address_space`, `uvm`, `uvmcopy`), program loading
  (`elf`, `exec`), processes and scheduling decisions (`proc`, `sleeplock`),
  traps and system-call argument handling (`trap`, `syscall`), files, pipes
  and the console (`file`, `pipe`, `console`), the buffer cache and the
  on-disk file system format (`bio`, `fs`, `log`, `mkfs`), device register
  logic (`uart`, `pci`, `virtio`, `gdt`), the user-space heap (`heap`) and the
  computing parts of the user programs (`user`). Laws that relate several
  operations are public proof functions named `law_*`.
- `tests/` runs the library on concrete values.
- `app/` is ordinary Rust around the library: port and memory-mapped I/O,
  locks, the boot path, the scheduler loop, trap entry, the disk driver's
  polling loop, the user programs' system calls and the host-side `mkfs`
  file output.
