# Najm kernel

The logic of the Najm kernel, a hybrid kernel built around isolated execution
domains called Realms, written in Rust and verified with Verus.

- `src/` is the library. Every function in it has a contract that Verus proves,
  but for a few whose contract is trusted: in `text`, one specification of a
  `String` method and the wrappers around the conversions from UTF-8, and in
  `mm::paging`, the wrappers around the address arithmetic of the `x86_64` crate.
  Physical memory is a sequence of bytes, answers of the hardware are arguments,
  and what has to be done to the machine is returned as a value, so that page
  tables, loaders, the scheduler, system calls and the compositor can be
  reasoned about as ordinary functions. Laws that relate several functions are
  public proof functions named `law_...`, at the end of the module they are
  about.
- `app/` is the machine's side: the boot entry point, interrupt stubs, port
  accesses, register writes, locks and the global allocator. It performs what the
  library decides.
- `tests/` runs the library on concrete values.

| Module | What it decides |
|---|---|
| `abi` | system call numbers, errors, records, the address space layout, the archive format |
| `arch` | processor protections, the descriptor table's layout, the clock, crossing into user mode |
| `boot` | the boot sequence's checks and its verdict |
| `drivers` | keyboard and mouse, PCI, the real-time clock, the console |
| `fs` | the read-only file system over a mounted archive |
| `graphics` | pixels, themes, and the compositor with its trusted strip |
| `image`, `loader`, `mirage` | what loading an ELF or a PE image does to a process |
| `ipc` | message ports |
| `mm` | page tables, address spaces, frames, kernel stacks, access to user memory |
| `process`, `realm` | processes, their open files and their rights |
| `sched` | scheduling classes and the task scheduler |
| `security` | capabilities and SHA-256 |
| `store` | packages and what they may ask for |
| `syscall` | what each system call does |
