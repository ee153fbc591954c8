# mushroom

The decisions that a small kernel for confidential virtual machines makes, written in Rust and verified with Verus.

## Layout

- `src/addr.rs`, `src/error.rs`, `src/decimal.rs`, `src/queue.rs`: addresses, pages and frames, errors, numbers as text, queues
- `src/memory/`: page tables, pages that are shared until they are modified, temporary mappings, flushing of translations, and an allocator for objects of a fixed size
- `src/user/process/memory/`: the virtual memory of a process. `mapping.rs` describes single mappings, `state.rs` all mappings of an address space, `request.rs` how mappings are added, and `laws.rs` what holds of the whole. `page_map.rs` is a map from pages to values.
- `src/user/process/`: futexes, pipes, event counters, epoll, limits, threads and the dispatch of syscalls
- `src/fs/`: a file system in memory and one for the open file descriptors
- `src/async_io.rs`: notifications about I/O that has become possible
- `src/supervisor/`: exceptions that would need the hypervisor
- `tests/`: tests on concrete values
- `app/`: ordinary Rust that connects the library to the machine: registers, locks, futures and allocations

## Conventions

Every type with an invariant has a spec function `wf`. Contracts speak about views: an address space is a `Memory` (what is known about each page, and the page table), a file is a sequence of bytes, a directory is a sequence of names and nodes. Objects of the kernel that are referred to from several places are known by numbers.

Proof functions whose names start with `law_` state what holds across functions, such as that memory reads back what was written, that a copy of an address space is deep, or that objects of the allocator don't overlap.

Calls into other crates are behind small functions marked `external_body`. Their doc comments name the function that is called and say what is believed of it.
