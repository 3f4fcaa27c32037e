# rmon

A terminal system monitor with disk benchmarking: panels for cpu, network,
disks, processes and memory; a process tree, per-process threads, live
filtering, kill, mouse support, and a sequential / random disk benchmark.

The monitor's logic is a Verus library, verified against its contracts:

- `src/text.rs` — character-level helpers (words, lines, trimming, digits).
- `src/collect.rs` — snapshot types and the parsers for the Linux `/proc` and
  `/sys` text formats.
- `src/darwin.rs` — the values the macOS system calls hand back (routing
  messages, tick arrays, vm counts, statfs and task records) turned into
  snapshot values.
- `src/deltas.rs` — rates between two snapshots, capped histories, idle clocks
  that hide quiet interfaces and disks.
- `src/monitor.rs` — process rows: sorting, filtering, the ppid tree, threads.
- `src/state.rs` — the application state and its transitions (keys, snapshots,
  bench and SMART events), with its well-formedness invariant.
- `src/mouse.rs` — screen geometry and the pointer's effect on the state.
- `src/bench.rs`, `src/smart.rs`, `src/update.rs`, `src/fetch.rs`,
  `src/fmt.rs` — benchmark options and statistics, `smartctl` JSON reading,
  release tags, system-info rows, and text formatting.

`app/` is the program around it: terminal drawing (ratatui), input, the
collector's file and system-call reads, the benchmark's timed I/O, and the
updater. `tests/` exercises the library on concrete values.
