# Caixa Preta do Dia — verified core

The library behind a Windows application that records where the day's focus
went: the VDI window, the active Chrome tab, local applications, inactivity,
pauses and unobserved time. Everything that decides what is recorded and what
a day adds up to is written in Verus and proved against its contracts.

- `src/sessions.rs` — activities, stamps, the local calendar (through chrono),
  segments and the records of a day.
- `src/recorder.rs` — the recorder: gaps, clock adjustments, midnight splits,
  accesses and checkpoints, with the laws it keeps.
- `src/store.rs` — the database as a value, with a journal of the changes that
  the storage layer writes to disk in order.
- `src/report.rs`, `src/tally.rs` — the day report and its sorted totals.
- `src/tracker.rs` — what the foreground window stands for.
- `src/runtime.rs` — the collector's decisions on each tick.
- `src/bridge.rs` — frames and messages of the browser bridge.
- `app/` — SQLite, JSON, the Windows bindings, the named pipe and the threads.
