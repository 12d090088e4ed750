# sqware

The work domain of a small RISC-V kernel: tasks and teams, the harts that run them, the
places at which they wait, and the mail between them. The library is written in Rust and
verified with Verus.

## Layout

- `src/` is the library. Nothing in it touches a device: what a hart is to do next is handed
  out as a value (`Step`, `Stride`, `Handoff`, `Ipi`), and what the machine has found out
  (the time, which queues were locked, whether there was memory) comes in as one.
  - `task`, `team`, `loader`, `envcall`: tasks and teams, their first frames, their calls.
  - `scheduler`, `scheduler::lanes`: a floor of harts with queues, slices and work stealing;
    `scheduler::crowd`: that it goes down only when nobody is left; `scheduler::turns`: that
    everybody has a turn.
  - `room::scheduler`: a hall, in which sleepers have numbered deadlines.
  - `room::conductor::pit`: a hall with places to wait at, by address.
  - `room`: a room, in which every task has exactly one place. `room::messenger` holds
    waiting, waking, deadlines and the clock that keeps them, stopping and leaving; `room::scheduler::{hart, fetch, table,
    ident, beacon}` the harts; `room::conductor` the score that counts arrivals and leads
    the way down; `room::laws`, `room::count`, `room::lineage`, `room::turns` and
    `room::shutdown` what holds of every room.
  - `mail`: holes, noles, toles, poles, ports, rings, docks, and the pies that grant rights
    to them.
  - `unit`, `table`, `bits`, `tie`, `lifecycle`: chains of tasks, tables over a hash map,
    hart bitmaps, and the tie between the harts.
- `app/` is the machine around it: firmware calls, the console, the waits of tasks, the idle
  loop, the way down, and the machine code of kernel tasks.
- `tests/` run the library.

## What is trusted

`table::Index` wraps `hashbrown::HashMap`; its five operations carry contracts that are
believed, not proved. All else in `src/` is proved from them.
