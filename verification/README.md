# bn6f_harness

Tooling for checking the MMBN6F decompilation against the retail game:
per-frame pixel hashes of movie playback, per-patch validation runs, and
function-entry tracking.

The library under `src/` holds the decisions and formats of these tools, each
function with a contract proved by Verus:

- `bios` — the never-HLE gate: CRC32 and the official-image check.
- `emu`, `isolate` — register views of the CPU, stepping to a PC, and the
  stepping decisions of an isolated run of a captured call.
- `tracker`, `entries`, `report` — the per-instruction tracker (hits, calls,
  matched returns, call edges, captures) and its report.
- `frames`, `compare`, `verdict` — movie inputs, frame hashing, hash files,
  their comparison and the verdict line read back.
- `orchestrate`, `summary`, `discover` — patch lists, selection, file naming,
  job lists, run summaries and the inputs found on disk.
- `record`, `replay` — how captured pairs are numbered and filed, and how a
  replay of them is tallied and reported.
- `fleet`, `fleet_run`, `cache`, `cache_run`, `radius` — the fleet run over
  many bk2 movies: targets, cached slots, the per-bk2 cache run, call-graph
  radius hashes, pass records and the run's state machine.
- `pilot`, `screenshot` — scripted keypad input and PNG screenshots.
- `symbols`, `symtab`, `text`, `num`, `hex`, `strorder`, `sorting` — parsing
  and ordering helpers.

`app/` is the command-line program around the library: argument handling,
files, subprocesses, and the libmgba emulator binding. It offers `boot`,
`hash`, `video`, `compare`, `run`, `smoke`, `track` and `pilot`. The
capture, replay and fleet commands need the snapshot file format (entry
snapshots and exit deltas), which the program does not have; their
decisions live in the library, ready for a driver that has it.
