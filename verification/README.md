# zresmon

A monitor for ZFS resilvers and scrubs in the terminal. It reads what the kernel
and `zpool` say of each pool, grades the health of the pool, and draws a gauge, the
vdev tree and a map of recent errors. It never changes a pool, holds no lock and
keeps nothing between two polls but where the user is looking.

The library is written in Verus. Everything that is parsed, decided or laid out is
a function from plain values to plain values with a contract that is proved. What
touches files, processes and the terminal is ordinary Rust around it.

## Layout

- `src/model.rs`: snapshots, vdev trees, progress, health grades, the retry policy
- `src/collect/`: the scan kstat, `zpool status -v` and `zpool events -v` as texts
- `src/app/`: merging the sources of a snapshot, the session and its keys, the
  frame, the one-shot report, decisions at start-up
- `src/ui.rs`, `src/surface.rs`, `src/style.rs`, `src/layout.rs`: labels, gauges,
  the error surface map, styled text, areas of the screen
- `src/demo.rs`: scripted pools for hosts without ZFS
- `src/text.rs`, `src/number.rs`, `src/decimal.rs`: texts and numbers as they are
  printed
- `src/binary64.rs`, `src/rounding.rs`, `src/bignat.rs`: arithmetic on the bits of
  IEEE 754 numbers, with exact rounding
- `app/`: the program
- `tests/`: tests on concrete values

## What is proved

Each public function states its result in `ensures`. Properties that span several
functions are the public proof functions whose names start with `law_`. Some of
them: no progress ratio is ever out of range or not a number, and progress never
runs backwards; the vdev tree holds every row that was printed, in order; the scan
kstat wins over any wording; an error falls into exactly one cell of the map; a
fault is never masked by a running scan; the selected pool stays selected wherever
it moves.

## What is trusted

Three things are believed without proof, each with its claim in a doc comment:
`String::push` and the system clock of the standard library, and `Layout::split` of
ratatui, which divides the screen.
