# ostep_sim

Verified cores of the OSTEP homework simulators, written in Verus.

- `src/` is the library: each simulator's decisions and data structures
  (schedulers, free-space management, page replacement, address
  translation, process trees, RAID mapping, small file systems, AFS, and
  the x86-like thread machine), with contracts and laws proved by Verus.
- `app/` is the command-line program: option parsing, random draws,
  file reading and printing, calling the library for every decision.
- `tests/` runs the library on concrete cases.
