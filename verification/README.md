# spawnado

A benchmark for `posix_spawn(3C)`, optionally under thread contention. Its
logic is a Verus library; the program around it spawns and prints.

    spawnado -j 4 -n 1000 /bin/true
    spawnado --sweep 1,2,4-8,16
    spawnado --sweep 1-8 --csv > sweep.csv

## Layout

- `src/` is the verified library.
  - `sweep`, `plan`, `launch`, `command`: the options: thread counts, the
    command and its argument vector, what is said before the runs.
  - `spawn`: what to make of the results of `posix_spawn` and `waitpid`.
  - `order`, `stats`: sorting, mean, deviation and percentiles.
  - `report`, `summary`, `axis`, `plot`, `closing`: what is said of the runs.
  - `binary64`, `rounding`, `number`, `digits`, `decimal`, `units`:
    floating-point figures in integers, and how they are written.
  - `scan`, `text`, `quote`, `style`, `plain`: text.
- `tests/` runs the library, much of it against the floating point and the
  formatting of the standard library.
- `app/` is the program: arguments, processes, threads and the terminal.

Every figure is the binary64 number that floating-point arithmetic gives, step
by step: each operation is specified as its exact result rounded to the nearest
number with 53 significant bits, ties to even.
