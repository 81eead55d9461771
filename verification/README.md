# jobgraph

A terminal viewer of the CPU load and memory use of a Slurm job, host by host.

- `src/` is the verified library (Verus): Slurm node-list expansion (`nodelist`), the
  values read from `sacct --json` output (`slurm`), the calendar days of a job (`dates`),
  the bookkeeping of usage records (`usage`), the decisions of the screen (`screen`), and
  the text and number helpers they use (`text`, `decimal`).
- `app/` is the program around it: command line, running `sacct`, reading JSON and CSV
  files, summing the floating-point usage values, and drawing with `tui`.
- `tests/` runs the library on concrete values.
