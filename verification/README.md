# zatlas

Structure analysis of source repositories: import graphs, resolution of
import specifiers to files, cycles, findings, a reading tour, baselines and
diagrams.

- `src/` is the library, verified with Verus. Every public function states
  what it returns over spec functions and views; laws that relate several
  functions are public proof functions beside them.
- `app/` is the `zatlas` command line: argument handling, the filesystem
  walk and git reads, the floating-point scores of the findings and of the
  tour's middle phase, and printing. It asks the library for every decision.
- `tests/` runs the library on concrete values.
