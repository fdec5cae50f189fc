# srmp

A library for cost function networks (weighted constraint satisfaction problems) and the
SRMP message-passing algorithm, verified with Verus, and a command line program around it.

- `src/` is the verified library: the networks (`cfn`, `cfns`), reading and writing the UAI
  format, the minimal-edges relaxation and the bookkeeping of the SRMP passes and runs
  (`cfn::relaxation`, `cfn::srmp`, `cfn::schedule`), the index tables that align the
  function tables of factors (`messages`, `message`), hypergraphs, jagged and compressed
  tables, binary CSPs with AC-3 (`csp`), and the frustrated cycles of OSAC (`osac`).
- `tests/` exercises the library.
- `app/` is the program: it reads UAI files, runs SRMP with floating-point messages, converts
  UAI files, and solves the OSAC linear program of a frustrated cycle with `good_lp`.
