# vyges_vt_swap

Threshold-voltage swapping for gate-level netlists: each cell moves to another Vt flavor of
the same logic function and footprint, trading leakage against setup timing.

`src/` is the verified library (Verus):

- `job.rs` reads the vt-swap keys of a `.vtswap` job (`group:`, `objective:`, `effort:`,
  `dont_touch:`) and matches `dont_touch` globs;
- `engine.rs` holds the swap loop's decisions as a state machine (`Swapper`): the caller
  reports what the static-timing engine says (setup met or not, the worst path, the
  instances; which candidate move scored best; whether a leakage trial was kept) and the
  machine answers with the next action;
- `emit.rs` writes the resized netlist as structural Verilog;
- `cli.rs` parses the command line;
- `text.rs` holds the character-level primitives (Unicode whitespace, trim, split).

`app/` is the program around it: file I/O, the timer (`vyges-sta-si`), whose slack and
leakage figures are floating point, and the reports.

`tests/` runs the library on concrete inputs.
