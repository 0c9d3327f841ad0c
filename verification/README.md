# wfc

Overlapping-model wave function collapse, written in Verus.

`src/` is the verified library:

- `dimensions` — extents of N axes, flat indices and coordinates (axis 0 fastest);
- `simple_bit_set` — fixed-capacity sets of small integers stored in 64-bit words;
- `sampled` — a grid of interned values, sampled from a function, and decoding a
  solution back into such a grid;
- `pattern`, `direction` — patterns, their mirror images and quarter turns, and when two
  patterns may stand next to each other;
- `preprocessing` — learning patterns, their weights and the adjacency rules from a
  sampled input;
- `rule_model`, `compiled_model` — the learned model, its validation, and the checked form
  the solver runs on;
- `cell`, `wfc_state`, `solver`, `solver_run_configuration` — collapsing a cell by a
  weighted roll, propagating what that rules out, running steps until every cell is
  collapsed, and retrying a run with the next seed after a contradiction;
- `text` — decimal rendering for the error messages;
- `random` — the random number generator of the `rand` crate, labelled with the seed it
  was made from, behind two small trusted functions.

`tests/` exercises the library. `app/` is the command line program: it reads and writes
images with the `image` crate, and answers the solver's requests for the next cell to
collapse by Shannon entropy, in floating point.
