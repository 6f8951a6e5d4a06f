# pob_optimizer

A search for good allocations of a passive skill tree. Starting from the class
start, a beam grows connected sets of nodes within a point budget, by single steps
and by jumps to far notables; an elimination diet then bans what contributes least
and grows again. What a set of nodes is worth is asked of a scoring engine, in
batches. What it answers is kept, and no batch holds a set whose worth is known.

`src/` is the verified library:

* `graph`, `params`, `config`, `signature`: what the host passes in.
* `double`: floating-point numbers by their bits.
* `paths`, `reach`, `node_index`, `sweep`, `pathfinder`, `heap`: shortest routes.
* `scorer`, `plan`, `course`, `expand`, `pass`, `seed`, `margin`, `diet`, `beam`:
  the search. The `spec` side of `course`, `diet` and `beam` says what it finds.
* `cache`: what was scored, as bytes that outlive a run.
* `pool`, `host`: what is made of the workers' reports and of the host's arguments.
* `laws`, `soundness`, `slope`: what holds of the search and of its scores as a whole.
* `fx`: the hash tables of `rustc_hash`, whose contracts are trusted.

`app/` holds the C interface, the worker threads, the LuaJIT binding and the files.
