# engine-metal

The residency machinery of a Metal inference engine, in Verus: how the routed
experts of a mixture, and the rows of a table that is gathered from, are held in
less device memory than they need.

- `src/` is the library. Every item of it is verified.
  - `experts/` plans the shared pool of expert seats, opens a tier over it and
    seats each segment's experts: the least-recently-used list, the prefill ring,
    the read-ahead and the counters.
  - `passing/` is the tier whose segments run in passes over a smaller pool.
  - `gather/` plans and runs the slab of gathered rows.
  - `device/` holds what is decided about a reservation's copies and the heaters.
  - The rest is shared: byte counts and other words of the environment, faults and
    their texts, routing vectors, mappings, the trace a plan is drawn from.
  - What holds across functions is stated in the public proof functions, most of
    them in files named `laws`.
- `tests/` runs the library on concrete values.
- `app/` is ordinary Rust around it: the Metal device, files, threads, logs and the
  environment.
