# hadamard_core

A hybrid query engine whose logic is written and proved in Verus.

- `src/compiler`: the pseudo-SQL front end (`SELECT * FROM c WHERE f op v`),
  the compilation of a query into its search circuit, the peephole
  optimiser, and the OpenQASM 3.0 and QIR translations.
- `src/storage`: record sharding into byte buffers and named collections,
  and a capacity-bounded byte cache with per-entry time to live.
- `src/engine.rs`: decoding stored shards back into records and running a
  compiled query over them.
- `src/algorithms`: record encryption, the search kernel and the
  variational ansatz layout.
- `src/drivers`: the payloads each cloud back end takes, job status
  reading and the decisions of the polling loop.
- `app/`: the TCP daemon, the asynchronous locks around the engine and
  cache, the HTTP dispatch to the cloud back ends, and the floating-point
  kernels (iteration count, machine learning, variational optimisation).
