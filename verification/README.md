# orionis

Orionis is a tracing engine: language agents capture function enters, exits and
exceptions, and the engine stores them per tenant, rebuilds timelines, and answers
dashboard queries (trace lists, clusters, failure statistics, regressions, service
graphs).

The library in `src/` holds the engine's and the agent's logic, written in Verus and
verified against its contracts:

- `models`: the trace event and summary types.
- `timeline`: structural hashing, span fingerprints, loop compression, integrity
  counts, state heatmaps and the finiteness check on span trees.
- `store`: tenant visibility, listing, retention, idempotent ingest planning, per-tenant usage,
  simulation rules and plugins.
- `aggregate`, `graph`: clusters, failure statistics, regressions and the service graph.
- `analysis`: flow-deviation alerts, root causes, performance tuning and replay snapshots.
- `ingest`: decoding of gRPC, heartbeat and OTLP payloads into trace events.
- `agent`: the agent's bounded buffer, retry backoff and trace-context headers.
- `cluster`: which node owns a trace (highest-weight consistent hashing) and routing.
- `wal`: the line framing of the write-ahead log.
- `auth`: the authentication decision for API requests.
- `text`, `hashing`, `sorting`: shared helpers.

`app/` is the program around it: the HTTP server, storage backends, the WAL file,
the agent runtime and the load generator. `tests/` runs the library on concrete values.
