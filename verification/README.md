# iot_metrics

Verified core of a seismic / environmental sensor network, written in Verus.

`src/` is the library, every function proved against its contract:

- `ieee` — `>=` on binary32 and `==` on binary64 values given as bit patterns.
- `metrics` — per-metric classification against warning/alert thresholds and the
  worst-of overall status of a reading, with laws on severity.
- `ingest` — the decisions of the ingest endpoint: position changes and the
  station writes they call for, the edges and sensors still to register, the
  cache of what has been written, and the readings of a payload to insert
  (deduplicated on edge, sensor and timestamp, through a hash set of packed
  integer keys).
- `round` — one ingest request as a state machine: the caller performs each
  action and reports success or failure; the cache takes in a step's writes
  only once they succeeded.
- `frame` — decoding and stamping of the 184-byte binary packet an edge device sends.
- `sync` — the replication worker's state machine and the primary's apply order.
- `service` — query limits, error messages, log file names and log lines.
- `text` — string equality.

`app/` holds the programs around it (the backend HTTP server, the primary
replication endpoint, the replication worker and the station client): the
database queries, HTTP, TCP, timers and the floating-point acceleration
magnitude. `tests/` exercises the library on concrete values.
