# lightning_core

The decision-making core of a Fleek Network node's connection pool and
reputation system, written in Verus and proved against its contracts.

## Layout

- `src/` — the verified library.
  - `logical_pool` — which peers the pool keeps connections to, pinned by
    traffic or asked for by the topology; topology changes, requests,
    broadcasts and redials after a connection closes.
  - `broadcast` — the peers the broadcast service sends to.
  - `endpoint` — the table of transport connections (one primary and one
    redundant per peer, told apart by connection id), the dials under way,
    the requests that wait for a connection, and what a topology update,
    a new connection or a failed dial asks of the endpoint.
  - `connector` — the socket address dialed for a peer's multiaddress.
  - `state`, `muxer` — connection statistics, dial bookkeeping and back-off,
    stream ids of a multiplexed connection.
  - `pinger` — the ping wire format and the bookkeeping of pings in flight.
  - `provider` — the framing of pool messages and of request statuses.
  - `resolver` — the records of resolved pointers: those a node publishes,
    and the distinct pointers kept under each content hash.
  - `measurements`, `summary`, `manager` — per-peer measurements, the
    summary statistics over all peers, and the LRU-bounded measurement
    manager that keeps both in step.
  - `aggregator` — splitting the measurements into transactions.
  - `buffered` — the batching of a buffered channel: what a sender hands
    over and what a receiver gives out, first in, first out.
  - `fixed`, `statistics`, `reputation` — fixed-point arithmetic with
    eighteen decimal places, the statistics built on it, and the reputation
    score computed from the measurements other nodes report.
- `tests/` — tests run against the compiled library.
- `app/` — what the library leaves to its caller: the floating-point parts of
  the measurement manager (transfer bandwidth and the local reputation
  moving average) and conversions from `std` types.

The library uses the `lru` crate for the measurement cache and the
`multiaddr` crate to read multiaddresses; `app/` uses `scc` for the shared
table of local reputation scores.
