# arbitro-client

Client for the Arbitro message broker: a verified library and the Tokio code
around it.

`src/` is the library, written in Verus. It does no I/O. Callers hand it what
was read and the time, and it hands back what to write and what to do next.

- `ackstore` — which messages have been processed, kept in an append-only log:
  record format, replay, snapshots, compaction, expiry, and what a restart
  brings back
- `ackrel` — acks that could not be sent yet, per consumer
- `state` — subscriptions and subject filters, requests in flight, numbers
- `conn` — handshake, reconnecting, heartbeat
- `transport` — cutting the byte stream into frames, telling frames apart, the
  broker's view of acks
- `consume` — delivery frames, routing, recognising redeliveries, batching acks
- `publish`, `client`, `config`, `stream_builder`, `consumer_builder`, `queue`,
  `group` — publishing, connecting, managing streams and consumers
- `service` — request and reply between named services
- `workflow` — steps, suspension, retries and compensation
- `cron` — scheduled jobs

`app/` holds sockets, TLS, files, SQLite, tasks and channels. The byte layout of
outgoing frames comes from an implementation of its `Codec` trait.

`tests/` exercises the library on concrete values.
