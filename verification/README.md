# cupidmq

CupidMQ is a brokerless batch queue. Producers keep their messages locally
and announce backlog to a master; consumers ask the master for batches; the
master matches the two and the producer sends the batch straight to the
consumer.

## Layout

- `src/` — the library, written in Verus and verified:
  - `wire`, `protocol`: the frames on the wire, their encoders and decoders,
    and the round-trip laws between them;
  - `ring`, `accumulator`, `producer`: the producer's byte-capped rings,
    batching, what an assignment drains, and its link state;
  - `consumer`: the consumer's configuration and counters;
  - `producers`, `consumers`, `matcher`, `metrics`, `relay`: the master's
    registries, the matchmaking (backlog ranking, round-robin queue) and the
    state changes of each control event;
  - `config`: the configuration file, sizes, addresses and their resolution;
  - `text`, `buf`, `clock`: strings, shared byte buffers and time, with the
    few calls into std and `bytes` that the rest relies on.
- `app/` — the master program and the async clients: sockets, timers, the
  metrics HTTP server and the floating-point statistics. What they do to the
  master's and the clients' state, the retry choices and the counters go
  through the library; app/ keeps the sockets, timers and task plumbing.
- `tests/` — tests of the library.
