# wfmpsc

A multi-producer single-consumer byte queue: every producer owns a ring of
`L = 2^C` bytes inside one shared buffer of `S = T * L` bytes, and the single
consumer drains the rings one by one. Pushing performs a partial write when a
ring is full; a ring holds at most `L - 1` bytes so that a full ring can be
told from an empty one.

Layout:

- `src/index.rs`: index compression, masks, free space and element count of a
  ring, with their laws.
- `src/ring.rs`: the mathematical model of one ring and the laws of writing
  at its head and consuming at its tail.
- `src/model.rs`: what push and pop do to the queued bytes, and the
  first-in-first-out laws.
- `src/queue.rs`: the queue memory, the producer and consumer handles, and
  the constructors.
- `src/allocator.rs`: the allocator interface and a fixed-region stub.
- `app/main.rs`: a small program that creates a queue.
