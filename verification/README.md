# umwelt

Interest management for large shared worlds: which entities each observer is
told about, how they are packed into a datagram, and how the servers that hold
a world agree on who owns what. Written in Verus, with every function of the
library verified against its contract.

## What is where

| | |
|---|---|
| `src/fixed.rs`, `src/pos.rs`, `src/config.rs` | Q22.10 lengths, positions in a region and in the world, and the world's geometry |
| `src/map.rs` | which region sits on which square of the world |
| `src/snapshot.rs`, `src/subscription.rs`, `src/gather.rs` | who stands in which cell, and who an observer can see |
| `src/ghost.rs`, `src/budget.rs`, `src/codec.rs`, `src/packet.rs` | what an observer already holds, how many fit, and the bytes they become |
| `src/odometer.rs` | how far everything has travelled |
| `src/net/region/` | the link between a region and its edges |
| `src/net/edge/` | an edge: its state, its clients, and the protocol they speak |
| `src/net/edge/laws.rs` | what every step an edge takes keeps true |
| `app/` | the network, the clock, threads, and what is printed with fractions |
| `tests/` | the library run on values |

An edge and a region are each a value. What happened is a call on it, and what
is to be said is handed back, so nothing in `src/` waits, sends or reads a
clock: times are nanoseconds passed in, and `app/` performs what the library
decides.

Facts that relate several functions are public proof functions whose names
begin with `law_`.

## What is taken on trust

- `src/net/octets.rs`: three calls into `bytes`, which keep, slice and copy a
  buffer.
- `src/net/control.rs`: `core::str::from_utf8`.
- `src/gather.rs`: `Vec::capacity`, of which only that it is at least the
  length is used.
