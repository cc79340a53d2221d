# dendrite

The core of a BitTorrent engine, verified with Verus, and the engine around it.

- `src/` is the verified library. Nothing in it reads a clock, a file or a
  socket: times are nanoseconds that the caller passes in, and what has to be
  done is returned as actions.
  - Documents: bounded bencode decoding, metainfo of versions 1, 2 and hybrid,
    magnet links, hash trees and piece layers.
  - Pieces: where they lie in files, how they are verified, read and written,
    and the budgets for what is held in memory.
  - Peers: request pipelines, upload slots and credit, metadata exchange, and
    how connections begin.
  - Swarms: candidates, retention, handing out pieces, discovery, web seeds and
    the swarm's loop.
  - The engine: commands, actors, records and the payload paths they claim.
- `tests/` runs the library on concrete values.
- `app/` performs the actions: tasks, timers, HTTP, and the ratios that are
  floating-point numbers. Wire protocols, trackers, stores and piece pickers
  come from the daemon through the traits in `app/services.rs`.

Public proof functions whose names begin with `law_` state what holds of the
library as a whole. The outside functions it relies on stand behind small
wrappers, each documented with what is believed of it.
