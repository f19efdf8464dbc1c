# ledger_pending

The engine that keeps pending holds: money reserved by a two-phase transfer until it is settled or
released. Decisions arrive in the order of a log. The engine writes each down, answers what is left of a
hold, and offers to release the holds whose time has run out.

`src/` is the library, verified with Verus. From the bottom up:

- `address`, `ledger`, `remainder`, `block`, `hash`, `prng`, `delay`, `stats`: the values everything else speaks of.
- `store`, `memory_store`, `volume`, `model`, `latency`, `cache`: what a volume promises, one in memory, the
  books of one made of files, one with a device's timing in front, and one with the blocks last read in hand.
- `slots`, `cascade`, `index`: where each hold's record is, in eight bytes a hold.
- `filling`, `tiers`, `owed`, `journal`, `traffic`, `record_log`: the records, from the writeback buffer to
  durable blocks.
- `budget`, `engine`: the holds and the groups they belong to, with their expiry by the day.
- `snapshot`, `policy`, `snapshots`, `recovery`: what a restart reads, how a dump is paced, and what both give
  back together with the rest of the log.
- `config`, `ports`, `overlay`, `lane`, `orderer`, `worker`, `footprint`: the engine as a sequencer meets it.
- `raft`: a stand-in for consensus that commits locally after a simulated round trip.

`app/` holds the threads, the queues and the files around the library.
