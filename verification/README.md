# superseedr — verified torrent-manager core

The logic of a BitTorrent torrent manager, written in Verus and proved
against its contracts:

- `machine` / `machine_laws`: the torrent's state machine. `TorrentState`
  holds what the manager keeps for one torrent; `TorrentState::update` takes
  one `Action` (a peer, tracker, disk or timer event) and answers the
  `Effect`s for the runtime to carry out. Each event's outcome is stated by a
  `post_*` spec function, collected in `step`; every event keeps the state
  valid (`inv`), and a finished torrent stays settled. `admit_peer` is the
  guard applied before dialing a peer. The laws cover requeued work, pausing
  and resuming, and a finished torrent handing out no work.
- `block_manager` / `block_laws`: the global 16 KiB block grid, pending and
  held blocks, v1 piece assembly, rarity, and the laws tying these together.
- `state`, `peer`, `assign`, `session`, `lifecycle`, `tracker`, `geometry`, `disk`,
  `metrics`, `state_laws`: the rules the state machine is built from
  (bitfields, completion, priorities, choking, work assignment, tracker and
  peer backoff, v2 piece geometry and verification routing, disk retries).
- `metainfo`, `storage`, `deletion`, `probe`, `activity`, `text`: info hashes,
  tracker lists, piece-hash checks, download folders, deletion plans, probe
  outcomes and status lines.

Not every event of the manager goes through `update` yet: block arrival,
metadata and Merkle-proof handling, piece completion after a disk write,
the end of validation, periodic cleanup and user configuration are not
modelled as events; the rules they rest on stand as the helpers in the
modules above. A consistent state (`TorrentState::consistent`) stays
consistent on every event but the few listed in `disturbs`.

`app/` holds the unverified runtime: the loop that feeds events through
`update` and hands effects to an `EffectRunner`, file-system probes, the
asynchronous retry loop for disk work (with its start and finish events),
path conversions and floating-point speed smoothing.
