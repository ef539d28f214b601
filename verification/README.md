# smarthome

A deterministic, crash-resilient smart home automation daemon, with its
core proved correct in Verus.

Events flow one way: an adapter (Home Assistant or a mock feed) reports
device states; the ingestor resolves and de-duplicates them; the state
engine keeps actual, desired and confidence per device; the rule engine
turns changes into commands; the conflict resolver keeps the highest
priority command per device attribute; the dispatcher sends, retries and
confirms. A write-ahead log records every event, and on boot the daemon
replays it, waits for fresh reports and reconciles desired against actual.

## Layout

- `src/` — the verified library. Every decision of the daemon lives here,
  with its contract: device registry, ingestor, state engine, rule loading
  and evaluation, conflict resolution, reconciliation, command tracking,
  the WAL's sequencing and group commit, the desired-state store, the Home
  Assistant bridge's message handling, the UI's file edits, and config
  validation. Confidences are held as `f32` bit patterns and compared by
  IEEE rules proved on the bits.
- `tests/` — tests of the library on concrete values.
- `app/` — the daemon around it: file, SQLite, WebSocket and HTTP I/O, the
  async main loop, serde copies of the library's types, and the `f32`
  confidence-decay arithmetic.

## Running

```
daemon /etc/smarthome/config.toml
kill -USR1 $(pidof daemon)   # reload rules
```
