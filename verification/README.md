# btm

Blockchain Time Machine: incremental, downtime-free snapshots of a data
volume on zfs or btrfs, and rollback to the state of a chosen block height.

- `src/` — the verified library (Verus). It decides everything and runs
  nothing: which index gets a snapshot, which snapshots the `Fair` or
  `Fade` retention gives up, which snapshot a rollback restores, how the
  listing of each filesystem reads, and the exact shell commands. Each
  public function carries a contract; `src/laws.rs` proves what holds across
  them (retention bounds, nested densities, rollback choice, names that read
  back).
  - `lib.rs` — configuration (`BtmCfg`, `SnapMode`, `SnapAlgo`), its checks
    and the per-operation entry points, which take the output of the listing
    command as an argument.
  - `driver/` — the shared decisions (`mod.rs`) and the zfs and btrfs
    commands and listing parsers.
  - `text.rs` — trimming, decimal parsing and printing over characters.
- `app/` — runs the commands through `ruc::cmd::exec`, flushes caches with
  `nix`, and serves `External`-mode requests over a Unix abstract socket.
- `tests/` — unit tests of the library.
