# nwc

A converter for NetEase Minecraft worlds, built around a library that is
proved correct with Verus.

- `src/` is the verified library. Each function there has a `requires` /
  `ensures` contract, and the public proof functions named `law_*` state the
  properties that hold across calls. The modules cover the NBT root checks,
  Anvil region validation, LevelDB key recovery and XOR decryption, world
  detection and scoring, archive path safety, version parsing and
  comparison, backend output parsing, entity preservation plans and the
  conversion session table.
- Calls into outside crates (`regex`, `flate2`, `serde_json`, `zip`) go
  through small trusted wrappers. Each one has a doc comment that says what
  its contract claims.
- `tests/` runs the library on concrete values.
- `app/` is the unverified shell around the library: file system walks,
  zip extraction and creation, child processes, dialogs, logging and the
  command entry points.
