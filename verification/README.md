# phirarec

Reads `.phirarec` replay files in the tphira-mp format: a 13-byte header
(`PHIRAREC`, a version, a compression byte) and a payload that is stored as it is
or compressed with Zstandard or DEFLATE, holding the record's ids, names, touch
frames and judge events. Encrypted Phira client recordings are recognised and
reported.

- `src/` is the library, written in Verus: every function carries a contract
  over the spec functions that say what each part of the file reads to, and
  `src/laws.rs`, `src/roundtrip.rs` and `src/truncation.rs` state and prove what
  holds across them.
- `tests/` runs the library on concrete files.
- `app/` is the part the desktop application uses: records with `f32` times and
  positions that serde can serialise, and errors as `anyhow` errors.
