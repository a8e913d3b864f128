# iwaks

The core of the Iwaks offline music player as a Verus-verified Rust library,
with the desktop plumbing around it.

- `src/` — the verified library. Each module states its behaviour over
  mathematical models (`Seq`, `Option`, spec functions) and proves it:
  - `fts` — full-text search query text from free-form input;
  - `scan` — supported audio files, change detection, scan counters and
    pruning candidates;
  - `track`, `time` — track records with title fallbacks, `m:ss` durations;
  - `queue` — the playback queue: repeat modes and the seeded shuffle;
  - `transport` — every playback decision of the player thread, as a
    function from state and command to new state and effect;
  - `playlist` — playlist names, `.m3u` export/import and path keys,
    database schema migration plan;
  - `lrc`, `tags` — lyrics structure, lyrics sources, album-art choice and
    its `data:` URL;
  - `text`, `paths` — character and path primitives used by the above.
- `app/` — ordinary Rust around the library: SQLite storage (`rusqlite`),
  folder walking (`walkdir`), tag I/O (`lofty`), libmpv playback
  (`libloading`), the spectrum analyzer (`symphonia`, `rustfft`) and
  serializable copies of the library types.
- `tests/` — tests of the library on concrete values.
