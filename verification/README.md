# Coffin

A page-fencing global allocator that turns silent memory corruption into a
deterministic crash with a post-mortem.

Every allocation gets pages of its own next to an inaccessible guard page, so an
access past the end of a buffer faults at once. A freed buffer is sealed and its
address is not used again until it ages out of quarantine, so a use after free
faults too. The report on a fault says what happened and where the memory was
allocated and freed.

* `src/` is the verified core, written in Verus: the geometry of a fenced region,
  the registry with its quarantine, the classification of a fault, the text of
  the report, and what the environment variables mean. `src/laws.rs` states what
  holds of it as a whole: that overflows, underflows and uses after free are
  recognised, within the window of the quarantine.
* `app/` is the allocator itself: `mmap`, `mprotect`, signals, threads and
  output, around the core.
* `tests/` runs the core on concrete values.

| Variable                 | Meaning                                              | Default   |
|--------------------------|------------------------------------------------------|-----------|
| `COFFIN_PROTECT`         | `above` (catch overflows) or `below` (underflows)    | `above`   |
| `COFFIN_MAX_LIVE`        | registry slots, rounded up to a power of two         | `1048576` |
| `COFFIN_QUARANTINE`      | freed regions kept sealed before they are recycled   | `4096`    |
| `COFFIN_SYMBOLIZE`       | `1` to name the frames of the report                 | off       |
| `COFFIN_ON_FAULT`        | `abort` or `exit:<N>`: how the process ends          | `abort`   |
| `COFFIN_GITHUB_ANNOTATE` | `1` to write `::error` lines at source locations     | off       |
