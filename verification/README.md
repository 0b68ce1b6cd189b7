# gw2_overlay

The logic of a Guild Wars 2 desktop overlay (boss timers, pinned
achievements, Wizard's Vault periods, legendary crafting progress, account
inventory search), written in Verus with its behaviour stated in contracts
and proved.

## Layout

- `src/` — the verified library.
  - `timers/` — the boss and meta-event schedule, its validation, spawn and
    phase computations, the upcoming list and the events feed.
  - `legendary.rs` — recipe aggregation and the grouped, greedily allocated
    progress towards each legendary, with the laws that the group totals
    reconcile with the header totals.
  - `pinned.rs`, `notify.rs` — the Pinned view's layout and boss alerts that
    announce each spawn once.
  - `sync/` — progress diffs, Vault periods, inventory rows, definition
    pages, and which ids to fetch in which batches.
  - `api/` — the API key (format, storage encoding), permission checks,
    request paths and the retry policy.
  - `views.rs`, `settings.rs`, `todos.rs`, `builds.rs` — what the windows
    show and the settings they keep.
  - `sorting.rs`, `search.rs`, `text.rs` — the stable sort, first-match
    search and text helpers everything above builds on.
- `tests/` — tests of the library on concrete values.
- `app/` — the application around it: SQLite storage, the HTTP client,
  Windows DPAPI, the background sync loops, the floating-point scorer, and
  the command handlers.
