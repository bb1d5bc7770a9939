# Jelly Alert server core

A service that reads Sonarr's v3 API, schedules Discord notifications for
episodes and whole seasons that have reached their air time without being in
the library, delivers each at most once, and offers a small JSON API.

The scheduling and delivery rules are a library verified with Verus; the
program around it does the network, database and HTTP work.

## Layout

- `src/` — the verified library.
  - `planner.rs`: which episode and season notifications a series needs, and when.
  - `store.rs`: the delivery ledger (settings, shows, notifications, announced
    episodes) and every operation on it: syncing shows, replanning, choosing the
    next notification, reserving, recording outcomes, listings.
  - `progress.rs`: the per-show progress page.
  - `service.rs`, `discord.rs`, `sonarr.rs`, `api.rs`, `config.rs`: the decisions
    of the workers, the webhook, the Sonarr client, the HTTP API and the
    configuration checks.
  - `model.rs`, `text.rs`: shared types and character-level helpers.
- `app/` — the executable: configuration file, SQLite persistence of the
  ledger, HTTP clients for Sonarr and Discord, the workers and the Axum API.
- `tests/` — tests of the library.

## Guarantees proved about the library

- A reserved notification is never reserved again, and an attempted one
  (sent, uncertain, failed or covered) is never delivered again.
- An episode announced once (alone or in a season notification) is never
  announced again.
- Nothing is reserved before its air time, or while its show is excluded,
  removed or in the other mode, or while the webhook is disabled or backing off.
- Rescans keep each show's exclusion and mode; replanning replaces only pending
  notifications and keeps their postponements.
- Plans never announce anything aired before the tracking start, never cover
  specials in season notifications, give every notification its own key, and
  keep every message within Discord's length limit.
