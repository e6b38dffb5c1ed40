# aw-kimai-bridge

A bridge that turns [ActivityWatch](https://activitywatch.net/) window events
into [Kimai](https://www.kimai.org/) timesheet entries, plus `aw-kimai-admin`,
a small CLI for Kimai customers, projects and activities.

The decisions of the bridge are a Verus library with machine-checked
contracts; the program around it only talks to the outside world.

## Layout

- `src/` — the verified library (`aw_kimai_bridge`):
  - `afk` — away-from-keyboard intervals and clipping window events against them;
  - `classifier` — first-match-wins regex rules (matching is the `regex` crate's);
  - `merger` — chronological merging of classified events into time blocks and
    their descriptions;
  - `sync` — one sync cycle: planning the blocks and moving the cursor after
    the pushes;
  - `kimai_client`, `aw_client`, `config`, `state`, `service` — request bodies,
    URLs, configuration checks, the persisted state, the service files;
  - `admin` — the admin CLI's table layout, setup-wizard checks, the config
    file it writes and the bootstrap blueprint;
  - `text` — verified string helpers.
- `tests/` — tests run against the compiled library.
- `app/` — `main`, HTTP, files, prompts and the async loop (not verified).

Times inside the library are integers: epoch milliseconds and millisecond
durations.
