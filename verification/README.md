# samrewritten

The logic behind SamRewritten's GTK front end, as a Verus-verified library:
what the app-list grid shows and in which order, the queue that reads
achievement counts from Steam, the staged and timed unlocks, the activity
heatmap, the unlock timeline and its bursts, the change history and its
undo, and progress files.

- `src/` — the library; every function carries a contract that Verus proves.
- `tests/` — tests of the library on concrete values.
- `app/` — GTK, GLib and I/O glue around the library: gettext, the pipe to
  the orchestrator process, local time zones, floating-point figures and the
  timed unlock's event loop.
