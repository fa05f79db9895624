# stpro: Series Tracker Pro

stpro reads the files you used recently, flags those whose names carry an
`S01E02`-style episode marker (case-insensitive), and groups them into
series: what you watched last in each show, and what comes next.

The library under `src/` is written in Verus and verified. Each function
says in its contract what it computes:

- `text`: character-level helpers (decimal formatting, string order,
  case mapping through std).
- `calendar`: day numbers and civil dates, and the `YYYY-MM-DDTHH:MM:SSZ`
  timestamps; timestamps sort as the times they stand for.
- `series`: episodes, series and what the dashboard asks of them (next
  episode, whether it is available, season counts).
- `episode_name`: the episode marker in a file name, the series title
  before it, and file extensions.
- `uri`: `file://` links, percent-decoding and file names.
- `grouping`: deduplicating episodes into series (case-insensitive names,
  newest copy kept) and ordering them; `merge` of two scans.
- `properties`: what every grouping result satisfies, and the stability
  of grouping under regrouping and self-merging; merging is commutative up
  to name case and the order of equally recent series.
- `scan`: bookmarks of a recently-used list (found with the `regex` crate)
  and directory entries turned into series.
- `dashboard`: the state behind the user interface.

`app/` is the program around the library: reading files and directories,
the egui user interface (through `eframe`) and the floating-point display
values. `tests/` holds the tests.
