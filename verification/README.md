# glowclock

A gradient big-digit terminal clock with crontab-style reminders and a fat-cat
popup. The library in `src/` holds the clock's logic with its contracts, proved
by Verus; `app/` is the terminal program around it.

- `src/text.rs` — characters, trimming, `str::lines`, integer parsing as `str::parse` does it.
- `src/clock.rs` — UNIX time to local time and civil date, offsets, the `HH:MM:SS` display.
- `src/font.rs` — the 5x7 bitmap glyphs.
- `src/render.rs` — scales, widths, choosing a scale that fits, rows of lit and blank runs, themes.
- `src/cron.rs` — cron fields and expressions, and when they fire.
- `src/reminder.rs` — reminder lines, durations, and the manager that fires each reminder once per occurrence.
- `src/mascot.rs` — the built-in cats and cat files.
- `src/ui.rs` — the interactive clock's decisions: keys, overlays, the reminder input box, layout.
- `src/cli.rs` — command-line arguments, the sound and reminders-file choices, and the edits `add` and `rm` make to the reminders file.

The laws of the library are the `law_*` proof functions in these files.

`app/main.rs` reads arguments, the environment and files, runs `date` and
`afplay`, and draws with ratatui and crossterm; the colour gradient, which is
floating-point, is computed there too.
