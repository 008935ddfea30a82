# Sonic

The core of Sonic, a local music player, as a verified library: lyric
parsing (LRC, QRC and encrypted KRC), the choice of a track's lyric file,
playback navigation over the library (sequential, shuffled, repeat modes),
the sidebar's playlist, album and artist views and its search, the "up next"
queue, the cover cache's naming and thumbnails, and the decisions behind the
tray icon, the media keys and "Open with" registration.

- `src/` — the library, verified with Verus. Each module states its
  behaviour in `requires`/`ensures` over spec functions; the `law_*` proof
  functions state properties that span several calls (for example, that the
  previous track of the next track is the track itself, that sorting by title
  is stable, or that every track appears in exactly its own group).
- `tests/` — tests of the library on concrete values.
- `app/` — the program around it: files, audio output (rodio), tags (lofty),
  the system media controls (souvlaki), the Windows tray and registry, and a
  command loop on standard input in place of a graphical window.
