# o_rs_u

An osu! clone's beatmap reader and scoring rules, verified with Verus.

- `src/` is the verified library:
  - `text`: Unicode-aware trimming and splitting of character sequences.
  - `number`: integers as `str::parse` reads them, and every decimal text
    that `str::parse` reads as a float, kept as sign, its first 768
    significant digits, whether a nonzero digit follows them, and a power
    of ten held within 10^12; these decide the float the text rounds to.
  - `osutypes`: hit objects, difficulty settings, timing points, beatmaps.
  - `parser`: reading a beatmap from the text of an `.osu` file.
  - `timing`: which timing points are in force at a given time.
  - `scoring`: judgements, hit values, combo and accuracy, slider ticks,
    what becomes of a hit object once it is hit.
  - `sliders`: slide ends and tick counts of a moving slider.
  - `cli`: choosing a beatmap of an extracted archive by its typed index.
- `tests/` runs the library on concrete beatmaps and values.
- `app/` is the game around it: the command line, archive extraction, file
  reading, the `f32` geometry of the playfield, and the bevy systems.
