# flame core

A terminal fire screensaver, split in two:

- `src/` is the verified library (crate `lib`):
  - `palette`: the 36-level fire heat ramp tinted by the theme accent, with the
    laws that it stays warm, brightens at every level and follows the accent;
  - `fire`: the fire cellular automaton (source seeding, plumes, rising with
    drift and cooling, whole steps, blasts, column heat, spark rows) with the laws
    that rising fire cools and a hotter source burns hotter;
  - `screen`: the character screen and the integer drawing steps (fire glyphs,
    lens-flare streaks, sparks, globs);
  - `scene`: logo layout, star counts and star glyphs;
  - `frame`: a whole frame drawn in order from the fire and the marks the
    animation hands in, with the laws that a frame depends on nothing else, is
    drawn on black, and leaves the terminal past the screen blank.
- `app/` drives the effect: random draws, floating-point animation (sparks,
  stars, globs, logo temperature) and the system/theme queries, calling the
  library for every grid and screen update.
- `tests/` exercises the library on concrete values.
