# inkling

Reveal ASCII art as a progress indicator: every non-blank glyph of a picture
(its *ink*) gets a place in the reveal, and a progress value decides which
glyphs are showing.

- `src/` is the verified library. Each public function states its result
  exactly over spec functions, and the properties that span calls (a
  repainted frame writes nothing the second time, restoring the terminal
  twice emits nothing more, an inline frame lands where the next one starts,
  the skeleton stays inside the ink, ...) are public proof functions.
- `app/` is the `inkling` command and the live loader around the library:
  terminal I/O, threads, time, and the floating-point colour, easing and
  rank arithmetic.
- `tests/` runs the library on concrete inputs.
