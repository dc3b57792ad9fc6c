# hera_leds

An array of 320 addressable LEDs laid out like the antennas of the HERA telescope. It
shows either a clock or the autospectra of the antennas with the seconds moving around.

`src/` is the library, verified with Verus: reading the truthy words of the statistics
table, merging its rows, choosing colors, drawing the pictures, and deciding what each
task does next. Spectra are doubles, kept as bit patterns; their arithmetic is proved to
give the double nearest to the exact result. `src/laws.rs` holds what is proved of the
library as a whole.

Two functions from outside are trusted rather than proved: `str::to_lowercase`
(`src/truth.rs`) and `hifitime`'s conversion to the time of day (`src/clock.rs`). The
statement of each stands above it.

`app/` is the program: the HTTP request, the csv table, the timers, the signal handler
and the LED driver. `tests/` runs the library on concrete values.
