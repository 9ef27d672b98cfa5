# sonora

The part of a music player that decides how it plays, written and proved in Verus.

- `span` and `double`: spans of time, and the samples and frames that fit them.
  Counts and times are those of binary64 arithmetic to the last bit, computed in
  integers and proved against a definition of rounding.
- `trimmed`: a source with its head cut off and its length bounded.
- `volume` and `smooth`: the playback gain, in a cell that its copies share, and
  the ramp that leads from one gain to the next. The ramp works on the bit patterns of gains and asks its caller
  for the arithmetic on them.
- `output`: the device streams, which of them an output joins, when it has to
  move, and what it sees of a failure.
- `wake`: what is kept awake while music plays. `execution`, `assertions` and
  `inhibit` turn that into requests to Windows, macOS and a desktop portal.

All modules but `double` and `execution` end with laws: what holds of several
calls, or of every state, as proof functions whose names begin with `law_`.

`app/` puts the library to work: it opens devices, moves samples and makes the
requests. `tests/` runs the library on concrete values and holds its arithmetic
against the machine's own.
