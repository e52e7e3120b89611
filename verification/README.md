# opus_pure

The logic of an Opus codec, verified with Verus.

- `src/` is the library. Every function in it is proved against its contract, and
  the functions named `law_*` state what holds of several of them together: what
  is written to a `.opus` or `.caf` file reads back, packets cross between the two,
  frames survive their packets and streams their multistream packet, what the range
  coder codes comes back symbol for symbol, and the encoder's budgets and decisions
  stay within their bounds.
- `tests/` runs it.
- `app/` is what computes on samples in floating point, and what touches files. It
  takes its decisions from the library.
