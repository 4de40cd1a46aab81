# ardupilot_log_parser

Reader for ArduPilot DataFlash binary logs (`.bin`), verified with Verus, and a
desktop viewer around it.

- `src/field.rs`: field types of the format characters, their widths, and
  their decoding from bytes.
- `src/text.rs`: the text parts of FMT records (UTF-8 decoding, trailing
  `'\0'` trimming, comma splitting).
- `src/format.rs`: message formats and the decoding of FMT record bodies.
- `src/log.rs`: the record stream: `read_log` turns the bytes of a log into
  its formats and message rows; `log_of` says what it gives.
- `src/log_laws.rs`: what holds of every log read (its invariant) and that
  reading only adds to what was read before.
- `src/catalog.rs`: the message types listed by name, field lookup, plot
  labels.
- `app/`: the iced window, the file dialog, the plot and the parameters
  table; it reads the file and hands the bytes to the library.
