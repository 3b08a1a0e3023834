# android_terminal

A terminal for debugging Android devices over `adb`: device list, logcat
streams with filters and tag highlights, RAM and storage gauges, network and
per-app traffic, per-app storage, and an optional DeepSeek "insight" on the
recent error clusters.

- `src/` is the verified library (Verus): parsers of `adb` output, the
  pollers' decisions and back-off, the logcat line parser and message
  chunking, fingerprints, redaction and the snapshot reducer, the insight
  request policy, the log buffers and filters, and the panels' models.
  Process calls, HTTP, threads, floating point and the GUI are not in it.
- `app/` is the GUI (eframe / egui_tiles) and the I/O around the library:
  it runs `adb`, streams logcat, posts to DeepSeek, and hands the library
  plain values.
- `tests/` runs the library on concrete inputs.
