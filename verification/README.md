# wavetui

An audio-fingerprinting song recogniser with a terminal front end. The
library under `src/` is verified with Verus; `app/` is the program around
it (terminal drawing, microphone input, the SQLite catalogue, and the
floating-point signal processing).

Library modules:

- `order` — stable sort order of a key sequence, with its uniqueness and
  existence proved.
- `peak`, `fingerprint`, `song` — the data the recogniser works on. Times are
  whole microseconds, frequencies whole millihertz, and a peak's power is held
  as an order key (the bit pattern of the non-negative power).
- `hash` — packing of (anchor frequency, target frequency, time gap) into a
  32-bit hash.
- `shazam` — frequency bands of a spectrogram, per-band column maxima and
  their gathering into per-band peak lists, time
  order of peaks, and the fingerprint table of a peak list.
- `search` — ranking of the songs a recording matched: by match count, then
  by time coherence with the recording.
- `names` — reading a song's title and artist from its file path.
- `controls` — the keyboard state machine of the front end.
