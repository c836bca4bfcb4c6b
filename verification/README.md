# ocarina_listener

Listens to a monophonic instrument (an ocarina, a recorder) and recognizes
the songs played on it.

The library under `src/` is verified with Verus:

- `notes` names semitone offsets (`C4`, `A#4`, ...) and interprets batches
  of pitch samples: a full batch of 30 samples is heard as the note whose
  pitch class and octave are each the most frequent among the sounded
  samples, when more than 15 samples were sounded. New notes go to the
  notekeeper, a queue of at most 8 notes that drops its oldest entry when
  a ninth comes in.
- `songs` holds the songbook (loaded from a JSON object of song name to
  melody, kept sorted by name) and recognizes a song when its melody occurs
  in the notes played, in the same octave or one octave up or down.
- `display` builds the line sent to the display for each sample.
- `gui` holds the decisions of the display program: reading listener lines,
  announcing recognized songs, handling their audio clips, and the version
  texts it shows.
- `splash` decodes and scales the boot splash screen's images, finds where
  sparkles may appear, and packs colours as RGB565.
- `order` and `text` are the string helpers (code-point order, decimal
  rendering, substring search, splitting and trimming) that these rest on.
- `laws` states the properties that span calls: the notekeeper's bound, when
  notes are added, held notes and silence, songbook lookups, recognition in
  any octave, and what the display reads back of a listener line.

`app/` is the program around it: microphone input, pitch detection and the
volume and frequency arithmetic (all floating point), the console, the Unix
socket to the display, and the splash screen's drawing (floating point).
