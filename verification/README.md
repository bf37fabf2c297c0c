# rs-vulkan

A slide-deck presentation viewer whose deck handling, navigation and
transition decisions are a verified library; the window, the GPU work and
the file system live in a thin program around it.

- `src/` — the library, verified with Verus:
  - `text.rs`: trimming, line splitting, decimal rendering and `u32` parsing
    of character sequences, each against a mathematical definition;
  - `texture.rs`: slide keys and file names, the presenter-notes reader,
    slide metadata, the deck model with its navigation queries, and the
    indexing of a directory listing into a deck;
  - `config.rs`: transition styles and the command line;
  - `navigation.rs`: the presenter's position, keys, transitions between
    slides and the passes of each frame;
  - `example.rs`: the example deck that `init` writes, its presenter notes
    and its placeholder slide images;
  - `notes_file.rs`: the proof that the presenter-notes file written for a
    deck reads back as that deck, for names without line breaks or
    surrounding whitespace and notes with no header-like lines (a test checks
    the example deck).
- `app/` — the program: arguments, the file system, the window loop and the
  Vulkan renderer, calling the library for every decision.
- `tests/` — the test suite, run against the compiled library.
