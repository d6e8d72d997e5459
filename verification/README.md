# whisrs

The logic of a local voice dictation daemon: which microphone to capture and how,
what becomes of its samples, and which commands the hotkeys call for.

- `src/` is the library. Every function carries a contract that Verus proves. A
  few functions wrap `serde_json`, `hound` and `str::to_lowercase`; their contracts
  are trusted, and a comment above each says what it claims.
  - `audio`: microphone choices, the PipeWire object dump, capture layouts,
    `pw-record`, framing and downmixing of samples, WAV files.
  - `hotkey`: key codes and modifiers, configured actions, the search for
    keyboards, and the gestures of the toggle key.
  - `text`: operations on characters.
- `app/` runs the processes, devices, threads and channels around it, and holds
  the floating-point signal conditioning.
- `tests/` runs the library.
