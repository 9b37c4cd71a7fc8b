# achievement_panel

A desktop panel for inspecting and changing the Steam achievements of an
AppID, with the logic in a library verified with Verus.

- `src/` — the verified library:
  - `text.rs`: whitespace, trimming, line splitting, prefix/suffix/substring
    search over characters; `str::to_lowercase` and `String::push` behind
    trusted wrappers.
  - `number.rs`: decimal notation of numbers and `u32` parsing with the
    rules of `str::parse`.
  - `vdf.rs`: Valve's text key/value format as Steam's library files use it:
    quoted strings with backslash escapes, flat key/value files (app
    manifests) and the library folder list.
  - `order.rs`: lexicographic order of texts and a stable insertion sort.
  - `library.rs`: installed games, their manifests and the sorted game list.
  - `achievements.rs`: achievement rows, built from what Steam reports and
    sorted by visible name.
  - `bridge.rs`: what the answers of the Steamworks API mean: error
    messages, the AppID check, the unlock state, bulk changes and the
    callback state.
  - `panel.rs`: the panel's state machine: filters, search, status line and
    the reaction to each user action and Steam answer.
- `app/` — the egui program: drawing, the Steamworks session (the Steam
  client library is linked only here) and the scan of the Steam folders.
- `tests/` — tests of the library on concrete values.
