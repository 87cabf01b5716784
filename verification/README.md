# explorer

The decision-making core of a desktop file explorer, written in Verus and
proved against its contracts, with a thin layer of ordinary Rust around it.

## Layout

- `src/` — the verified library
  - `text.rs`: strings as character sequences (whitespace, trimming,
    splitting, words) with their `str` meanings.
  - `paths.rs`: Unix path joining, file names, extensions, and path
    components (paths compare by them).
  - `entry.rs`: a listed file.
  - `open_with.rs`: desktop files (`[Desktop Entry]` parsing, MIME
    matching, the program of an `Exec=` line), discovery of the applications
    for a file, application and icon directories, icon search order,
    terminal and `PATH` lookup order, and launch planning.
  - `thumbnail.rs`: the bounded thumbnail cache and the icon a file gets.
  - `decode.rs`: thumbnail decoding through the `image` crate and the
    RGBA-to-BGRA conversion.
  - `explorer.rs`: the preview pane's target and the "open with" dialog's
    state, whose searches carry tickets so that a superseded search never
    fills a newer dialog.
- `app/` — I/O around the library: running `xdg-mime`, walking
  application directories, checking which files exist, starting programs
  (`open`, `libc`), reading image files, background threads for searches
  and thumbnails, and the floating-point pane resizing.
- `tests/` — tests of the library on concrete values.
