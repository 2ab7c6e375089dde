# fd_gui

A graphical file finder (egui) around a library verified with Verus.

- `src/` is the verified library:
  - `dirtree`: the directories a search runs over (free and in groups), with
    id allocation, removal by id or by position, moves, switching on and
    off, and the repair of a tree read back from the configuration file;
  - `search`: checking the search settings into a plan (roots, extension and
    exclude filters, the file-name matcher) and deciding which walked entries
    are results; one step of draining the channel of results;
  - `suggest`: the extensions offered while one is typed into the extension
    filter, and putting a chosen one in place;
  - `sort`: a stable merge sort of the results by name, path, size or date,
    with the law that, without ties, descending is ascending reversed;
  - `display`, `calendar`, `date_order`: the text shown for sizes and dates,
    and the laws that a time shows one text, that it changes by the minute,
    and that text order follows time order;
  - `rows`: the texts of the results panel (row cells, the compact line, the
    status line, the note on rows left out past the display limit);
  - `text`, `lexical`, `path`: characters, trimming, splitting, substring
    search, lexicographic order, and the calls into `std::path`, `str` and
    the `regex` crate that the proofs rely on.
- `app/` is the window: panels, settings on disk (serde), and the walk of the
  file system on a thread (the `ignore` crate), which asks the library's plan
  about every entry.
- `tests/` runs the library, and compares its sizes, dates and sort orders
  with what the standard library's float formatting and sorts give.
