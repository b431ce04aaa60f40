# logd

The core of a viewer for very large log files, verified with Verus.

- `src/` is the library: searches, filters, tabs, marks, results over many files, tables taken
  from text and JSON, templates of similar lines, edited copies, captured device logs, settings,
  updates, menus and the arrangement of panels. Every function states what it returns, and the
  laws that span functions are public proof functions beside them.
- `app/` is the program around it: the window, the files and the processes. It draws with gpui and
  reads logs with the `logd-core` engine.
- `tests/` runs the library on concrete values.

Files are told apart by numbers in the library; the program keeps the paths. What the engine
knows (whether a term is a time, whether a filter is active, what a line says) comes in as an
argument.

Some facts about other crates are taken as given: which patterns `regex` accepts and what they
capture, what `serde_json` reads and writes, how `semver` orders versions, and which templates
`logdrain` finds. They stand with the functions that call these crates, in `pattern`, `json`,
`updater` and `log_analysis`.
