# seekx

seekX is an application launcher for Linux: type to find installed
applications, files (`//name`), directories by path (`/usr/lo` lists the
entries of `/usr/` whose names contain `lo`), or to search the web; a query that looks like a web address opens that address.

The launcher's logic is a library whose behaviour is stated in contracts and
proved with Verus:

- `src/search.rs`: the score of a query against an application's terms.
- `src/sort.rs`: the stable order of ranked applications.
- `src/application.rs`: the launcher (ranking, the result list of a query,
  what activating an entry does, web search targets).
- `src/file_index.rs`: the index of home files, its searches, and how
  file-system events update it.
- `src/desktop.rs`: desktop entry files and the list of installed applications.
- `src/browser.rs`: web addresses, search addresses and command lines.
- `src/ui.rs`: the result entries and the choices made on the result list.
- `src/settings.rs`: the web search template setting.
- `src/text.rs`, `src/filtering.rs`: text and sequence helpers.

`app/` is the program around it: reading desktop files and the home directory,
watching it for changes, running programs and the GTK 4 window.
`tests/` runs the library on concrete inputs.
