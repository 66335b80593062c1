# Mark-Hulk

A native, lightweight Markdown viewer and editor (GTK4, libadwaita,
GtkSourceView). No web engine: the preview is Pango markup, tables are grids,
code blocks are highlighted with syntect.

## Layout

- `src/` — the library, verified with Verus:
  - `markdown.rs`: the fold of pulldown-cmark's event stream into preview
    blocks, the outline, the choice of syntax and the markup of highlighted
    code, Pango and HTML export;
  - `fs.rs`: Markdown paths and extensions, the launch file, the workspace
    tree built from a directory snapshot, what the search walk skips, line
    search over file contents;
  - `style.rs`: themes, palettes, the saved-theme setting, editor schemes;
  - `ui.rs`: pane visibility per view mode, titles, when a document turns
    dirty or reloads, where a file opens, table layout, labels;
  - `layout.rs`: where the PDF export breaks pages and how much each page
    shows;
  - `text.rs`: trimming, escaping, decimal numbers, case-insensitive prefixes.
- `app/` — the GTK program: windows, dialogs, disk access, file watching and
  PDF layout, calling the library for every decision.
- `tests/` — tests of the library.
