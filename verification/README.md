# rscribus

The document model and editing logic of RScribus, a small page-layout editor
with text, image and SVG frames, linked text chains and master pages. The
logic is written in Verus and proved against its contracts; the GTK window,
Pango measurement, Cairo drawing and project files live in a thin program
around it.

## Layout

- `src/` — the verified library.
  - `utf8_text` — byte offsets and character boundaries of UTF-8 text, and
    the few `std` string and character calls the library makes.
  - `format`, `format_laws` — formatting spans: applying, clearing, slicing
    and shifting them as text changes, with the laws they keep.
  - `text_box`, `text_box_laws`, `text_commands`, `display` — a text frame:
    cursor, selection, keys, undo history, style commands and how much of
    the frame is drawn.
  - `document`, `image_box`, `svg_box` — pages, items and their contents.
  - `chain`, `reflow`, `chain_edit` — linked text frames: finding chains,
    redistributing a chain's text over its frames (a state machine that asks
    the caller for each frame's measured capacity), unlinking and splitting.
  - `editing` — pages, stacking order, borders, deleting and linking frames.
  - `master_pages` — master pages and the mode in which one is edited.
  - `selection_info` — what the sidebar shows about the selection.
  - `persistence` — archive entry names and asset relocation for project
    files.
  - `text_flow` — writable pixel runs of a text-wrap mask row.
- `tests/` — tests of the library on concrete values.
- `app/` — the GTK/relm4 program: widgets, input handling, Pango and Cairo,
  dialogs and the zip project format. It keeps floating-point geometry and
  calls the library for every decision on the document.
