# MarkForge core

The logic of the MarkForge Markdown viewer as a Verus-verified library, with
the desktop application around it.

- `src/` — the verified library: document conversion (`.docx`, `.hwpx`,
  PDF page lists and content trimming), Apple Notes export planning, the
  file-explorer tree, the reading of git's status and log output, settings
  (recent files, open counts, colours, themes) and the document window's
  decisions (live reload, unsaved-changes prompt, titles, menus). Each
  public function states what it returns in its `ensures`; the `law_*`
  proof functions state properties that span calls.
- `tests/` — tests of the library on concrete values.
- `app/` — the GPUI application: windows, menus, file and process I/O,
  CoreGraphics rendering and the settings file, calling into the library.
