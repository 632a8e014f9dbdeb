# forestools

The verified core of a keyboard application launcher (Alt+Space, pinyin
search over the installed applications).

- `src/` — the library, verified with Verus:
  - `search` — pinyin index of every name and alias, relevance scores, and
    the ranked top results;
  - `lru` — the recency-ordered cache behind the icon lookups;
  - `icon` — cached icon lookup, RGBA assembly from shell icon bitmaps, PNG
    encoding, `appicon://` requests;
  - `launcher` — application records, which shortcuts and bundles become
    applications, the scan cache, launch outcomes;
  - `window` — which window positions are kept, where the window is shown,
    dragging;
  - `ui` — the keys of one frame (selection, launch, hiding), icon requests,
    content height, hotkey reaction, colours;
  - `text` — character-sequence helpers and white-space trimming.
- `app/` — the egui program around it: Win32 calls, file and directory
  access, threads, tray and hotkey, drawing.
- `tests/` — tests of the library.
