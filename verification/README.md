# zclip_core

The verified core of zclip, a tmux-style paste-buffer ring for the Zellij
terminal multiplexer. Every module under `src/` is checked by Verus:
executable code carries `requires`/`ensures` contracts over mathematical
views (`Seq`, `Map`, `nat`), and the laws the library promises are proof
functions named `law_*`.

- `text` — character-level helpers: whitespace, trimming, splitting,
  decimal numbers.
- `selection`, `region` — the text a selection covers, in character, line
  and block shape, and what a renderer highlights.
- `scrollback`, `motion`, `copy_mode` — the captured pane, vi-style cursor
  motions and the copy-mode session.
- `keymap`, `permissions` — key bindings from configuration; the
  permission gate.
- `buffer` — the paste-buffer ring: eviction of the oldest unnamed buffer,
  pinned named buffers, stable ids.
- `persist`, `store` — the on-disk format (encode/decode with byte budgets,
  proved to round-trip) and where a plugin instance keeps its file.
- `plugin` — the plugin's decisions for each host event.

`app/` is the Zellij plugin binary: it performs the host calls and file
operations that `plugin` and `store` ask for.
