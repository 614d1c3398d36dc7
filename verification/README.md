# coordsfinder

Texture-rotation coordinate search for Minecraft screenshots, with a desktop
editor for its search configurations. The library is written in Verus: every
function in `src/` carries a contract that Verus proves.

## Layout

- `src/` — the verified library.
  - `texture` — the texture-variant algorithms (vanilla and Sodium).
  - `types`, `filter` — observations, their rotation by structure direction,
    and filter compilation into per-block constraints.
  - `config`, `text` — the `.conf` format: reading it, with exact error
    messages.
  - `scan`, `cpu` — work planning (linear and spiral tile orders) and the
    CPU search of a work item.
  - `gpu` — the decisions around the compute backend: shader parameters,
    records, dispatch sizes and result checks.
  - `model`, `history`, `grid`, `save` — the editable document, undo/redo,
    the grid editor's rules, and the proof that a saved document reads back
    as itself.
  - `summary`, `status`, `runner` — what the editor shows and how a running
    scan is followed.
- `tests/` — tests of the library on concrete values.
- `app/` — the desktop program: window, file dialogs, worker threads and the
  `wgpu` device work, all calling into the library.
