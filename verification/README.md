# pdf_crop_dual

Crops the blank band out of the middle of two-column PDF pages. Each page's
content stream is scanned for the x extent of its ink; the gap between the
columns is removed by rewriting the content stream so that ink left of the band
stays in place and ink right of it moves left by the removed width. Pages that
cannot be rewritten safely fall back to drawing the page twice with clipping.

## Layout

- `src/` — the verified library (Verus):
  - `grammar.rs` — the content-stream grammar as spec functions over bytes:
    white space and comments, names, numbers, literal and hex strings, arrays,
    skipped dictionaries, inline image headers and data; with the lemmas that
    positions only move forward.
  - `lexer.rs` — `Tok`, the executable lexer, each method proved to follow the
    grammar exactly, including where it stops.
  - `ops.rs` — operator tables of the ink scan and of the rewrite, coordinates
    of path operators, character codes of strings and width-table indices.
  - `emit.rs` — `Assembly`, which places the rewritten operations: text
    blocks are held until `ET`, paths until their end, and each subpath is
    kept or marked for the shift whole.
  - `forms.rs` — `FormGuard`, which admits each form XObject once per page and
    bounds their nesting.
- `app/` — the command-line tool around the library: PDF objects through
  `lopdf`, and the `f32` geometry (matrices, text advance, gap detection,
  the shift of coordinates), which stays outside the verified part.
- `tests/` — tests of the library.
