# rusty_qr

A QR code generator with style profiles, a library of saved configurations,
a card designer driven by SVG themes, and exports to PNG, JPEG, SVG, PDF, EPS
and DOCX.

The crate is written in Verus: the logic under `src/` carries `requires` /
`ensures` contracts that Verus proves.

## Layout

- `src/qr/` — QR content payloads (`types`), the encoder front end
  (`encoder`, standard codes through the `qrcode` crate), a native Micro QR
  encoder (`micro_qr`), its Reed–Solomon arithmetic over GF(256) and the
  field laws (`gf`), and the proof that its codewords vanish at the
  generator's roots (`codeword`).
- `src/raster.rs` — module matrices to RGBA pixels; PNG and base64 embedding.
- `src/export.rs` — SVG and EPS documents of a QR code, Word document parts.
- `src/card.rs` — card layouts, their geometry and the standard card SVG.
- `src/template.rs` — SVG themes: palette comment, colour slots, text fields.
- `src/render.rs` — substitution of the theme variables.
- `src/designer.rs` — the designer's choices: selected theme, carried-over
  values, layout changes, what a library entry keeps.
- `src/history.rs` — the library of saved entries and its dates.
- `src/lang.rs` — translations read from a language file's TOML text (through
  the `toml` crate), choice of the language file for the locale.
- `src/logo.rs`, `src/style.rs`, `src/theme.rs`, `src/text.rs`,
  `src/scale.rs` — the application logo, logo cache names, the interface
  theme, text helpers and `f32` scaling.
- `app/` — the egui application: windows, file dialogs, downloads, files on
  disk, and the floating-point parts (logo overlay, SVG rasterisation, PDF
  pages).
- `tests/` — tests of the library on concrete values.
