# orinium_text

A CPU-side 2D text layout and software rendering library whose core logic is
written in Verus and proved against its contracts.

## Layout

- `src/` — the verified library:
  - `types.rs`: colors, font style, weight, variant, bidi mode and run direction.
  - `image.rs`: the RGBA pixel buffer, pixel access and alpha-mask compositing,
    with laws on reads after writes and on the compositing formula.
  - `font_system.rs`: extraction of one face from a TrueType collection (with
    the law that a font packed into a one-face collection extracts back), the
    choice of a fallback face for generic families, the decision step of the
    scan for a face covering a character, and font weight classes.
  - `text_analysis.rs`: paragraphs, levels and line-break opportunities from
    `unicode-bidi` and `unicode-linebreak`, turned into per-paragraph plans.
  - `shaping.rs`: shaping a run with `rustybuzz` and character lookup with
    its `ttf_parser`, what a run becomes (whole, or split by coverage) and
    what becomes of each part of a split run.
  - `reorder.rs`: the visual order of a paragraph's runs by rule L2 of the
    Unicode Bidirectional Algorithm.
  - `layout.rs`: visual runs, glyph coverage ranges, the shaping fallback
    chain, break flags and the per-line glyph selection.
  - `wrapping.rs`: the decisions of greedy line wrapping, with the law that
    wrapping text in logical order cuts it into adjoining non-empty lines.
- `tests/` — tests on concrete values.
- `app/` — font discovery and loading (`fontdb`, `fontconfig`), parsed-face
  and glyph caches, rasterization (`fontdue`), float positioning and
  rendering, built on the library.
