# vaire

Requirement records in AsciiDoc: extraction, validation and surgical
rewriting of the attribute lines above requirement blocks, verified with
Verus.

A requirement is an open block (`--`) whose first attribute line carries
the `requirement` style and an id, for example

    [requirement#SWR-0001]
    [modality=shall, kind=functional, verification=test]
    --
    The system shall boot within 5 s.
    --

Layout:

- `src/` is the verified library.
  - `text`, `lines`: characters, trimming, byte lines and line numbers.
  - `quoting`: the attribute-line grammar, its parser and its renderer;
    rendering then parsing gives the items back.
  - `outline`, `extract`: the document outline acdc parses, and the
    requirement records found in it, located by byte spans.
  - `record`: the merged attribute view and the normative statement.
  - `check`: validation rules V1–V6 and the check report.
  - `emit`: planning attribute-line rewrites against the live records and
    splicing them into the text; every other byte is kept.
  - `edit`: setting named attributes on one requirement.
  - `show`, `listing`: what `vaire show` and `vaire list` display.
- `app/` is the `vaire` command: argument parsing, file I/O, JSON, colors
  and atomic writes.
- `tests/` exercises the library on concrete documents.
