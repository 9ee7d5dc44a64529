# alternator

A documentation toolkit for SourcePawn includes, verified with Verus.

- `src/` is the verified library: the preprocessor (`preprocess`), the
  constant expression engine (`expr`), comment association (`comments`),
  extraction of documented symbols from the tree-sitter syntax tree
  (`syntax`, `extract`, `source`), the documentation schema (`schema`,
  `mono`, `manifest`), folding the history of an include set into a bundle
  (`chronicle`), the bundle index (`catalog`), the decisions of the git
  history walk (`history`), filling in comments of parsed include files
  (`generator`) and sitemap pages (`sitemap`).
- `app/` holds the command line tool: reading and writing files, the git
  walk itself, and the serializable copies of the schema types.
- `tests/` exercises the library.
