# phlex_emmet_ls

A language server that offers [Emmet](https://emmet.io/) completions for
[Phlex](https://www.phlex.fun/) templates.

- `src/` is the verified library: the abbreviation grammar (`parser`), the
  element tree (`types`), its expansion into Phlex markup (`rendering`,
  `text`), the completion logic (`lsp`), finding the abbreviation before the
  cursor in a document (`utils`), and laws of the grammar (`grammar_laws`).
- `app/` is the server itself: LSP plumbing, the document store and logging.
- `tests/` runs the library on concrete abbreviations.

Supported syntax: child `>`, sibling `+`, multiplication `*`, `#id` and
`.class`, implicit `div`, text `{}`.
