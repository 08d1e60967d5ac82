# ykdt

Search jisho.org for words, tatoeba.org for example sentences, and kanji by
their radicals, from the command line.

- `src/` is the library, with its contracts and their proofs: the formatting of word and
  sentence answers (`word_search`, `sentence_search`, over the `Json` model in
  `json`), the radical search and the steps of choosing a radical by its
  strokes (`kanji_search`), reading typed numbers and trimming (`input`), and
  what to do with a query (`query`). Laws are public proof functions beside
  the functions they speak of.
- `app/` is the program around it: arguments, the terminal, HTTP requests,
  files, the questions asked on stdin, and the pager.
- `tests/` runs the library on concrete values.
