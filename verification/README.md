# Vocabulary and language-file synchronisation

A vocabulary is a set of folders, each holding one file per word type
(`noun.on`, `verb.on`, ...) with one word per line. For every word type there
is one file per language under `spoken/<type>/`, with lines
`rank, word, sentence`. Synchronisation ranks the vocabulary words of a type by
their position, moves the lines of every language file to the new ranks of
their English words, and rewrites the files; a release keeps only the
filled-in lines.

- `src/` is the library, written in Verus and verified:
  - `text`: whitespace, splitting, trimming, joining and decimal numbers, each
    specified after the `str` operation it stands for;
  - `sphere`: configuration lists, vocabulary files and their grouping by type
    and by folder;
  - `ranks`: the rank-ordered table that holds the lines of a language file;
  - `sync`: reading and checking language lines, the synchronisation itself,
    the written text of each file, and releases;
  - `roundtrip`: the proofs that what is written reads back, and that a
    second synchronisation rewrites the same texts.
- `app/` reads and writes the files and runs the steps in order.
- `tests/` runs the library on concrete files.
