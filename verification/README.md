# Artemis

Artemis drafts technical replies for a first-line support team with the
DeepSeek chat model, and learns the user's style from a Markdown vault
(`estilo.md`, `evitar.md`, `campos-padrao.md` and one examples file per
category) and from the history of approved replies.

- `src/` is the verified library (Verus): the prompts, the vault edits, the
  mining of releases and menu paths, the learning statistics, the settings
  encoding and the gates of the commands, each with its contract, and the
  laws that tie them together (`lemma_*` proof functions).
- `tests/` runs the library on concrete values.
- `app/` is the unverified shell: configuration file, SQLite history, vault
  files and watcher, HTTP client and the commands the interface calls.

## Collections

Paths are counted and ranked, categories and weeks are grouped, and the
paths already in `campos-padrao.md` are looked up by their text, so every
key here is a `String`. With `String` keys Verus proves nothing about std's
`HashMap`, `BTreeMap` or `HashSet` from vstd's specifications: after one
`insert` into an empty one it cannot show that its length is 1. The library
therefore keeps these collections as `Vec`s with the invariant stated that
makes them a map or a set (no key twice; `PathSet` carries it as a type
invariant). Ranked paths come most frequent first, then by their lowercase
form; the order between paths equal in both is left open.

## Vault files

Example blocks are counted as the lines that begin with `## Aprovado em`,
so the header of a new examples file, which quotes the heading inside its
note, does not count as a block.

## API key

The key is protected with the Windows data protection API (DPAPI) in
`app/`, which hands the library the protected bytes; off Windows the bytes
are kept as they are. The library stores them in hexadecimal and reads them
back.
