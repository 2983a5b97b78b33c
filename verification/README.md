# fuzzy_phrase

Sets of phrases that can be searched exactly, by the beginning of a phrase, by an approximate
spelling, anywhere in a text, and for many phrases at once.

- `src/` is the library. `builder` collects phrases and works out what the indexes of a set hold;
  `open` puts a set together from indexes that were read; `search`, `windows` and `multi` search
  it. The indexes are lookup functions that the caller brings along (`index`), and so is the table
  of scripts (`script`). Every function is verified with Verus against its contract. The contracts
  are relations between what the lookups may reply and what a search may return. The modules whose
  names end in `laws` prove what that comes to where the indexes hold what a builder laid out.
- `app/` keeps phrase sets in directories: it reads and writes the files, and leaves the formats of
  the indexes to traits.
- `tests/` runs the library over small indexes in memory.

Taken on trust are two functions of the `regex` crate and `String::from_utf8`; see `script` and
`open`.
