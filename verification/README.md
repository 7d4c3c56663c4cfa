# ftbgui

An editor for FTB Quests books: it reads and writes the SNBT files of a book and the language
files beside it, reports cycles and broken links among quests, finds quests and resources, and
edits a book in a window or in a dialog on the console.

- `src/` is the library, verified with Verus. Every function states in its contract what it
  returns or changes, over mathematical models of texts, tables, SNBT values, books and sessions.
- `tests/` runs the library on concrete books.
- `app/` is the program: files, archives, the clock, the window, and numbers with a fraction.

## The library

| Modules | What they hold |
| --- | --- |
| `text`, `compose`, `letters`, `digits`, `order`, `table`, `path` | texts, whole numbers, sorting, sorted maps, paths |
| `notation`, `snbt`, `notation_laws` | the SNBT notation, its reader and its writer |
| `quest`, `editor`, `translation`, `languages` | the data of a book and its languages |
| `opening`, `import`, `export`, `layout`, `saving`, `autosave` | reading, writing and snapshots of a book |
| `layout_laws`, `saved_fields`, `saved_entries`, `saved_quests`, `saved_laws`, `kept_laws` | that a saved book is read back and nothing is dropped |
| `graph`, `diagnostics`, `cycle_laws` | cycles and broken dependencies |
| `book` | statistics of a book and its report |
| `resources`, `pictures` | items and entities of a project and their pictures |
| `naming`, `duplicate`, `search`, `localize`, `labels`, `choices`, `captions` | parts of the editor |
| `session`, `interactive` | the editor: the state behind the window, and the dialog |

Laws that relate several functions are the public proof functions whose names begin with `law_`.

The code behind `#[verifier::external_body]` and `assume_specification` is not proved: it calls
`serde_json`, `uuid`, `image` and a few functions of the standard library, and a comment above
each says what is believed of it.

Floating-point numbers do not occur in the library. A number with a fraction is a `Number`: its
bits, and the text that it is written as.
