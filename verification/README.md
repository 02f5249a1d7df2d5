# archaic-word-finder

Finds words in large texts in which an archaic or badly recognised letter was replaced by a
placeholder symbol (`аб!е`), and lists the dictionary words that they may stand for (`абіе`).

`src/` is a Verus library in which every function carries a contract:

| module       | content                                                                  |
|--------------|--------------------------------------------------------------------------|
| `text`       | words, trimming, fields and numerals                                     |
| `ranges`     | lists of replacement characters such as `U+0456-U+0458,U+0435`           |
| `symbols`    | the set of placeholder symbols                                           |
| `candidates` | the spellings that a damaged word may stand for                          |
| `filter`     | Bloom filters                                                            |
| `morphology` | lower case and stems                                                     |
| `dictionary` | known words behind filters                                               |
| `search`     | from a text to the matches in it                                         |
| `corpus`     | where the text is read from, how it is cut up, how progress is shown     |

`app/` is the command line program: it reads files or standard input, runs the search in parallel
and writes the matches as JSON lines. `tests/` holds the tests of the library.
