# accomplishment_tracker

Keeps a record of work accomplishments, each tagged with up to two leadership
principles, and shows them on a web page with per-month tables, summaries and
a word search.

- `src/` is the verified library:
  - `levenshtein_distance`: edit distance between words. The table-based
    functions are proved equal to one mathematical definition; the plain
    recursive one counts bytes where a word runs out, and is proved equal to
    that definition on ASCII words.
  - `principles`: the leadership principles and event kinds, with their names
    and numeric codes.
  - `fixed_string`: fixed-capacity byte strings stored inside events.
  - `event`: calendar dates, events, the stable chronological sort and the
    conversion of an event from its TOML form (markdown rendered to HTML).
  - `binary`: the binary file format: writing a collection and reading it back.
    A file whose header is cut short is outside what the reader accepts
    (`deserialize_would_panic` tells such input apart); every other malformed
    file is reported as an error.
  - `search`: the word index over events (HTML tags and punctuation taken
    out) and queries that find words within a small edit distance.
  - `statistics`, `presentation`: what the page shows (years, months, counts,
    labels, colours, month names).
  - `convert`: conversion of reports written in the older TOML layout.
- `tests/` runs the library on concrete values.
- `app/` is the program around it: the command line that turns a TOML report
  into the binary file, the TOML and serde plumbing, and the browser page.
