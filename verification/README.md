# llrt_lib

The text-processing core of two LLRT modules, written in Verus:

- `src/headers.rs` — the fetch API's `Headers` list: header-name and
  header-value checks, value normalization, and the append / set / get /
  has / delete operations, the initializer forms (pairs, maps, `HeaderMap`),
  and the laws that relate them.
- `src/logging.rs` — console formatting: log levels, ANSI colors,
  separators and indentation, the text written for each kind of value, for
  objects and arrays, the expansion of `%` templates, and how the
  arguments of a console call are laid out (`console_plan`).
- `src/inspect.rs` — the walk over a value that the console writes: a
  step function from the walk's state and the caller's report of what the
  engine holds to the text written and the next question (circular
  references, errors, dates, regular expressions, the expansion depth,
  members and the cut-off after a hundred of them, promises).
- `src/text.rs` — character-level helpers and the few standard-library
  calls the library makes.

`app/` holds the JavaScript bindings (rquickjs): the `Headers` class, and
the formatting driver that answers the walk's questions by reading the
engine.
