# friz

An interactive line selector for shell pipelines. It reads candidate lines from
standard input, lets you narrow them down on the terminal, and prints the line you
select.

```bash
find . -type f | friz
find . -maxdepth 4 | friz --reverse --height 40% --header="Select path"
```

## Layout

- `src/` is the library: everything that decides or computes. Each function has a
  contract that Verus proves.
  - `args`: the command line.
  - `reader`, `store`: lines as they come in, and the chunks they are kept in.
  - `query`, `find`, `utf8`, `matching`, `score`: how a line is held against a query.
  - `search`, `ranking`, `schedule`: the parallel search, the order of its results, and
    when to run it.
  - `keys`, `state`: what keys mean, and the state they change.
  - `draw`, `render`: the picture on the screen, as a list of operations.
  - `laws`: what holds across modules.
  - `text`: strings and characters.
- `app/` is the program around it: the terminal, the threads and the clock.
- `tests/` runs the library.

## What is taken on trust

`str::to_lowercase`, `String::push`, `String::pop` and `Arc::clone` from the standard
library, and the parallel iterator of `rayon`. Each stands behind a contract of a few
lines in `src/text.rs`, `src/store.rs` and `src/search.rs`.
