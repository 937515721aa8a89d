# jtop

A process monitor for the terminal that shows the memory processes really use:
the proportional and the unique set size beside the resident set size and swap.
Everything that is computed or decided is a library whose behaviour is stated in
contracts and proved with Verus; the program around it reads files and keys,
draws and sends signals.

```
jtop [-i seconds] [--no-color]
```

## Layout

- `src/` is the library.
  - `double`, `rounding`: double-precision arithmetic on integers, and what its
    rounding keeps.
  - `text`, `format`, `ansi`: texts, numbers as they are shown, escape sequences.
  - `color`, `shades`: the colours of sizes and percentages, and how they change.
  - `paths`, `procfs`: the names of the files below `/proc`, and what they say.
  - `worker`, `schedule`: gathering rows and figures, and when that is done.
  - `units`: that processor times of different units are not mixed.
  - `process`, `filter`, `order`, `tree`: the rows, which of them are shown, and
    in which order.
  - `app`, `keys`: the state of the user interface, and what the keys do.
  - `table`, `screen`: what stands on the screen.
  - `shape`: what holds of every frame.
  - `interval`: the update interval and the command line.
- `app/` is the program.
- `tests/` runs the library, much of it against hardware arithmetic and the
  standard library.

## What is proved

Each function has a contract that says what it returns, and the public proof
functions say what holds of several of them together. Some examples:

- Nothing is terminated but what was marked, and only after a `y` in answer to the
  question (`keys::lemma_kill_confirmed`).
- However often the interval changes, no row mixes ticks and nanoseconds
  (`units::lemma_never_mixed`).
- In the tree each process stands once, behind its parent and one step deeper
  (`tree::lemma_listed_once`, `tree::lemma_listed_below_parent`).
- The first line is exactly as wide as the terminal
  (`shape::lemma_system_line_width`).
- The more memory or processor time, the more red and the less green
  (`shades::lemma_pss_color_order`, `shades::lemma_cpu_color_order`).
- Without colours, nothing on the screen sets a 24-bit colour
  (`shape::lemma_no_color`).

Two functions of the standard library are trusted: `String::push` and
`str::to_lowercase`.
