# algorithms

A library of small verified programs, written in Verus: the functions in
`src/` state their behaviour in `requires`/`ensures` clauses that Verus
proves. The handles of the work-stealing deque are the exception: their
deque sits behind a lock that several threads share, so the worker's push
and pop state nothing of the contents and a steal states only that it never
aborts; the deque itself states what push, pop and steal do.

- `src/algorithms/`: puzzle solutions (`Solution::*`) and a circular queue.
- `src/deque/`: a work-stealing deque; a ring buffer that doubles when full,
  shared by a worker and its stealers behind a verified lock.
- `src/pretree/`: URL routing rules stored in a prefix tree per HTTP method.
- `src/clox/`: pieces of a Lox interpreter: its tokens, the scanner that
  makes them, the table of parse rules, a parser's error state, upvalues,
  and the bytecode's instructions with their encoding and widths. There is
  no compiler or virtual machine here.
- `src/game2048/`: the rules of the 2048 game.
- `src/candlestick/`: the axis and colours of a terminal candlestick chart.
- `src/text.rs`: character-level helpers shared by the modules.

`app/` holds the programs around the library: the 2048 game drawn with `tui`,
a candlestick chart of sample prices (prices are floating point), and a
generator for a README of the puzzles. `tests/` exercises the library.
