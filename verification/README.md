# dsch

A small concatenative language for writing music, compiled to standard MIDI
files. Expressions placed next to each other thread a musical context from
left to right: `(...)` plays in sequence, `{...}` plays simultaneously, bare
numbers are pitch classes, `d4` is a quarter note, `@5` a register, `pp` a
dynamic, `#13` a program, `50 bpm` a tempo and `name: value` a binding.

The library is written in Verus: each function carries a `requires` /
`ensures` contract that Verus proves, and the laws of the library stand as
public proof functions.

## Layout

- `src/compiler/parser.rs`: reads source text into expressions; the grammar
  is stated as spec functions (`exp_outcome`, `exp_value`, `exps_outcome`,
  `exps_values`) and the reader is proved to follow it.
- `src/compiler/ast.rs`: the expression types and their mathematical views.
- `src/compiler/composer.rs`: composes expressions into a tree of contexts
  holding pitches, lengths, velocities, registers, tempi and programs, then
  lays the tree out on a timeline.
- `src/compiler/codegen/`: the composition state (`state.rs`), laying out
  sequences and stacks in time (`timing.rs`), exact rational arithmetic
  through `num-rational` (`fraction.rs`), maps and arenas (`arena.rs`), and
  the musical value types (`mod.rs`).
- `src/compiler/scheduler.rs`: turns the timeline into timed MIDI events.
- `src/compiler/functional.rs`: a small monad and list helpers.
- `app/main.rs`: the command line: reads `<name>.dsch`, writes `<name>.mid`
  with `midly`.
- `tests/`: tests of the library on concrete programs and values.

Durations and tempi are exact fractions of microseconds; a value that does not
fit in 64 bits makes composition fail with an error instead of wrapping.
