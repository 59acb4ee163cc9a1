# syntect

An incremental parser for Sublime Text syntax definitions, verified with Verus.

`ParseState` interprets the contexts of a linked `SyntaxSet` one line at a time
and returns the operations that change the scope stack, each with the byte at
which it applies. A `branch_point` makes the parser speculate: when a `fail`
refutes an alternative, lines that were already returned are parsed again, and
the next call delivers the whole window of lines that were not final.
`CommittedParser` hides this and hands lines back only once they are final.

## Layout

- `src/syntax.rs`, `src/scope.rs`, `src/repository.rs`: contexts and rules, scopes
  and the scope stack, the texts of scopes.
- `src/regex.rs`, `src/cache.rs`: the regular expressions, searched by
  `fancy-regex`, and what searches of a line found.
- `src/search.rs`, `src/executor.rs`: the best match and its execution.
- `src/semantics.rs`, `src/perform.rs`, `src/embed.rs`, `src/captures.rs`,
  `src/emit.rs`: what a match does to the scope stack and to the stack of contexts.
- `src/branches.rs`, `src/speculation.rs`, `src/corrections.rs`: branch points,
  `fail`, replays and the choice between their versions of a line.
- `src/engine.rs`: the model of a step, as spec functions.
- `src/parser.rs`, `src/committed.rs`: the public interface and its model.
- `src/steps.rs`, `src/window.rs`, `src/order.rs`, `src/ordinary.rs`, `src/lines.rs`,
  `src/clears.rs`, `src/linked.rs`, `src/grounded.rs`: laws.
- `app/`: errors and warnings with the standard traits.
- `tests/`: the parser on syntaxes written as YAML, and its parts.

## What is proved

The contract of `ParseState::parse_line` fixes the result and the next state for
every line whose parse comes to an end, over the matches that the engine of
regular expressions reports. Beyond that:

- How many steps are allowed does not change a parse that needs no more.
- A revision replaces exactly the lines that were open, and a consumer that goes
  back to the start of the window and applies it has the stack that the parser
  expects.
- `CommittedParser` hands back every line once, in order, as a consumer of
  `parse_line` ends up with it; lines before the window never change.
- A copy of the state, taken while no lines are open, is all that is needed to
  parse on.
- No branch point outlives 128 lines, and each that expires gives a warning.
- The operations of a line come in order of their positions and lie within the
  line; so do those of every line that is revised. An operation that would lie after
  the next one is placed earlier; those in order stay where they are. Without a
  `fail`, and with escapes that colour only what they match, all are in order.
- The operations of all lines, once revised, apply to an empty scope stack without
  an error, where no context clears scopes. Contexts may clear scopes where no rule
  is a `fail` or pops nothing, and the first context clears none.
- In a set whose references all resolve, the only error is that the rules pop the
  last context of the stack. Where they never do, every call succeeds.
