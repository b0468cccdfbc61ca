# forthen

A small Forth-like language with stack effects, written in Verus: the
interpreter, its standard words and the stack-effect calculus are proved
against their contracts.

Layout:

- `src/` — the verified library.
  - `state.rs`, `interp.rs`, `vm.rs`, `builtins.rs`: the interpreter. A
    line of input is compiled and then run; `builtin_post` states what each
    native operation does, `post_call_object` what calling a value does, and
    `runs` what running compiled code does, each call from the state in
    which the one before it ended.
  - `words.rs`: the word sets (tier 0 and 1, `scope`, `branch`, `loop`,
    `ops`, `stack`, `list`, `table`, `class`, `std`).
  - `stack_effect.rs`, `abstract_stack.rs`, `chaining.rs`, `effect_eq.rs`,
    `effect_names.rs`, `effect_text.rs`: stack effects, their parsing,
    chaining and comparison.
  - `stack_effects/`: the element graph of stack effects, with its
    scratchpad, abstract stack, parser and display.
- `tests/` — the tests, run against the compiled library.
- `app/` — the interactive prompt around the library.
