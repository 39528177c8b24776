# bfjit

A Brainfuck front end and x86-64 code generator whose logic carries proved
contracts.

- `src/sanitize.rs`: reduces a text to its commands and checks its brackets.
- `src/brackets.rs`: bracket matching over nesting steps, shared by every part
  that pairs `[` with `]`.
- `src/interpret.rs`: a step-by-step interpreter; the caller performs input and
  output.
- `src/tokenize.rs`: run-length tokens compiled straight to machine code.
- `src/jit/`: syntax tree (`ast.rs`), loop optimiser (`optimiser.rs`), what a
  replaced loop does, pass by pass and run to completion, compared with its
  replacement (`loop_pass.rs`), the uniqueness of a
  text's tree (`shape.rs`), and flattening and code generation (`jit.rs`).
- `src/backends/`: instruction encoders for x86-64, x86 and ARM.
- `app/`: the command-line driver, which maps the generated code executable
  with `libc` and runs it.
