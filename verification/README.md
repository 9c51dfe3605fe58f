# chipscript

A compiler for ChipScript, a small statically typed language, to CHIP-8 ROM
images. The compiler's phases are verified with Verus: each public function
states what it computes over a mathematical model of its input, and the
executable code is proved to compute exactly that.

## Layout

- `src/lexer.rs` — source text to tokens (`lex_spec`).
- `src/parser.rs` — tokens to the syntax tree (`parse_spec`).
- `src/analyzer.rs` — symbol tables, name uniqueness, types, the call graph
  checks and the register budget (`analyze_spec`).
- `src/callgraph.rs` — the call graph, cycle detection, nesting depths.
- `src/optimizer.rs` — constant folding, dead code elimination and strength
  reduction, run to a fixed point (`opt_program`).
- `src/ir.rs` — quadruples and their printed form.
- `src/codegen.rs` — the ROM layout and the instructions of every construct
  (`generate_spec`).
- `src/machine.rs` — a model of the CHIP-8 machine (registers, `I`, data
  memory, call stack, screen) and what running the code of an expression
  or an assignment computes.
- `src/control.rs` — a semantics of statements (`exec_block`) and the proof
  that the code of blocks, `if`/`elif`/`else`, `while`, `loop` and whole
  programs follows it.
- `src/calls.rs` — what the code of a call and of a function body does:
  saving registers, passing arguments, returning the result.
- `app/main.rs` — the command line: reading files, flags, messages.
- `tests/` — behaviour on concrete programs.

## Proved properties

- A successful lex ends with exactly one `EOF` token, which the parser
  requires; each token starts at a position of the text (lexing from there
  gives that token first) and carries that position's line, one plus the
  newlines before its first character; the positions come in order.
- One optimizer pass reaches the fixed point; folding preserves the value of
  every expression that has one; optimizing keeps the sprites, the variable
  names and each function's name, parameters and return variable, and the
  optimizer's counters never go down.
- A program the analyzer accepts has at most 14 globals, distinct names, no
  recursion and at most 16 nested calls below `main`.  A program needs at
  most one save area more than it has functions.
- The checker gives an expression a type exactly when the typing rules
  (`has_type`) give it that type; an expression that type-checks has the
  type of its form.
- A generated ROM fits in 0x200–0xFFF, starts with a jump to an even address
  inside it and ends with a jump to itself.
- Running the code of an expression built of literals, variables, binary
  operators and `not` leaves its 8-bit value in the destination register:
  arithmetic modulo 256, quotient and remainder, 1 or 0 for comparisons and
  logic; the variables' registers are left alone.  The code of each
  operator is proved on its own too, including the loops of `*`, `/` and
  `%`.  The code of `drawdigit(x, y, n)` points `I` at the font glyph of
  `n` modulo 16, draws its five rows at (`x`, `y`), wrapping at the edges,
  and leaves 1 in its destination exactly when a lit pixel went off; the
  code of `draw(x, y, s)` does the same with the rows of sprite `s`.
- The code of a block of assignments, `if`/`elif`/`else`, `while` and
  `loop` over such expressions runs as the statement semantics says: each
  branch is taken exactly when its condition is 1, a `while` repeats its
  body while its condition is 1, a `loop` comes back to its start after
  each round.  The ROM of a program without functions whose globals start
  from such expressions, run from 0x200, reaches each statement boundary of
  `main` with every global holding what the semantics gives for the
  statements before it, and its final jump to itself with the globals the
  semantics gives for the whole of `main`; when
  `main` ends with a `loop`, the machine comes back to the loop's start
  after each round with the globals the semantics gives.
- A call saves the caller's registers, computes each argument from the
  caller's values and passes it in `V1`..; the function body runs as the
  semantics says from there and returns; back in the caller, the value of
  the function's return variable is in `VF` and in the destination, the
  caller's registers are back, and the globals hold what the body left.
