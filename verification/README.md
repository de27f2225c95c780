# A small verified CPU toolchain

A byte-addressed memory, two processors (a first one without flags or stack, and one with
flags, a stack, calls, interrupts and frames), an assembler with labels and back-patching,
and a compiler for a tiny C-like language that emits either machine code or assembly text.

Every function of the library carries a contract proved by Verus, except `text::string_from_chars`,
which collects characters into a `String` through std and whose contract is trusted:

- `memory`: little-endian words over a byte vector.
- `cpu` and `emulator::cpu`: one fetch-decode-execute step, stated as a function from the
  processor state and memory to the next state, the next memory and whether it halted;
  `can_step` tells beforehand whether the step would fault.
- `encoding`, `assembler` and `assembler::emit`: the bytes each emitter writes; parsing of
  assembly text into items; assembling and resolving label placeholders.
- `compiler::simple_c`: the statements of the C-like language, to assembly text or to code.
- `text`: the string operations the parsers need (trimming, splitting, lines, decimal
  numbers), each matched to the `str` method it stands for.

Proved properties include: a word reads back as written; decoding undoes encoding for every
instruction; push/pop, call/ret, int/iret and enter/leave restore what they saved; resolved
placeholders hold their labels' addresses; decimal numbers parse back to themselves; the
assembly lines the compiler writes read back as the instructions they name; blank lines,
comments and label lines emit nothing; the last definition of a label wins; and for
declarations, assignments and stores, assembling the compiler's text writes exactly the
code the compiler writes directly.

`app/main.rs` is the demonstration program: it builds a program, runs the processor and
prints its registers and stack after each step.
