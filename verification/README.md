# zonary

Zonary is a minimalist esoteric language whose code is made of the digits
0 and 1. This crate is its interpreter, written in Verus: the preprocessor,
the source cleaner, the decoder of fixed-length instructions and the
machine are proved against specifications of what they compute.

- `src/text.rs`: characters, blanks, UTF-8 lengths, binary values.
- `src/word.rs`: register values of any size; arithmetic, printing and
  parsing through `num-bigint`.
- `src/error.rs`: the errors.
- `src/preprocessor.rs`: the `/00`, `/01`, `/10`, `/11` directives.
- `src/interpreter.rs`: directives, cleaning, decoding, and one step of a
  program.
- `src/vm.rs`: the machine, one instruction at a time; each step reports
  what the caller has to do (print, read a line, sleep, stop).
- `app/main.rs`: the command line, the REPL, and the loop that performs
  what the machine asks for.
