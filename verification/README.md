# turing_tapes

Two Turing machines over binary digits, built and run by the
`turing_machine_rs` engine:

- `reverse <text>` reverses a string of `0`s and `1`s;
- `add <arg0> <arg1>` adds two binary numbers (an empty argument stands for 0)
  and writes the sum with one digit more than the longer argument.

Each run prints the text of the tape the machine starts from and the text of
the tape it leaves, blanks left out.

Layout:

- `src/digits.rs`: binary digits, their marked forms, and the validation of
  arguments with the `regex` crate.
- `src/machine.rs`: the model of the engine's classic machines (programs,
  configurations, one step, runs), the trusted items that build and run them,
  and the reading of a tape.
- `src/reverse_string.rs`: the reversing machine's table, and the proof that it
  halts on every binary string and leaves it reversed.
- `src/binary_add.rs`: the adding machine's table and the functions that run it.
- `src/adder.rs`: the proof that the adding machine halts on every pair of
  non-empty binary numerals and leaves the digits of their sum, and that those
  digits are the binary numeral of the sum.
- `tests/`: tests on concrete values.
- `app/main.rs`: the command line.
