# mcs48

An emulator for a subset of the Intel 8048 (MCS-48) instruction set: two banks
of eight registers, an 8-bit accumulator and a program counter, driven by
assembly source lines (`MOV`, `ADD`, `SEL`, `INC`, `DEC`, `JMP`).

Layout:

- `src/text.rs` – character-level helpers (trimming, searching, number
  reading and writing) with their specifications.
- `src/parse.rs` – splitting a source line into mnemonic and operands,
  instruction sizes, register operands and immediate data.
- `src/cpu.rs` – the machine, its model `CpuState`, the semantics of each
  instruction, one step of the fetch-execute loop, and a whole run.
- `src/laws.rs` – properties proved of the model: operand splitting, decoding
  that ignores case and spaces, bank isolation, what `MOV` touches, `INC`/`DEC`
  inverses, program layout, and runs through jump-free code.
- `src/error.rs` – the error type and its model.
- `app/main.rs` – the interactive program: reads lines from the terminal or a
  file, runs them with a trace, and prints the registers.
