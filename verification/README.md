# disassembler

A disassembler for a subset of 64-bit x86 machine code. The code is given as
a string of hexadecimal digits, two per byte; `Reader::disassemble` returns
one line of Intel-syntax assembly per instruction.

Layout of `src/`:

- `hex.rs`: hexadecimal digits in, `0x..` text out.
- `operand.rs`: prefixes, ModRM and SIB bytes, operand sizes, register names.
- `decode.rs`: what reading the input and decoding each instruction form
  yield, and what a whole run produces (`run`, `disassembly`), with the
  measure that shows every run ends.
- `reader.rs`: the `Reader` and its decoding loop, proved to produce exactly
  what `decode.rs` describes.
- `laws.rs`: properties of disassembly as a whole.

`app/main.rs` is the command line program: it reads a file of hexadecimal
digits and prints the listing.
