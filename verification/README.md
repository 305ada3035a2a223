# pyasm

A compiler for a small stack language, written in Verus.

A source file is split into tokens (`lexer`), macros are expanded and each
token becomes a command (`parser`), and the commands become x86-64 assembly
for nasm (`generator`) or are run directly (`simulator`). `text` holds the
character-level helpers, `instructions` the command set and the settings,
and `compiler` the front end that chains the first steps. Three modules hold
only laws: `expansion` (what macro expansion gives for a list of plain tokens
and definitions), `pairing` (how block openings and closings pair up by
label) and `comparison` (the lines and labels of a comparison's code).

Every function under `src/` carries a contract over the mathematical model of
its input (sequences of characters and tokens), and the laws of the language
(fresh labels, matching block ends, macro removal, skipped blocks, ...) are
proved as proof functions next to the code they speak of.

`app/main.rs` is the command-line driver: it reads the file, prints the
diagnostics, writes `output/output.asm`, and calls nasm and ld.
