# lib

A verified lexer and parser for descriptions of a country's territories,
written in Verus.

A source text such as `country:Russia:30|region:A:30|district:x:30` is
turned by the lexer (`src/lexer.rs`) into a lexem table, one
`Kind-value` line per lexem. The parser (`src/parser.rs`) reads the table
sentence by sentence, builds the tree of territories (`src/area.rs`) and the
parse tree (`src/rules.rs`), prints the parse tree and checks that every area
lies in [1, 999] and that each territory's area is the sum of its parts.
`src/text.rs` holds the text helpers (decimal numbers, splitting).

Each function carries a contract proved by Verus against a model of what it
computes; the laws of the library stand as `law_*` proof functions.
`app/main.rs` is the command-line program: file reading and writing, and
printing.
