# minilang

A lexer and two recursive-descent parsers for a small curly-brace language,
written in Verus with their behaviour stated as contracts and proved.

- `src/token.rs`: tokens, their values and variants.
- `src/lexer.rs`: the lexer (`tokenize`, `try_tokenize`) and string interning
  (`intern`), with a specification of the token grammar and laws on the string
  table.
- `src/spacing.rs`: laws that blanks before the text never change what the
  lexer gives; and that blanks after it, or a blank run swapped for another
  outside string literals, do not either, given that blanks are not
  identifier characters (true of std; `lexer::blanks_are_not_identifier_chars`
  tests it).
- `src/pattern.rs`: matching the first token of a slice.
- `src/parser/`: a parser for function definitions, calls, blocks, strings and
  type expressions (`Parser`), and its laws (`parser/laws.rs`).
- `src/monad.rs`: a statement parser for declarations, assignments, enums,
  structs and whole files (`ParserMonad`), with its laws.
- `src/simple_tokenizer.rs`: a pass-based tokenizer over partly tokenized text
  (string literals, words and symbols, function names), with laws that the
  passes lose no text and number literals in order.
- `src/error.rs`: parse errors, and inputs the parsers do not handle.
- `app/main.rs`: a small program that lexes and parses a sample text.
