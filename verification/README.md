# simple_calc

A fixed-point infix calculator with eight decimal places. Every number is an
`i128` holding the value times 10^8.

Layout of `src/`:

- `fixed.rs` – the fixed-point model (`SCALE`, rounding toward zero, wrap).
- `math_operations.rs` – `pow`, and the random engine behind `rand`: a hash of
  a machine-state snapshot, the operation number and the time.
- `ops.rs` – the operators: how their text is recognised and what each computes.
- `math_proccessor.rs` – `MathStack` (one per bracket level, evaluated by
  precedence passes) and `MathProcessor` (the stack of brackets).
- `text.rs` – character classes and decimal text of `i128` values.
- `parser.rs` – the `Lexer` and the `ParsingEngine`.
- `calculator.rs` – evaluation of a whole expression and formatting of values.
- `laws.rs` – properties that span several functions.

Every function in `src/` carries a contract, and Verus proves each one except
those of a few thin wrappers around std (`String::push`, `SystemTime::now`,
`SystemTime::duration_since`, `Duration::as_millis`, `Duration::as_nanos`):
their contracts are trusted, and each one's doc comment says what it claims.
The operator table has `lmc` for the least common multiple; `lcm` is read the
same way. `app/main.rs` is
the command-line program: it reads expressions from the arguments or a prompt,
prints results, and takes the register snapshot (inline assembly) that the
random engine mixes.
