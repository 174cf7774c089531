# minic

A compiler for a small subset of C (`int`, `char`, pointers, arrays, functions, `if`, `while`,
`for`, `sizeof`, string literals) to RISC-V assembly, written in Verus. Every stage is a
function with a contract over a mathematical model of its input and output:

- `lexer`: source text to tokens with character spans (`lex`, exact against `lex_spec`).
- `parser`: tokens to syntax trees (`parse`, exact against a grammar written as spec functions).
- `error`: the messages of parse errors.
- `types`: the type checker (`TypeChecker::check_result`, exact against `sc_check`; `check` and
  `check_tree` take the inputs that check and need no fault case).
- `sema`: lowering of indexing to pointer arithmetic (`lower`).
- `codegen`: the code generator (`Codegen::generate_result`, exact against `generate_spec`;
  `generate` takes the programs that code can be generated for).
- `machine`: a model of registers and memory words, with what the push, pop, prologue,
  epilogue and integer-arithmetic code does when it runs.
- `table`, `text`: ordered name tables and text building.
- `compile` in the crate root runs the whole pipeline.

The laws of the library are public proof functions named `law_*` in these modules, for example
that expression code leaves exactly one value on the stack and statement code leaves the stack
as it found it (`codegen::law_expr_code`, `codegen::law_stmt_code`), and that each local gets a
slot below the frame pointer that shares no byte with the other live locals
(`codegen::law_declare_keeps_slots_apart`), that no `Else{n}:`, `End{n}:` or `Begin{n}:` label
is written twice in a program (`codegen::law_generate_labels_once`) and that every jump of a
statement goes to a label of its own code (`codegen::law_stmt_jumps_land`).

`app/main.rs` is the command-line driver: it reads a file, reports parse errors with `ariadne`
and prints the assembly.
