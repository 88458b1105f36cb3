# pup

The front end of a compiler for the Pup language, verified with Verus.

- `src/ast`: the lexer, the syntax tree and a Pratt parser for declarations and expressions.
  The parser's contracts say what it reads in terms of readers over the lexer's states
  (`parser/expr_text.rs` for expressions, `parser/decl.rs` and `parser.rs` for declarations
  and whole modules).
- `src/compiler`: the interning stores (strings, types, trees), modules and their import graph
  (import cycles, the order in which modules are visited), the compilation context and the
  builder that runs every stage over a project's files.
- `src/hir`: naming (the symbol table, named trees) and type checking.
- `src/mir`, `src/codegen`: the control flow graph and code generation, both still stubs.
- `src/types`: checked and unchecked types.
- `app/main.rs`: the command line (`pup build`, `pup init`), reading the `.pup` files of a
  directory and linking object files with `cc`.

Verus verifies every function in `src/`: each one that has a contract is proved to meet it,
and the few without one (such as `Builder::new` and `Context::create_builder`) are checked for
the absence of overflow and of failed preconditions. The exceptions are the five small wrappers
in `src/unicode.rs` around std's `char` and `str` functions, whose contracts Verus takes on
trust. The tests in `tests/` run the library on concrete sources.
