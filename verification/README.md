# bits

The core of a small language: its lexer, source handling, symbols, value
kinds, runtime types, operator tables, memory arena, errors, and the plans by
which the parser regroups the nodes of a program. The library in `src/` is
verified by Verus; the few calls into the standard library that Verus has no
specification for (formatting a string or a character, decoding UTF-8) are
wrapped in small functions whose contracts are trusted.

- `arity`, `kind`, `matching`: argument counts, integer and value kinds, and
  the scoring of operator candidates.
- `symbol`, `text`, `result`: identifiers and unique symbols, decimal and
  list text, and the error type.
- `source`, `lexer`: sources, spans, cursors, and the tokenizer, proved to
  read exactly the tokens of a mathematical lexing function.
- `runtime_types`, `types`, `ops`: type tables with sums and invalid types,
  and operator definitions with their lookup and their evaluation.
- `writer`: indented text output.
- `mem`: an arena that keeps values and accounts for their memory on pages.
- `nodes`: the tree of nodes of a program; building it by appending keeps
  parents and children in agreement.
- `eval`: how line breaks, indentation, binary operators, `if` chains,
  `else` and `let` statements regroup the children of a node, the rule that
  turns a `let` statement into the node declaring its variable, and which
  unprocessed nodes are reported.
- `evaluators`: the rules that apply those plans to the tree of nodes
  (tokens of a source, print, binary operators, line breaks, indentation,
  indented blocks, `if` chains, `else` statements attached to their `if`, the
  `if`, `else` and `for` statements,
  booleans and variables), each with the exact tree it leaves, and the
  scope of a node.
- `binding`: the segments of positions to which the rules are bound; binding
  a rule keeps more specific bindings and takes the rest of its range.
- `vars`, `expr`: declared variables and the expression types.
- `typing`: the type a node evaluates to, with the check that no node's type
  depends on itself.
- `context`, `code`: the context of the language, integer literals, the
  compilation of a tree of nodes into code, and the interpreter that runs
  the code: its value, the variables it defines and the text it prints.

`app/` holds the command-line driver: it loads the files named on the command
line and prints their tokens.
