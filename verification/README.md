# pineapple

The front and middle of a compiler for a small typed language, written in
Verus: the functions of the library carry contracts that Verus proves,
apart from a few small wrappers around `char` classification, string
building and `indexmap::IndexSet`, whose contracts are trusted.

A program is a list of functions (`#name(params) { ... }`) with typed
assignments, conditionals, `print` and `return`. The library takes it
through these stages:

- `scanner`, `chars`: source text to tokens;
- `parser`, `ast`: tokens to a syntax tree, with literal casts checked;
- `transformer`: the tree to three-address code, one block per function
  (`ir` holds the code and its views);
- `cfg`, `graph`: basic blocks and the control-flow graph;
- `dominator` (dominator sets as the greatest solution of the data-flow
  equations, shown equal to dominance by paths where every block can be
  reached) and `dominance` (the dominator context of a graph read off
  those sets: strict dominance, immediate dominators, dominance
  frontiers);
- `ssa`: phi placement at iterated dominance frontiers, renaming into
  single-assignment form (each variable read outside a phi function
  carries the version of the definition that reaches it along the
  dominator tree, and each phi argument the version that leaves its
  predecessor), and destruction through parallel copies, each
  put in an order that gives every destination its source's old value
  (with temporaries where copies form cycles);
- `regalloc`: live intervals and linear-scan register allocation;
- `value`, `ops`, `interner`: values and their casts, operators and
  interned strings;
- `bytecode`, `codegen`, `compiler`: the instruction set, its registers
  and constant pool, and the state of compiling a function;
- `tac`, `three_address`, `liveness`: operands named by SSA name, and
  register colouring over an interference graph;
- `sets`, `assoc`, `errors`, `cli`: helpers, error types and the options
  of the command line.

`app/` is the command-line driver: it reads the source file, prints
errors and debug output, and runs the stages in order.
