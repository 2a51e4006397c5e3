# teac

A verified compiler for TeaLang, a small imperative language with integers,
arrays and structs.  The library goes from parse trees to AArch64 assembly;
its behaviour is stated in contracts that Verus proves.

## Layout

- `src/common/`: bit sets, graphs and data flow, control flow graphs, name
  tables, targets, texts of numbers, and the traits of stages and passes.
- `src/ast/`: the syntax tree, its texts and its dump as a tree.
- `src/parser/`: from the trees of a grammar match to the syntax tree.
- `src/ir/`: the intermediate representation and its text.  `src/ir/gen/`
  translates bodies: types of local variables, statements, basic blocks,
  constant initializers, whole modules, and the calls that trace a run.
- `src/opt/`: dominators, phi placement and the promotion of stack variables.
- `src/experimental/`: inference of return types that functions leave out.
- `src/backend/`: layouts, the stack frame, calling convention, instruction
  selection, phi lowering, register allocation and printing for AArch64, and
  the generator that takes a whole module through them.
- `app/`: the command line, files, and the grammar.
- `tests/`: the library run on concrete values.

## What is proved

Each stage has a contract: a function over mathematical models gives the
result or the error, and what a failing step leaves behind.  Register
allocation is stated as a relation instead: the order in which registers are
removed and the colours they get are described, and a law says that there is
only one such allocation.  On top of these stand laws, among them:

- a translated function has blocks that all end in a terminator, branches
  only to its own blocks, and defines every value once;
- after promotion no stack variable that was promoted is read, and whatever
  way leads to a block, the value used there is the one stored last on it;
- inferred return types agree with every return, and contradicting returns
  are rejected;
- an address, a move or a load that is expanded into several instructions
  computes what the single one would on a model of the machine;
- registers that are given to values that interfere differ, no virtual
  register is left in an assembled function, and parallel copies have the
  effect of all copies at once;
- fields, stack slots and argument locations do not overlap, and each stack
  slot begins at a multiple of the alignment of its type;
- different names of functions of a program, made of plain identifiers that
  do not start with `_TN`, become different symbols; imported functions keep
  their bare name, which can coincide with that of a function of the program.

What the library takes from outside without proof stands in
`src/common/names.rs` (the index map behind name tables) and
`src/ast/debug.rs` (quoting of strings).
