# Optic

Optic is a compilation backend: it reads a function-level intermediate representation
(Optic's IR) and writes C. The library in `src/` is verified with Verus; `app/` holds the
command line program around it.

## Pipeline

1. `ir::ir_lexer` and `ir::ir_parser` turn the text into a `module::Module`. What a token
   is and what the grammar accepts are spec functions (`lex`, `p_module`, ...), and the
   parser returns exactly what they say, or the error they say.
2. `Module::build_cfg` cuts each body into basic blocks (`cfg::builder`); a block that does
   not end with a terminator is an error. The cut, and so the graph, is unique.
3. `Module::build_ssa` converts each graph into SSA form (`ssa::builder`, after Braun et
   al.): phi nodes first in their blocks, only in blocks with two predecessors or more,
   one source per predecessor; every register assigned once over the blocks reachable
   from the entry, and a read after an assignment in the same block reads that
   assignment's register.
4. `Module::leave_ssa` splits critical edges (`cfg::critical_edges`) and lowers phi nodes
   into copies in the predecessors (`cfg::phi_lowering`), ordered so that no copy
   overwrites a register another one still reads (`cfg::parallel_moves`); the temporary
   registers that cycles of copies need are taken above the largest register that a phi
   node, copy, operation or call writes or reads (`get_max_vreg`; the registers of
   `alloc`, `load` and `offset`, and the operands of `ret`, `br` and `store`, are not
   counted).
5. `codegen::c_backend` writes the C text, which the spec function `c_module` states.

## Layout

- `src/`: the verified library.
- `tests/`: tests of the library on concrete inputs.
- `app/`: `main`, argument handling, file input and output, the time report.
