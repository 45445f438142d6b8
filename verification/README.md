# stencil

A copy-and-patch code generator, verified with Verus.

A *stencil* is the machine code of one small function, compiled ahead of time, whose literals, frame
offsets and jump targets are holes. Generating code is choosing stencils, copying their bytes, and
filling in the holes. This crate chooses, copies and fills in, and writes the result as a relocatable
object; what each step gives is stated as a contract and proved.

- `library`, `codec`: stencils, holes, the folded twins of a key, and the library's serialized form.
- `ir`, `types`, `prim`, `keys`: the program that is compiled and the facts about its types.
- `frames`, `slots`, `order`, `fuse`, `registers`, `carried`: where values live and in which order
  blocks are laid out.
- `select`, `emit`, `edges`, `flow`, `walk`, `lists`, `numeric`, `runtime`, `glue`: from instructions
  to operations.
- `assemble`, `body`, `unit`, `jit`, `region`: from operations to code, a constant pool and
  relocations.
- `calls`: calls of the runtime's C functions, as stencils. The other operations that call the runtime
  (an intrinsic's entry, a rendering, a string operation, a copy walk) follow conventions of the
  runtime itself. Between `Emission::select_units` and `Emission::emit_selected` whoever links the
  program puts operations in their place: stencils whose holes are named and whose callees are outside
  symbols. One that is left is reported.
- `a64`, `x86`, `entry`, `stack`: hand-written entry points for the two instruction sets, and what
  they do to the machine stack.
- `parts`, `emission`, `elf`, `object`: the objects of a program's units, with `main`, the doors behind
  it and the stack in the one that has the root.
- `elfobj`, `machobj`, `fields`: readers of relocatable objects.
- `patched`, `pooled`, `found`, `written`, `reach`: what patched instructions do, what becomes of what
  was pooled, what a reader makes of a written object, and which functions can reach a refused one.
- `app/`: the machine, its environment, floating point, and what a runtime is asked for.
