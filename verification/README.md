# bpf-linker

A linker for BPF programs. It links bitcode, LLVM IR and object files with
embedded bitcode, also out of `ar` archives, hides what is not exported, makes
debug information fit for BTF, and generates code with LLVM.

- `src/` is the verified library. It decides: what an input is, what is linked and
  in which order, which symbols stay visible, which names and members debug
  information keeps, how accesses are made relocatable, how bitcode is read, and
  what each failure is reported as. LLVM is not called here: the library works on
  plain data, returns plans and edits, and steps through the work one action at a
  time.
- `app/` is the program. It parses the command line, reads files, talks to LLVM and
  performs the actions.
- `tests/` runs the library.

`src/trace.rs` states what holds of a whole run: when linking is done, every
module of every input was linked, in order, and a module is only handed out after
its debug information was prepared and the optimizer ran on it.
