# dash_vm (verified core)

Core pieces of the dash JavaScript virtual machine, written in Verus and proved
against their contracts.

- `gc`: the chunked allocator of the garbage collector (allocation in chunks of
  4096 bytes, a free list of reclaimed space, marking and sweeping), the growable
  aligned byte buffer, the fixed-size bins and the allocator that dispatches to
  them by size, and the flags of collected handles.
  The allocator's contracts state that an allocation reads back what was written,
  and that every live allocation keeps its bytes across later allocations, marks
  and sweeps, and that a sweep adds the space of every reclaimed allocation to
  the free list. `gc::persistent` counts the persistent references that keep objects
  alive across collections.
- `jit`: the x86-64 encoders, the code buffer and the jump resolver; jumps to
  labels that are marked later are patched so that they land on the label. The
  compiler of loop regions takes the region's decoded instructions and gives the
  machine code, stated as a spec of what each instruction emits; `can_compile`
  tests what the compiler asks of a region.
- `json`: a small JSON parser over bytes, with its grammar as a spec function.
- `js_std`: string, array and number built-ins over plain values (strings as
  UTF-8 bytes, arrays as element sequences, numbers by their IEEE 754 bits); the
  errors they throw carry their kind and message.
- `framestack`: the stack of call frames, split into the hot base part and the
  rest; `external`: the handles each local scope keeps rooted; `localscope`:
  settling promises.
- `frame`, `dispatch`, the crate root, `util`: loop counters, what a runtime error,
  a `return` and the end of a finally block do to the frames and `try` blocks,
  how storing to a local, an external, a global or a property treats each kind of
  assignment, and small helpers.
- `fxmap`: the `FxHashMap` operations the rest uses, with their contracts.

`app/` holds the adapters that deal in doubles (parsing and formatting numbers),
which stay outside the verified part.
