# minic

A compiler for a small C-like language, written in Verus. A source file of functions
such as

```
func main() -> i32 {
    let x: i32 = 1 + 2;
    return x;
}
```

is split into tokens, parsed into a syntax tree, checked and rewritten by a series of
passes, laid out on the stack, lowered to an intermediate code and printed as x86-64
assembly text.

## Layout

- `src/lexing.rs`: tokens and the tokenizer (token patterns are matched with the `regex`
  crate, through one trusted wrapper).
- `src/parsing.rs`: the syntax tree, its mathematical model, the grammar as spec
  functions and the recursive-descent parser proved against it.
- `src/passes/`: variable validation, scoping, checks of returns, yields and types, and
  type inference, each proved against a spec function of the whole tree.
- `src/stack.rs`: stack-frame layout, with the frame modelled as maps of free slots and
  variable slots.
- `src/assembly.rs`: registers, operands, instructions and their assembly text, label
  numbering, and generation of the intermediate code.
- `src/debugging.rs`: the indented printing of syntax trees.
- `src/text.rs`, `src/typing.rs`: decimal numerals, string comparison and the types of the
  language.
- `app/main.rs`: the command line, which reads the source file, runs the stages in order
  and writes the `.s` file.

Besides the contracts of each function, the library proves laws that span functions:

- freeing a reserved slot gives back the frame, a frame only grows when a slot is
  allocated, and a variable keeps its slot until it is freed;
- a frame layout and code generation never return a slot twice when every declared
  variable takes room;
- the code of an expression leaves the frame's variables bound as they were, and the whole
  state where the expression holds no block;
- labels are never repeated, and every jump of generated code goes to a label the code
  places, where no function body has a `yield` outside a block;
- a block's variables go out of scope at its end, in validation and in code generation,
  and a program whose variables can be scoped passes validation;
- type inference settles after one run on programs that record no type `any` and whose
  functions and declared variables have known types;
- lines are tokenized and instructions rendered one by one, and a printed constant reads
  back as itself.
