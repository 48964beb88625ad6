# ski_eval

A lazy graph-reduction evaluator for the SKI combinator calculus, with readers
for the values that programs compute: booleans, pairs, binary numbers, Church
numerals, lists, strings, images, and input and output instructions.

Programs are written in a compact postfix notation: `k` is `S`, `X` is `K`, `D`
is `I`, and `-` applies the expression before the last one to the last one.

## Layout

`src/` is the library, verified with Verus. Two functions of the standard library
are trusted to do what their documentation says: `char::from_u32` and
`String::push`, in `integer`.

- `node`, `term`, `graph`, `heap`: nodes, expressions and their reduction, the
  graph that the nodes form, and the state of an arena as a mathematical object.
- `machine`, `pause`, `standard`: the reduction machine, why it computes what
  leftmost reduction of the expression computes, why it can be interrupted, and
  why leftmost reduction finds what any reduction finds.
- `arena`, `reduce`, `intern`, `bitmap`, `gc`: the arena itself, evaluation,
  shared nodes, garbage collection.
- `parse`: the compact notation.
- `encode`, `select`, `decode`, `church`, `integer`, `stream`, `tree`: making and
  reading values.
- `text`, `value`, `grid`, `sweep`, `image`, `pgm`: showing values, calling
  programs as functions, drawing images and writing them as files.
- `io`, `zoom`, `table`, `shared`, `keys`: instructions, images that are drawn
  while zooming in, and the search for the input that a program does the most
  work on.
- `laws`, `lists`, `meaning`, `parts`, `scene`, `journey`: what the readers
  promise, of what the makers make and of any expression that has the same parts,
  however it computes them.

A function that works on an arena is specified by a function on its state, a
`Heap`: from a state to a state and a value, or to the limit that allocation ran
into. What those functions mean for expressions is stated by the public proof
functions.

`app/` is the command line program: it reads files, prints and writes images.

`tests/` runs the library on concrete values.
