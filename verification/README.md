# treeversal

A library for traversal and manipulation of a tree of choices, such as

```
Customize your sandwich
├─Pick a bread (mandatory)
│  ├─(o) white
│  ├─( ) wheat
│  │  └─[ ] gluten-free wheat bread?
│  └─( ) rye
├─[ ] Pick vegetables
│  ├─[ ] lettuce
│  └─[ ] tomato
└─{?} Finished?
```

Create a tree of nodes as a `TreeNodeDefinition`, feed it to a
`TreeInteractor`, and manipulate the tree by applying `TreeInteraction`s.

The library is written in Verus. Every function in `src/` is proved against
its contract, except two small trusted wrappers in `src/console_driver.rs`
(around `console::style` and `String::push`) whose contracts are taken on
trust from those functions' documentation, and the declarations of console's
`Term` and `StyledObject` types with the latter's `clone`, of which nothing
is assumed.

## Layout

- `src/lib.rs`: the tree definition (`TreeDefinition`, `TreeNodeDefinition`,
  `NodeDefinitionType`) and its builders.
- `src/dsl.rs`: short builders for each kind of node.
- `src/model.rs`: the mathematical model. A `PickState` tree mirrors the
  definition tree; spec functions say what picking and unpicking a node does,
  cascades included, and what rules a state keeps (`consistent`).
- `src/interactor.rs`: `TreeInteractor`, whose `interact` is stated exactly
  over the model (`interact_result`), and which keeps the rules at all times.
- `src/lemmas.rs`: the proofs that the operations keep the rules.
- `src/laws.rs`: properties of the library as a whole, as proof functions
  (idempotence of select and deselect, refused interactions change nothing,
  moving the cursor there and back, toggling flips a node, a copied tree is
  accepted like its original, and the paths that the listing functions give:
  every path once, in lexicographic order).
- `src/console_driver.rs`: the terminal driver's decisions: which key does
  what, and what each drawn line holds.
- `app/lib.rs`: the terminal input and output around the driver.
- `tests/`: the tests, run against the compiled library.
