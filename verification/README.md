# lc

A small toolchain for a lambda calculus with `let`, `let rec`, conditionals
and integer arithmetic, written in Verus: every function of the library has a
contract that Verus proves, except two small wrappers of std's `String::push`
and `String::from_utf8_lossy`, whose contracts are trusted.

The pipeline, module by module:

- `lexer`: bytes to tokens with spans.
- `parser`: tokens to an arena of expression nodes (`ast`, `arena`), with names
  interned (`interner`); errors become `diagnostic`s.
- `resolver`: binds every variable to the binding it refers to, and lists the
  bindings that nothing reads.
- `types`, `solve`, `checker`: Hindley–Milner type inference over an arena of
  types with a triangular substitution, and its model over type trees.
- `bytecode`, `opcode`: compiles expressions to the byte code of a stack
  machine with closures, and runs it one instruction at a time.
- `ir`, `vm`: lowers expressions to functions of basic blocks, turns those into
  instructions of a second machine, and runs them.
- `source`, `diagnostic`, `text`: line and column lookup and the rendering of
  diagnostics.

Each stage is specified by spec functions over plain values (`Seq`, `Map`,
integers). The lexer, the parser, the resolver, both emitters, the lowering
and a single step of each machine are stated exactly. The lexer and the
parser take only sources in which every token starts with a byte that starts
a token (`lexable` checks this); the emitter refuses a function with more
than 256 constants. Laws of the lowering: it succeeds on the forms it
handles, every block it makes is ended, every jump and branch goes to a block
of the function, and every slot and temporary is below the function's counts.

Type inference is stated exactly by a model of Algorithm W over type trees
(`infer_t`): the substitution, type and count of type variables it finds for
every expression, or the error it stops with. Unification and composition
have tree models of their own (`unify_t`, `compose_t` in `solve`), and the
arena's substitutions are tied to them by reading each binding as a tree.
Laws over these models: unification is most general (any substitution that
unifies the pairs and agrees with the one so far keeps it from failing and
agrees with what it builds); composing two triangular substitutions whose
variables are apart never fails, and applies the older substitution and then
the newer.

Environments, the constant table, the substitution, the lowering's locals and
the resolver's scopes are vectors of pairs searched from the back, so that a
later entry hides an earlier one with the same key, as an insert into a hash
map would. Their keys are the library's own index types; over a `Vec` the
contracts can say exactly which entry a lookup finds, which the specifications
of std's maps do not give for such keys.

`app/` holds the command-line driver that prints each stage and runs the
machine step by step.
