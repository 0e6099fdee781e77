# Peanut

A decision procedure for first-order sentences over automatic sequences, written
in Verus. A k-uniform morphism and a coding define a sequence `T`; a sentence over
`<N, +, <, V_k>` extended by `T` compiles to a deterministic finite automaton, and
for a closed sentence the automaton's verdict on the empty word is the answer.

The library states what each operation computes and Verus proves it: the
languages of products, complements and projections, the subset construction
(its states are exactly the reachable subsets), minimisation (every state
reachable, any two states told apart by a word, and no complete automaton for
the same language with fewer states), whether a language is empty, finite or
infinite, base-k arithmetic automata, transducer minimisation, and the JSON
and Walnut text exports. The library also holds the other numeration systems
(Ostrowski, negative bases, Walnut-format systems), transducers and the
`learnfe` guess-and-verify construction of the factor-equality predicate, each
with the contracts stated in its source.

## Layout

- `src/` — the verified library.
  - `dfa.rs`, `nfa.rs`, `product.rs`, `minimize.rs`, `quant.rs`, `paths.rs`,
    `finite.rs`: automata, subset construction, products, minimisation,
    quantifiers, finiteness.
  - `dfao.rs`, `ops.rs`: automatic sequences and the session context.
  - `logic.rs`, `parser.rs`, `compiler.rs`: the formula language and its
    compilation.
  - `numsys.rs`, `ostrowski.rs`, `negbase.rs`, `walnut.rs`, `base.rs`:
    numeration systems.
  - `learn.rs`, `oracle.rs`, `learner.rs`, `autolearn.rs`, `chain.rs`: learning.
  - `transducer.rs`, `picture.rs`, `export.rs`, `codec.rs`, `text.rs`,
    `strs.rs`, `bits.rs`, `antichain.rs`: transducers, output formats and text
    helpers.
- `tests/` — tests on concrete values.
- `app/` — the command-line front end: reads commands, prints replies.
