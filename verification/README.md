# rustfst_minimize

Minimization of finite-state acceptors, verified with Verus.

The library (`src/`) holds a vector-based finite-state transducer over an
integer tropical weight, the state partition used by the minimizers, the
graph operations they rely on, and the two minimization algorithms:

- `fst`, `partition`, `queue`, `collections`, `graph`: the data structures
  (a binary heap and an ordered map come from outside crates, behind
  trusted wrappers);
- `connect`, `tr_ops`, `properties`, `depth`: removing useless states,
  sorting and deduplicating transitions, property checks, state heights;
- `acyclic`, `comparator`: the minimizer for acyclic fsts, which splits
  states by height and then by signature;
- `cyclic`, `hopcroft`, `stability`: partition refinement for cyclic or
  non-deterministic fsts;
- `merge`, `minimize`: merging the classes and the public entry points;
- `language`, `minimality`, `fixpoint`, `uniqueness`: the laws.
  Minimization keeps the accepted words on every input.  On a deterministic
  unweighted acceptor without accessible final weight `Zero` it leaves no
  two equivalent states; with transition weights `One` as well, it keeps the
  acceptor deterministic, is idempotent, gives as many states whichever
  algorithm the flag selects, and no deterministic acceptor of the same
  words has fewer states.

`app/` holds the printing helper and error-reporting entry points built on
`anyhow`; `tests/` exercises the library on concrete fsts.
