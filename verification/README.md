# pprop

Heisenberg propagation of Pauli sums through parametrised quantum circuits, verified
with Verus.

A circuit of RX, RY, RZ, H, S, SX, T, SWAP, CNOT, CY, CZ, CRX, CRY and CRZ gates is run
backwards on an observable. The words that stay diagonal give its expectation value on
the all-zero state, as a sum of products of sines and cosines. Words that can no longer
become diagonal are pruned, and small or complicated terms may be truncated. An evaluator
computes such an expression and its gradient.

* `src/` is the library. Verus proves its contracts; what it takes on trust are the
  calls into the hash map and two functions on integers.
* `tests/` runs the library, also against state vectors.
* `app/` is the Python module `pprop_rs`, with `f64` as the scalar type.

## What is proved

* A run computes what `model` says, up to the order of the terms, which is that of a
  hash map.
* Pruning is exact: the terms of a result do not depend on the pruners in use.
* Gates that touch no word can be skipped, and without truncations a run is the
  composition of its gates and linear in the observable.
* Truncations of terms leave exactly the terms of the full result within the bounds.
* H, CNOT, CY, CZ and SWAP undo themselves, and gates keep the norm.
* The rule tables respect the multiplication of Pauli matrices, and a circuit conjugates:
  without truncations and rounding, the terms of a result add up to the expectation
  value of the observable in the state that the circuit makes of the all-zero state, and
  an evaluator of these terms computes it.
* For scalars that compute exactly, both ways to the gradient give the derivative of the value.

Floating point has no laws here. The library is generic over its scalars, and its
contracts say which operations are performed in which order.
