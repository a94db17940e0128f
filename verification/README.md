# ling

Experiments for modeling language-like composition through mappings between
a feature set `T` and a state set `S`, written in Verus.

- `src/` is the verified library. Its types are generic in the numeric type
  of amplitudes, confidences and weights; the library holds the structure
  (states, neighborhoods, links, concept labels, the toy dataset, amplitudes
  accumulated per item, the contributions a link emits over features) and the
  decisions (selection, pruning, composition transfer, neighborhood
  generation), each with a contract proved by Verus.
- `app/` instantiates the library with `f64` and `num_complex::Complex<f64>`
  and holds the arithmetic: Born probabilities, similarity scores,
  activations, random initialization and the optimizers.
- `tests/` exercises the library.
