# s2mflow

Lifts single-commodity minimum-cost flow instances (DIMACS `.min`) into
multi-commodity instances (`.mcfmin`), with the core logic verified by Verus.

- `src/` is the verified library:
  - `logic/generator.rs`: the uniform and spread splits of nodal supplies over
    commodities, the rows built from cut points or successive draws, and the
    balancing that leaves every commodity with a zero (or one-sided) balance, keeping
    the shares of the even split between `|b| / K` and that rounded up;
  - `logic/assembly.rs`: the per-commodity arcs, capacities and costs of an instance;
  - `utils.rs`: the readers of `.min` and `.mcfmin` text, the writer of `.mcfmin`
    text and the incidence lists of a graph;
  - `roundtrip.rs`: the proof that reading back a written instance gives back its data;
  - `text.rs`, `keys.rs`: words, lines and decimal integers, and ordered map keys;
  - `random.rs`, `stdlib.rs`: the calls into `rand` and `std` that the proofs take on trust.
- `app/` holds the Python bindings (PyO3): file access, the Python classes, and the
  parts that draw floating-point numbers (Beta-Binomial split, randomized capacities
  and costs, the heterogeneity measure).
- `tests/` runs the library on concrete instances.
