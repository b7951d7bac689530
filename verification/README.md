# petcalc

A calculator for the growth of pets in an online role-playing game: from a
pet's growth tiers, level and spent points to its stats (forward), and from
observed stats back to the tiers, the spent points and the random tiers
that explain them (guess), with the weight of every explanation.

The library in `src/` is written in Verus; its functions carry contracts
that Verus proves.

- `rates`, `grow`, `bp`, `matrix` — the growth-rate table, BP per level,
  the stat matrix and its exact inverse.
- `enumerate`, `tolerance`, `guess`, `prune` — the tuples the search
  walks, the offsets of the observer rule, the solver, and the proof that
  its shortcuts drop nothing the match accepts.
- `stats` — weights of the solutions and their marginals.
- `search` — which pets can reach stat floors at a level.
- `petdata`, `custom` — the catalogs (built-in table, online CSV, the INI
  catalog file) and the user's own pets.
- `dto`, `engine` — the requests and responses of the front end, and the
  engine that keeps the layered catalog and the last guess.
- `recover`, `determined`, `answer`, `tuples` — laws tying the solver to
  the forward calculation, the match modes to one another, the responses
  to their descriptions, and the weights to the list of random tuples.
- `text`, `numeral`, `arith` — characters, lines, numbers.

`app/` holds what stays outside the proofs: JSON on the wire, the
browser storage and the WebAssembly bindings.

Tests are under `tests/`.
