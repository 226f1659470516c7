# nlhe

Game logic of a heads-up no-limit hold'em subgame solver, verified with Verus.

- `src/` is the verified library:
  - `card`: cards, card sets (`Hand`) and the 1326 two-card combos;
  - `iso`: suit isomorphism (the 169 preflop classes, canonical boards and
    observation keys, board symmetries, combo permutation tables, canonical next
    cards and the closure of permutation sets);
  - `game`: the betting game state, its betting grid, legal actions, transitions
    and payoffs;
  - `auto_size`: single-size candidates, their labels, the grid they give, and
    the coordinate search over them as a state machine;
  - `buckets`: made-hand categories and the hand buckets shown to users;
  - `combo_map`: compact numbering of the combos still in play;
  - `samples`: the byte layouts of training samples and equity files;
  - `nodelock`: matching locked lines of actions to tree nodes;
  - `export`, `text`: a solve's configuration record, the small-save node
    filter, and decimal text.
- `app/` holds what works on floating-point values or files: node-lock frequencies, search
  progress and the solve-driven search loop, float settings, payoffs in chips,
  serialisation, and reading and writing training data.
- `tests/` runs the library on concrete cases.
- Not here: the floating-point solvers (CFR, QRE, EGT), the value network and data
  generation. The search loop in `app/` takes the solve as a closure for that reason.
