# holdem

A Texas Hold'em engine, verified with Verus, and the 3D table game around it.

The library (`src/`) holds the rules and everything the table decides from
them, each function with a contract that Verus proves:

| Module | What it holds |
| --- | --- |
| `cards`, `rng`, `deck` | cards and their codes, the seedable SplitMix64 generator, the 52-card deck and its shuffle |
| `hand` | five-card evaluation, the best five of five to seven cards, comparing hands, describing them |
| `game`, `betting` | the table state, starting a hand, the No-Limit betting state machine and the streets |
| `showdown` | side pots, split pots and odd chips |
| `equity` | the Monte-Carlo roll-outs the computer players weigh |
| `table`, `controls`, `labels` | chips on the felt, blinds, the sound generator and music order, the betting bar, the deal order, and every label and banner |
| `laws`, `progress`, `dealing` | properties of the game as a whole: chips are conserved, every hand ends, no card is dealt twice, folded players win nothing |

`tests/` runs the engine on concrete hands, including whole hands played by
the computer players. `app/` is the Bevy program: the scene, animation,
sound and input, and the computer players' floating-point decisions.

Run `cargo test` for the tests; the app needs Bevy and its system libraries.
