# monster_solitaire

The rules of a patience game played with a standard deck: tens, jacks,
queens and kings are monsters that jump out of the four tableau columns into
three monster slots, and the low cards are spent in pairs, in the two attack
slots beside a monster, to defeat it (an ace of the monster's suit is worth
seven). Defeat all sixteen monsters to win; a monster with no open slot
loses the game.

The library is written in Verus and proved:

- `src/card.rs`, `src/board.rs`: cards, the deck, the fifteen depots, moves in
  flight, where each flying card starts and lands, and how the moves land,
  with the board's mathematical model.
- `src/rules.rs`: the rules as spec functions, and the state each operation
  leads to.
- `src/game.rs`: the game state and its operations, each proved to do what
  `rules` says and to keep the invariant (a valid, undoable history; every
  card of the deal on the board, none created or lost).
- `src/laws.rs`: what undo gives back, the automatic moves, the
  reverse-stacking shortcut, and why a won game must have counted an ace
  as seven at least twice.
- `src/utils.rs`: run-length grouping used to refuse deals with clumps of
  monsters.

Dealing takes its random generator from the caller; `app/` seeds one from
the operating system. `app/` is a terminal front end that reads clicks as
commands and keeps the game in a JSON file.
