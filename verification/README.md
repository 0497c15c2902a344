# Verified puzzle solvers

Solvers for a handful of CodinGame puzzles and contests, written in Verus: the
decision logic of every solver lives in `src/` and is proved against its
contract; `app/` reads the referee's input, does the floating-point geometry
that two of the contests need, and prints the commands.

## Library (`src/`)

- `text`: trimming and splitting input lines, reading `i32` fields, writing
  integers in decimal (with a proof that a written number reads back).
- `sorting`: a stable sort of keyed items (sorted, a permutation, stable).
- `rings`: spelling a phrase on a track of letter rings (Brain Fork), with a
  proof that running the spelled commands reads the phrase back.
- `chess`: the winner of a final chess board.
- `brewing`: a witch's command in the potion-brewing contest.
- `neighbours`: each node's nearest neighbours on a grid (There Is No Spoon).
- `lander`: the stage machine that guides the Mars lander.
- `wizards`: actions, re-ranking and spell counts of the base-defence contest.
- `ghost_legs`: following the legs and rungs of a ghost-legs diagram.

## Program (`app/`)

`solver <puzzle>` runs one solver on standard input, where `<puzzle>` is one of
`brain-fork`, `chess-board`, `fall-challenge`, `ghost-legs`, `mars-lander`,
`spring-challenge` and `there-is-no-spoon`.
