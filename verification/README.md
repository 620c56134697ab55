# Nim Light

Nim Light is a maze-restricted hypergraph Nim, with a solver whose answers are proved right.

Live nodes are the cells of a maze, and walls split its rows and columns into corridors. A move takes
one or more nodes of a single corridor. Whoever takes the last node wins.

## Layout

- `src/` is the verified library: the board, the compilation of a maze into a bit matrix, its
  canonical form, move generation, symmetry certificates, the cached parallel evaluator, the choice
  of moves, and the rules of the game, the editor and the screen.
- `app/` is the terminal program: keys, colours, threads, the cache file, and the rates that are
  shown.
- `tests/` runs the library.

`src/nim.rs` holds the game and the theory: what a position, a move and a nimber are. Every function
that computes a nimber states its result over `grundy` of that file.

## Editor controls

```text
arrows / hjkl   move cursor
Tab             switch edit target
Space           toggle selected node/wall
n               compute nimber
c               clear cache
S               save completed cache entries to nim_light.cache
L               load completed cache entries from nim_light.cache
[ / ]           decrease / increase solver threads without clearing cache
y               switch symmetry certificates on / off
+ / -           resize rows
< / >           resize columns
r               reset to demo board
o               reset to open board
m / Esc         return to menu
q               quit
```
