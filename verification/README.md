# sinking_star

The rules of a sokoban-like puzzle, verified with Verus. A level is a map of
floor, walls, switches, doors and goals, with stones and three kinds of
actors: the warrior pushes the run of objects in front of it, the thief pulls
what stands behind it, and the wizard trades places with the first object
ahead. Doors open while every switch is held down; a door that closes crushes
the stones on it and traps the actors on it. A level is won when the actors
stand exactly on the goals.

Layout:

- `src/types.rs`: positions, directions, tiles, actors, actions.
- `src/level.rs`: the level file format, its parser and the level model.
- `src/board.rs`: the board model, the movement rules' building blocks, and
  the sorted lists that hold stones.
- `src/game.rs`: a game in progress, its actions, undo history and their
  specification.
- `src/render.rs`: the map as text, the report and the description.
- `src/actions.rs`: the text form of action sequences.
- `src/session.rs`: running a script of actions; handling key presses.
- `src/laws.rs`: properties proved of every game and every input.
- `src/text.rs`: character classes and string building.
- `app/main.rs`: the command-line program (terminal, files, arguments).
- `tests/`: scenarios run against the compiled library.
