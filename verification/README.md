# maze_progs

A verified library for building and measuring grid mazes.

- `grid`: the maze as rows of squares, each a word of flag bits (walls, path, built,
  measured, painted), and filling a maze with walls.
- `carving`: carving squares and joining two squares through the wall between them.
- `hunt_kill`: the hunt-and-kill builder as a state machine whose every step is specified
  exactly, and `generate_maze`, which runs it from a random start in random directions and
  is proved to produce a perfect maze.
- `perfect`: what a perfect maze is (every lattice square carved, all connected, passages
  forming a spanning tree) and the proofs that each builder step keeps it in reach.
- `distance`: breadth-first distance measurement, proved to give shortest path lengths.
- `display`: the small decisions an animation makes about what to draw.
- `random`: the calls into `rand`.

`app/` holds the terminal animations (crossterm drawing, sleeping, painter threads and
colour arithmetic) around the library.
