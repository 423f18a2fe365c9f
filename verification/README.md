# brainball_solver

Finds flip sequences that solve a Brainball puzzle, and shows them as the
turns and flips a person holding the ball does.

The ball is a ring of thirteen numbered discs, each with a colour; twelve of
them move.  `src/` is the verified library:

- `cells`: five-bit cells packed into a `u64`, and the block reversal that
  every flip is made of;
- `ball`: the ball, its thirteen flips and the tests for a solved ball;
- `moves`: sequences of flips and what they do;
- `parity`: the parity of the arrangement of the numbers, which every flip
  changes and every three-cycle keeps;
- `search`: the depth-limited search over flip sequences and what it shows a
  visitor;
- `solver`: the meet-in-the-middle search, the colour-then-numbers fallback
  and the shortening of solutions;
- `display`: the steps and frames shown to a person;
- `store`: the `fnv` hash tables the searches use.

`app/` reads the ball from the command line and prints the solution.
