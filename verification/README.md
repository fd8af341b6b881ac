# pool_game

A two-player pool (billiards) game. The library under `src/` holds the parts of
the game that are decided on whole numbers and booleans, each with a contract
proved by Verus:

- `table`: window, cushion and pocket geometry, and the starting rack of fifteen
  red balls (proved not to overlap and to lie on the cloth);
- `grid`: the broad-phase grid that records which ball stands in which cell and
  lists the candidate pairs of balls that may touch (proved never to pair a ball
  with itself and to miss no ball in a neighbouring cell);
- `rules`: scoring, pocketed balls, the end of the game and whose turn it is
  (every red ball pocketed leaves the table and scores for the player at the
  table; a player who pots a red ball shoots again; otherwise the turn passes
  in the frame the cue ball comes to rest, even if the button is pressed in that
  frame, and that strike is the next player's shot; points plus balls left
  always add up to the rack).

The application under `app/` runs the window with ggez and does the ball motion,
collision impulses and pocket distance tests, which are floating point, calling
the library for every decision.
