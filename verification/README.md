# apo_colony

An ant-colony path optimiser over 2D maps. Ants walk from a start node,
choosing each move at random with probabilities drawn from distances and
pheromone trails; after every round the best slots reinforce the trails.

- `src/` is the verified library (Verus): the lower-triangular distance and
  pheromone tables of a one-directional map (building, lookups, writes,
  replacement with its shape checks), duplicate removal, the stable ordering
  used to rank slots and probabilities, the choice of a move from its
  thresholds, and the bookkeeping of slots and paths. The marker types of
  maps and nodes live here too.
- `app/` is the program around it: every part whose values are floating-point
  numbers (node coordinates, gains, probabilities, pheromone arithmetic) and
  the random draw, calling the library for the logic above.
- `tests/` exercises the library on concrete values.
