# rmf_prototype

The verified core of a multi-robot prototype: the reservation of floor space for destinations,
the step-by-step release of plans with safe zones, and the markers that show both.

- `src/` is the library, verified with Verus.
  - `single`, `double`, `rounding`, `integral`, `precision`: IEEE 754 numbers as bit patterns,
    with their arithmetic in integers and what rounding keeps.
  - `region`, `session`, `grid`, `coverage`, `ledger`, `occupancy`, `reservation`, `server`,
    `discovery`: the destination service.
  - `messages`, `names`, `roster`, `executor`, `release`, `floor`, `fitting`, `execution`,
    `costmap`, `history`: the plan executor.
  - `topics`, `visualizer`: topics and markers.
- `tests/` runs the library on concrete values.
- `app/` holds the ROS 2 programs around the library.
