# hiroz_nav

Grid maps and grid path planning for a small ROS 2 / Zenoh navigation stack, with their
behaviour stated in contracts and proved with Verus.

* `src/` — the verified library: PGM header and body parsing (`pgm`), counting cell values
  (`cells`), the static map built from an image (`static_map`), the scan-filled occupancy grid
  (`costmap`), and snapping to a free cell and A* search (`planner`).
* `app/` — the programs around it (`mapio`, `planner`, `controller`, `costmap`,
  `gazebo_bridge`, chosen by the first argument): file and network I/O, command-line
  parsing, and the floating-point geometry.
* `tests/` — tests of the library on concrete maps and images.
