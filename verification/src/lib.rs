//! Grid maps and grid path planning for a small navigation stack.
//!
//! * `pgm`: the header and body of binary (P5) PGM images.
//! * `cells`: counting the values of occupancy cells.
//! * `static_map`: a static occupancy grid built from a PGM image.
//! * `costmap`: a robot-centred occupancy grid filled from range readings.
//! * `planner`: snapping to a passable cell and A* search on the grid.
pub mod cells;
pub mod pgm;
pub mod static_map;
pub mod costmap;
pub mod planner;
