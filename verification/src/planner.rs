//! Path planning on a static occupancy grid: snapping a cell to a nearby free cell, and A*
//! search over the eight-connected grid.
use vstd::prelude::*;
use crate::cells::{FREE, OCCUPIED};
use crate::static_map::{lemma_cell_index, StaticMap};

verus! {

/// A grid cell: column and row.
pub type Cell = (usize, usize);

/// The absolute value of an integer.
pub open spec fn abs(v: int) -> int {
    if v < 0 {
        -v
    } else {
        v
    }
}

/// The ring of an offset: the larger of its absolute components (Chebyshev distance).
pub open spec fn ring(dx: int, dy: int) -> int {
    if abs(dx) >= abs(dy) {
        abs(dx)
    } else {
        abs(dy)
    }
}

/// The order in which offsets are searched: ring by ring outwards, then by `dx`, then by `dy`.
pub open spec fn searched_before(dx1: int, dy1: int, dx2: int, dy2: int) -> bool {
    ring(dx1, dy1) < ring(dx2, dy2) || (ring(dx1, dy1) == ring(dx2, dy2) && (dx1 < dx2 || (dx1
        == dx2 && dy1 < dy2)))
}

/// The cell at `from` shifted by `(dx, dy)` lies inside the map and is free.
pub open spec fn free_at_offset(map: &StaticMap, from: Cell, dx: int, dy: int) -> bool {
    map.in_bounds(from.0 + dx, from.1 + dy) && map.cell(from.0 + dx, from.1 + dy) == FREE
}

/// The offset `(dx, dy)` is one of those searched within `max_radius` around a cell.
pub open spec fn in_search(dx: int, dy: int, max_radius: int) -> bool {
    1 <= ring(dx, dy) <= max_radius
}

/// The cell itself is free, read at its index.
pub open spec fn free_at_index(map: &StaticMap, c: Cell) -> bool {
    map.cells@[map.index_of(c.0 as int, c.1 as int)] == FREE
}

/// Returns `from` if it is free; otherwise the first free cell inside the map within
/// `max_radius` rings around it, searching ring by ring outwards, each ring by increasing
/// `dx` and then increasing `dy`; `None` if there is none.
///
/// Every cell of each ring is searched: the result is a free cell nearest to `from` in
/// Chebyshev distance, and `None` means that no cell at Chebyshev distance `1..=max_radius`
/// inside the map is free.
pub fn nearest_passable(map: &StaticMap, from: Cell, max_radius: i64) -> (r: Option<Cell>)
    requires
        map.wf(),
        map.index_of(from.0 as int, from.1 as int) < map.cells@.len(),
        max_radius >= 1 ==> from.0 + max_radius <= i64::MAX && from.1 + max_radius <= i64::MAX
            && from.0 + max_radius <= usize::MAX && from.1 + max_radius <= usize::MAX,
    ensures
        free_at_index(map, from) ==> r == Some(from),
        !free_at_index(map, from) ==> match r {
            Some(c) => exists|dx: int, dy: int|
                {
                    &&& in_search(dx, dy, max_radius as int)
                    &&& free_at_offset(map, from, dx, dy)
                    &&& c.0 == from.0 + dx && c.1 == from.1 + dy
                    &&& forall|dx2: int, dy2: int|
                        in_search(dx2, dy2, max_radius as int) && searched_before(dx2, dy2, dx, dy)
                            ==> !free_at_offset(map, from, dx2, dy2)
                },
            None => forall|dx: int, dy: int|
                in_search(dx, dy, max_radius as int) ==> !free_at_offset(map, from, dx, dy),
        },
        map.cells@[from.1 * map.width + from.0] == FREE ==> r == Some(from),
        r is None && map.cells@[from.1 * map.width + from.0] != FREE ==> forall|x: int, y: int|
            #![trigger map.cells@[y * map.width + x]]
            0 <= x < map.width && 0 <= y < map.height && from.0 - max_radius <= x <= from.0
                + max_radius && from.1 - max_radius <= y <= from.1 + max_radius && (x != from.0
                || y != from.1) ==> map.cells@[y * map.width + x] != FREE,
        map.cells@[from.1 * map.width + from.0] != FREE && r is Some ==> ({
            let c = r->Some_0;
            let d = ring(c.0 - from.0, c.1 - from.1);
            &&& c.0 < map.width && c.1 < map.height
            &&& map.cells@[c.1 * map.width + c.0] == FREE
            &&& 1 <= d <= max_radius
            &&& forall|x: int, y: int|
                #![trigger map.cells@[y * map.width + x]]
                0 <= x < map.width && 0 <= y < map.height && from.0 - d < x < from.0 + d && from.1
                    - d < y < from.1 + d && (x != from.0 || y != from.1) ==> map.cells@[y
                    * map.width + x] != FREE
        }),
{
    let r = scan_rings(map, from, max_radius);
    proof {
        lemma_nearest_explicit(map, from, max_radius as int, r);
    }
    r
}

/// Proof that the result of the ring search, stated over offsets and the search order, says
/// the same over cells and Chebyshev distances.
proof fn lemma_nearest_explicit(map: &StaticMap, from: Cell, max_radius: int, r: Option<Cell>)
    requires
        !free_at_index(map, from) ==> match r {
            Some(c) => exists|dx: int, dy: int|
                {
                    &&& in_search(dx, dy, max_radius)
                    &&& free_at_offset(map, from, dx, dy)
                    &&& c.0 == from.0 + dx && c.1 == from.1 + dy
                    &&& forall|dx2: int, dy2: int|
                        in_search(dx2, dy2, max_radius) && searched_before(dx2, dy2, dx, dy)
                            ==> !free_at_offset(map, from, dx2, dy2)
                },
            None => forall|dx: int, dy: int|
                in_search(dx, dy, max_radius) ==> !free_at_offset(map, from, dx, dy),
        },
    ensures
        r is None && map.cells@[from.1 * map.width + from.0] != FREE ==> forall|x: int, y: int|
            #![trigger map.cells@[y * map.width + x]]
            0 <= x < map.width && 0 <= y < map.height && from.0 - max_radius <= x <= from.0
                + max_radius && from.1 - max_radius <= y <= from.1 + max_radius && (x != from.0
                || y != from.1) ==> map.cells@[y * map.width + x] != FREE,
        map.cells@[from.1 * map.width + from.0] != FREE && r is Some ==> ({
            let c = r->Some_0;
            let d = ring(c.0 - from.0, c.1 - from.1);
            &&& c.0 < map.width && c.1 < map.height
            &&& map.cells@[c.1 * map.width + c.0] == FREE
            &&& 1 <= d <= max_radius
            &&& forall|x: int, y: int|
                #![trigger map.cells@[y * map.width + x]]
                0 <= x < map.width && 0 <= y < map.height && from.0 - d < x < from.0 + d && from.1
                    - d < y < from.1 + d && (x != from.0 || y != from.1) ==> map.cells@[y
                    * map.width + x] != FREE
        }),
{
    if map.cells@[from.1 * map.width + from.0] != FREE {
        match r {
            None => {
                assert forall|x: int, y: int|
                    #![trigger map.cells@[y * map.width + x]]
                    0 <= x < map.width && 0 <= y < map.height && from.0 - max_radius <= x <= from.0
                        + max_radius && from.1 - max_radius <= y <= from.1 + max_radius && (x
                        != from.0 || y != from.1) implies map.cells@[y * map.width + x] != FREE by {
                    let dx = x - from.0;
                    let dy = y - from.1;
                    assert(in_search(dx, dy, max_radius));
                    assert(!free_at_offset(map, from, dx, dy));
                }
            },
            Some(c) => {
                let (dx, dy) = choose|dx: int, dy: int|
                    {
                        &&& in_search(dx, dy, max_radius)
                        &&& free_at_offset(map, from, dx, dy)
                        &&& c.0 == from.0 + dx && c.1 == from.1 + dy
                        &&& forall|dx2: int, dy2: int|
                            in_search(dx2, dy2, max_radius) && searched_before(dx2, dy2, dx, dy)
                                ==> !free_at_offset(map, from, dx2, dy2)
                    };
                let d = ring(dx, dy);
                assert forall|x: int, y: int|
                    #![trigger map.cells@[y * map.width + x]]
                    0 <= x < map.width && 0 <= y < map.height && from.0 - d < x < from.0 + d
                        && from.1 - d < y < from.1 + d && (x != from.0 || y != from.1) implies map.cells@[y
                        * map.width + x] != FREE by {
                    let dx2 = x - from.0;
                    let dy2 = y - from.1;
                    assert(in_search(dx2, dy2, max_radius));
                    assert(searched_before(dx2, dy2, dx, dy));
                    assert(!free_at_offset(map, from, dx2, dy2));
                }
            },
        }
    }
}

/// Searches the rings around `from` for a free cell, as `nearest_passable` says.
fn scan_rings(map: &StaticMap, from: Cell, max_radius: i64) -> (r: Option<Cell>)
    requires
        map.wf(),
        map.index_of(from.0 as int, from.1 as int) < map.cells@.len(),
        max_radius >= 1 ==> from.0 + max_radius <= i64::MAX && from.1 + max_radius <= i64::MAX
            && from.0 + max_radius <= usize::MAX && from.1 + max_radius <= usize::MAX,
    ensures
        free_at_index(map, from) ==> r == Some(from),
        !free_at_index(map, from) ==> match r {
            Some(c) => exists|dx: int, dy: int|
                {
                    &&& in_search(dx, dy, max_radius as int)
                    &&& free_at_offset(map, from, dx, dy)
                    &&& c.0 == from.0 + dx && c.1 == from.1 + dy
                    &&& forall|dx2: int, dy2: int|
                        in_search(dx2, dy2, max_radius as int) && searched_before(dx2, dy2, dx, dy)
                            ==> !free_at_offset(map, from, dx2, dy2)
                },
            None => forall|dx: int, dy: int|
                in_search(dx, dy, max_radius as int) ==> !free_at_offset(map, from, dx, dy),
        },
{
    if map.is_free(from.0, from.1) {
        return Some(from);
    }
    if max_radius < 1 {
        return None;
    }
    let mut r: i64 = 1;
    while r <= max_radius
        invariant
            map.wf(),
            !free_at_index(map, from),
            1 <= r <= max_radius,
            from.0 + max_radius <= i64::MAX && from.1 + max_radius <= i64::MAX,
            from.0 + max_radius <= usize::MAX && from.1 + max_radius <= usize::MAX,
            forall|dx: int, dy: int|
                1 <= ring(dx, dy) < r ==> !free_at_offset(map, from, dx, dy),
        decreases max_radius - r,
    {
        let mut dx: i64 = -r;
        loop
            invariant_except_break
                map.wf(),
                !free_at_index(map, from),
                1 <= r <= max_radius,
                -r <= dx <= r,
                from.0 + max_radius <= i64::MAX && from.1 + max_radius <= i64::MAX,
                from.0 + max_radius <= usize::MAX && from.1 + max_radius <= usize::MAX,
                forall|dx2: int, dy2: int|
                    1 <= ring(dx2, dy2) < r ==> !free_at_offset(map, from, dx2, dy2),
                forall|dx2: int, dy2: int|
                    ring(dx2, dy2) == r && dx2 < dx ==> !free_at_offset(map, from, dx2, dy2),
            ensures
                forall|dx2: int, dy2: int|
                    1 <= ring(dx2, dy2) <= r ==> !free_at_offset(map, from, dx2, dy2),
            decreases r - dx,
        {
            let mut dy: i64 = -r;
            loop
                invariant_except_break
                    map.wf(),
                    !free_at_index(map, from),
                    1 <= r <= max_radius,
                    -r <= dx <= r,
                    -r <= dy <= r,
                    from.0 + max_radius <= i64::MAX && from.1 + max_radius <= i64::MAX,
                    from.0 + max_radius <= usize::MAX && from.1 + max_radius <= usize::MAX,
                    forall|dx2: int, dy2: int|
                        1 <= ring(dx2, dy2) < r ==> !free_at_offset(map, from, dx2, dy2),
                    forall|dx2: int, dy2: int|
                        ring(dx2, dy2) == r && dx2 < dx ==> !free_at_offset(map, from, dx2, dy2),
                    forall|dy2: int|
                        ring(dx as int, dy2) == r && dy2 < dy ==> !free_at_offset(
                            map,
                            from,
                            dx as int,
                            dy2,
                        ),
                ensures
                    forall|dy2: int|
                        ring(dx as int, dy2) == r ==> !free_at_offset(map, from, dx as int, dy2),
                decreases r - dy,
            {
                if dx == r || dx == -r || dy == r || dy == -r {
                    let nx = from.0 as i64 + dx;
                    let ny = from.1 as i64 + dy;
                    if !(nx < 0 || ny < 0 || nx as usize >= map.width || ny as usize
                        >= map.height) {
                        let cell = (nx as usize, ny as usize);
                        proof {
                            lemma_cell_index(map.width as int, map.height as int, nx as int, ny as int);
                            assert(map.height * map.width == map.width * map.height) by (nonlinear_arith);
                        }
                        if map.is_free(cell.0, cell.1) {
                            proof {
                                assert(in_search(dx as int, dy as int, max_radius as int));
                                assert(free_at_offset(map, from, dx as int, dy as int));
                                assert forall|dx2: int, dy2: int|
                                    in_search(dx2, dy2, max_radius as int) && searched_before(
                                        dx2,
                                        dy2,
                                        dx as int,
                                        dy as int,
                                    ) implies !free_at_offset(map, from, dx2, dy2) by {
                                    if ring(dx2, dy2) == r && dx2 == dx {
                                    }
                                }
                            }
                            return Some(cell);
                        }
                    }
                }
                if dy == r {
                    break;
                }
                dy = dy + 1;
            }
            if dx == r {
                break;
            }
            dx = dx + 1;
        }
        if r == max_radius {
            return None;
        }
        r = r + 1;
    }
    None
}

/// A node of the A* open list: a cell and its key, the cost so far plus the estimate to go.
#[derive(Clone, Copy, Debug)]
pub struct Node {
    pub cost: u32,
    pub cell: Cell,
}

/// Two cells are neighbours in the eight-connected grid.
pub open spec fn is_adjacent(a: Cell, b: Cell) -> bool {
    a != b && abs(b.0 - a.0) <= 1 && abs(b.1 - a.1) <= 1
}

/// The cost of a move between neighbours: 10 along an axis, 14 diagonally.
pub open spec fn step_cost(a: Cell, b: Cell) -> int {
    if a.0 != b.0 && a.1 != b.1 {
        14
    } else {
        10
    }
}

/// A cell that a path may enter: inside the map and not occupied.
pub open spec fn passable(map: &StaticMap, c: Cell) -> bool {
    map.in_bounds(c.0 as int, c.1 as int) && map.cell(c.0 as int, c.1 as int) != OCCUPIED
}

/// A move from `a` into its neighbour `b`, which is passable.
pub open spec fn is_step(map: &StaticMap, a: Cell, b: Cell) -> bool {
    is_adjacent(a, b) && passable(map, b)
}

/// A walk from `start` to `goal`: it begins at `start`, ends at `goal`, and each cell after
/// the first is entered by a move. The start cell itself may be occupied.
pub open spec fn is_walk(map: &StaticMap, p: Seq<Cell>, start: Cell, goal: Cell) -> bool {
    &&& p.len() > 0
    &&& p[0] == start
    &&& p.last() == goal
    &&& forall|i: int| 0 <= i < p.len() - 1 ==> #[trigger] is_step(map, p[i], p[i + 1])
}

/// The cost of a walk: the sum of the costs of its moves.
pub open spec fn walk_cost(p: Seq<Cell>) -> int
    decreases p.len(),
{
    if p.len() <= 1 {
        0
    } else {
        step_cost(p[0], p[1]) + walk_cost(p.drop_first())
    }
}

/// The octile distance between two cells: the cost of the cheapest walk between them on a
/// grid without obstacles.
pub open spec fn octile(a: Cell, b: Cell) -> int {
    let dx = abs(a.0 - b.0);
    let dy = abs(a.1 - b.1);
    if dx <= dy {
        4 * dx + 10 * dy
    } else {
        10 * dx + 4 * dy
    }
}

/// Costs on the map fit in `u32`: fourteen times the number of cells plus the map's width
/// and height.
pub open spec fn search_fits(map: &StaticMap) -> bool {
    14 * (map.width * map.height + map.width + map.height) <= u32::MAX
}

/// The `k`-th of the eight moves: column offset, row offset and cost.
pub open spec fn move_of(k: int) -> (int, int, int) {
    if k == 0 {
        (-1, 0, 10)
    } else if k == 1 {
        (1, 0, 10)
    } else if k == 2 {
        (0, -1, 10)
    } else if k == 3 {
        (0, 1, 10)
    } else if k == 4 {
        (-1, -1, 14)
    } else if k == 5 {
        (-1, 1, 14)
    } else if k == 6 {
        (1, -1, 14)
    } else {
        (1, 1, 14)
    }
}

/// The `k`-th of the eight moves.
fn neighbor_move(k: usize) -> (m: (i64, i64, u32))
    requires
        k < 8,
    ensures
        m.0 == move_of(k as int).0,
        m.1 == move_of(k as int).1,
        m.2 == move_of(k as int).2,
{
    if k == 0 {
        (-1, 0, 10)
    } else if k == 1 {
        (1, 0, 10)
    } else if k == 2 {
        (0, -1, 10)
    } else if k == 3 {
        (0, 1, 10)
    } else if k == 4 {
        (-1, -1, 14)
    } else if k == 5 {
        (-1, 1, 14)
    } else if k == 6 {
        (1, -1, 14)
    } else {
        (1, 1, 14)
    }
}

/// The move that leads from `a` to its neighbour `b`.
pub open spec fn move_index(a: Cell, b: Cell) -> int {
    let dx = b.0 - a.0;
    let dy = b.1 - a.1;
    if dy == 0 {
        if dx < 0 {
            0
        } else {
            1
        }
    } else if dx == 0 {
        if dy < 0 {
            2
        } else {
            3
        }
    } else if dx < 0 {
        if dy < 0 {
            4
        } else {
            5
        }
    } else if dy < 0 {
        6
    } else {
        7
    }
}

/// Proof that each neighbour is reached by one of the eight moves, at the cost of the step.
pub proof fn lemma_move_index(a: Cell, b: Cell)
    requires
        is_adjacent(a, b),
    ensures
        0 <= move_index(a, b) < 8,
        b.0 == a.0 + move_of(move_index(a, b)).0,
        b.1 == a.1 + move_of(move_index(a, b)).1,
        step_cost(a, b) == move_of(move_index(a, b)).2,
{
}

/// Proof that the octile distance never drops by more than the cost of one move.
pub proof fn lemma_octile_consistent(a: Cell, b: Cell, goal: Cell)
    requires
        is_adjacent(a, b),
    ensures
        octile(a, goal) <= step_cost(a, b) + octile(b, goal),
{
}

/// Proof that the octile distance to the goal is at most the cost of any walk to it.
pub proof fn lemma_octile_admissible(map: &StaticMap, p: Seq<Cell>, goal: Cell)
    requires
        p.len() > 0,
        p.last() == goal,
        forall|i: int| 0 <= i < p.len() - 1 ==> #[trigger] is_step(map, p[i], p[i + 1]),
    ensures
        octile(p[0], goal) <= walk_cost(p),
    decreases p.len(),
{
    if p.len() > 1 {
        let q = p.drop_first();
        assert forall|i: int| 0 <= i < q.len() - 1 implies #[trigger] is_step(map, q[i], q[i + 1]) by {
            let j = i + 1;
            assert(is_step(map, p[j], p[j + 1]));
            assert(q[i] == p[j] && q[i + 1] == p[j + 1]);
        }
        lemma_octile_admissible(map, q, goal);
        assert(is_step(map, p[0], p[1]));
        lemma_octile_consistent(p[0], p[1], goal);
    }
}

/// Proof that the cost of a walk splits at any cell into the costs before and after it.
pub proof fn lemma_walk_cost_split(p: Seq<Cell>, j: int)
    requires
        0 <= j < p.len(),
    ensures
        walk_cost(p) == walk_cost(p.take(j + 1)) + walk_cost(p.skip(j)),
    decreases j,
{
    if j == 0 {
        assert(p.skip(0) =~= p);
    } else {
        let q = p.drop_first();
        lemma_walk_cost_split(q, j - 1);
        assert(p.take(j + 1).drop_first() =~= q.take(j));
        assert(p.skip(j) =~= q.skip(j - 1));
    }
}

/// The moves that walks are made of, spelled out over cells: a walk from `start` to `goal` is
/// exactly a nonempty sequence from `start` to `goal` in which each later cell is a neighbour of
/// the one before (column and row differ by at most one, and not both by zero), lies inside the
/// map and is not occupied. Free and unknown cells may both be entered; the start may be
/// occupied.
pub proof fn lemma_walk_spelled_out(map: &StaticMap, p: Seq<Cell>, start: Cell, goal: Cell)
    ensures
        is_walk(map, p, start, goal) <==> {
            &&& p.len() > 0
            &&& p[0] == start
            &&& p[p.len() - 1] == goal
            &&& forall|i: int|
                #![trigger p[i]]
                0 <= i < p.len() - 1 ==> {
                    &&& -1 <= p[i + 1].0 - p[i].0 <= 1
                    &&& -1 <= p[i + 1].1 - p[i].1 <= 1
                    &&& (p[i + 1].0 != p[i].0 || p[i + 1].1 != p[i].1)
                    &&& p[i + 1].0 < map.width
                    &&& p[i + 1].1 < map.height
                    &&& map.cells@[p[i + 1].1 * map.width + p[i + 1].0] != OCCUPIED
                }
        },
{
    let spelled = p.len() > 0 && p[0] == start && p[p.len() - 1] == goal && forall|i: int|
        #![trigger p[i]]
        0 <= i < p.len() - 1 ==> {
            &&& -1 <= p[i + 1].0 - p[i].0 <= 1
            &&& -1 <= p[i + 1].1 - p[i].1 <= 1
            &&& (p[i + 1].0 != p[i].0 || p[i + 1].1 != p[i].1)
            &&& p[i + 1].0 < map.width
            &&& p[i + 1].1 < map.height
            &&& map.cells@[p[i + 1].1 * map.width + p[i + 1].0] != OCCUPIED
        };
    if is_walk(map, p, start, goal) {
        assert forall|i: int| #![trigger p[i]] 0 <= i < p.len() - 1 implies {
            &&& -1 <= p[i + 1].0 - p[i].0 <= 1
            &&& -1 <= p[i + 1].1 - p[i].1 <= 1
            &&& (p[i + 1].0 != p[i].0 || p[i + 1].1 != p[i].1)
            &&& p[i + 1].0 < map.width
            &&& p[i + 1].1 < map.height
            &&& map.cells@[p[i + 1].1 * map.width + p[i + 1].0] != OCCUPIED
        } by {
            assert(is_step(map, p[i], p[i + 1]));
        }
    }
    if spelled {
        assert forall|i: int| 0 <= i < p.len() - 1 implies #[trigger] is_step(map, p[i], p[i + 1]) by {
            assert(p[i] == p[i]);
        }
    }
}

/// What moves cost, spelled out: a single cell costs nothing, a move along an axis 10, a
/// diagonal move 14, and a longer walk the cost of its first move plus the rest.
pub proof fn lemma_walk_cost_spelled_out(p: Seq<Cell>)
    ensures
        p.len() <= 1 ==> walk_cost(p) == 0,
        p.len() >= 2 ==> walk_cost(p) == (if p[0].0 != p[1].0 && p[0].1 != p[1].1 {
            14int
        } else {
            10int
        }) + walk_cost(p.drop_first()),
{
}

/// Every cell of every ring within the radius is searched: an offset is searched exactly when
/// it is not zero and neither of its components exceeds the radius in size. The ring of an
/// offset is the larger size of its components.
pub proof fn lemma_search_covers_rings(dx: int, dy: int, max_radius: int)
    ensures
        in_search(dx, dy, max_radius) <==> ((dx != 0 || dy != 0) && -max_radius <= dx
            <= max_radius && -max_radius <= dy <= max_radius),
        ring(dx, dy) >= dx && ring(dx, dy) >= -dx && ring(dx, dy) >= dy && ring(dx, dy) >= -dy,
        ring(dx, dy) == dx || ring(dx, dy) == -dx || ring(dx, dy) == dy || ring(dx, dy) == -dy,
{
}

/// The search order: by ring outwards, within a ring by increasing `dx`, then by increasing
/// `dy`.
pub proof fn lemma_search_order(dx1: int, dy1: int, dx2: int, dy2: int)
    ensures
        searched_before(dx1, dy1, dx2, dy2) <==> (ring(dx1, dy1) < ring(dx2, dy2) || (ring(
            dx1,
            dy1,
        ) == ring(dx2, dy2) && dx1 < dx2) || (ring(dx1, dy1) == ring(dx2, dy2) && dx1 == dx2
            && dy1 < dy2)),
        !searched_before(dx1, dy1, dx1, dy1),
        searched_before(dx1, dy1, dx2, dy2) ==> !searched_before(dx2, dy2, dx1, dy1),
{
}

/// The cell found at an offset is free exactly when it lies inside the map and its entry,
/// `y * width + x`, holds the free value.
pub proof fn lemma_free_at_offset_spelled_out(map: &StaticMap, from: Cell, dx: int, dy: int)
    ensures
        free_at_offset(map, from, dx, dy) <==> (0 <= from.0 + dx < map.width && 0 <= from.1 + dy
            < map.height && map.cells@[(from.1 + dy) * map.width + (from.0 + dx)] == FREE),
        free_at_index(map, from) <==> map.cells@[from.1 * map.width + from.0] == FREE,
{
}

/// The octile distance as computed on cell coordinates.
fn heuristic(a: Cell, b: Cell) -> (h: u32)
    requires
        a.0 <= u32::MAX,
        a.1 <= u32::MAX,
        b.0 <= u32::MAX,
        b.1 <= u32::MAX,
        octile(a, b) <= u32::MAX,
    ensures
        h == octile(a, b),
{
    let dx: i64 = if a.0 >= b.0 {
        (a.0 - b.0) as i64
    } else {
        (b.0 - a.0) as i64
    };
    let dy: i64 = if a.1 >= b.1 {
        (a.1 - b.1) as i64
    } else {
        (b.1 - a.1) as i64
    };
    let m: i64 = if dx <= dy {
        dx
    } else {
        dy
    };
    (10 * (dx + dy) - 6 * m) as u32
}

/// The number of finite entries of a cost table (`u32::MAX` stands for "not reached").
pub open spec fn count_finite(g: Seq<u32>) -> nat
    decreases g.len(),
{
    if g.len() == 0 {
        0
    } else {
        count_finite(g.drop_last()) + if g.last() < u32::MAX {
            1nat
        } else {
            0nat
        }
    }
}

/// The sum of the entries of a cost table.
pub open spec fn sum_costs(g: Seq<u32>) -> nat
    decreases g.len(),
{
    if g.len() == 0 {
        0
    } else {
        sum_costs(g.drop_last()) + g.last() as nat
    }
}

proof fn lemma_count_finite_le(g: Seq<u32>)
    ensures
        count_finite(g) <= g.len(),
    decreases g.len(),
{
    if g.len() > 0 {
        lemma_count_finite_le(g.drop_last());
    }
}

proof fn lemma_count_finite_update(g: Seq<u32>, i: int, v: u32)
    requires
        0 <= i < g.len(),
    ensures
        count_finite(g.update(i, v)) + (if g[i] < u32::MAX {
            1int
        } else {
            0int
        }) == count_finite(g) + (if v < u32::MAX {
            1int
        } else {
            0int
        }),
    decreases g.len(),
{
    let t = g.update(i, v);
    if i == g.len() - 1 {
        assert(t.drop_last() =~= g.drop_last());
    } else {
        assert(t.drop_last() =~= g.drop_last().update(i, v));
        lemma_count_finite_update(g.drop_last(), i, v);
    }
}

proof fn lemma_sum_costs_update(g: Seq<u32>, i: int, v: u32)
    requires
        0 <= i < g.len(),
    ensures
        sum_costs(g.update(i, v)) + g[i] == sum_costs(g) + v,
    decreases g.len(),
{
    let t = g.update(i, v);
    if i == g.len() - 1 {
        assert(t.drop_last() =~= g.drop_last());
    } else {
        assert(t.drop_last() =~= g.drop_last().update(i, v));
        lemma_sum_costs_update(g.drop_last(), i, v);
    }
}

/// The cost so far recorded for cell `c`.
pub open spec fn gval(map: &StaticMap, g: Seq<u32>, c: Cell) -> u32 {
    g[map.index_of(c.0 as int, c.1 as int)]
}

/// The cell from which `c` was last reached, if any.
pub open spec fn parent(map: &StaticMap, cf: Seq<Option<Cell>>, c: Cell) -> Option<Cell> {
    cf[map.index_of(c.0 as int, c.1 as int)]
}

/// Cell `c` lies inside the map.
pub open spec fn inside(map: &StaticMap, c: Cell) -> bool {
    map.in_bounds(c.0 as int, c.1 as int)
}

/// Each recorded parent is inside the map, a move leads from it to the cell, and the cell's
/// cost is at least the parent's plus the move.
pub open spec fn parents_ok(map: &StaticMap, g: Seq<u32>, cf: Seq<Option<Cell>>) -> bool {
    forall|c: Cell|
        #![trigger parent(map, cf, c)]
        inside(map, c) && parent(map, cf, c) is Some ==> {
            let p = parent(map, cf, c)->Some_0;
            &&& inside(map, p)
            &&& is_step(map, p, c)
            &&& gval(map, g, c) < u32::MAX
            &&& gval(map, g, p) + step_cost(p, c) <= gval(map, g, c)
        }
}

/// Every reached cell but the start has a parent.
pub open spec fn parents_exist(
    map: &StaticMap,
    g: Seq<u32>,
    cf: Seq<Option<Cell>>,
    start: Cell,
) -> bool {
    forall|c: Cell|
        #![trigger parent(map, cf, c)]
        inside(map, c) && c != start && gval(map, g, c) < u32::MAX ==> parent(map, cf, c) is Some
}

/// The open list holds an entry for `c` with key `key`.
pub open spec fn has_entry(open: Seq<Node>, c: Cell, key: int) -> bool {
    exists|j: int| 0 <= j < open.len() && #[trigger] open[j].cell == c && open[j].cost == key
}

/// Every move out of `c` leads to a cell whose cost is at most `c`'s plus the move.
pub open spec fn relaxed(map: &StaticMap, g: Seq<u32>, c: Cell) -> bool {
    forall|n: Cell|
        #[trigger] is_step(map, c, n) ==> gval(map, g, n) <= gval(map, g, c) + step_cost(c, n)
}

/// Every reached cell other than `skip` either waits in the open list with its current key,
/// or has passed its cost on to all its neighbours.
pub open spec fn frontier_except(
    map: &StaticMap,
    g: Seq<u32>,
    open: Seq<Node>,
    goal: Cell,
    skip: Option<Cell>,
) -> bool {
    forall|c: Cell|
        #![trigger gval(map, g, c)]
        inside(map, c) && gval(map, g, c) < u32::MAX && skip != Some(c) ==> has_entry(
            open,
            c,
            gval(map, g, c) + octile(c, goal),
        ) || relaxed(map, g, c)
}

/// Each entry of the open list names a reached cell inside the map, and its key is at least
/// the cell's current cost plus its octile distance to the goal.
pub open spec fn entries_ok(map: &StaticMap, g: Seq<u32>, open: Seq<Node>, goal: Cell) -> bool {
    forall|j: int|
        #![trigger open[j]]
        0 <= j < open.len() ==> {
            &&& inside(map, open[j].cell)
            &&& gval(map, g, open[j].cell) < u32::MAX
            &&& open[j].cost >= gval(map, g, open[j].cell) + octile(open[j].cell, goal)
        }
}

/// Once the goal has been reached it waits in the open list.
pub open spec fn goal_queued(map: &StaticMap, g: Seq<u32>, open: Seq<Node>, goal: Cell) -> bool {
    gval(map, g, goal) < u32::MAX ==> exists|j: int|
        0 <= j < open.len() && #[trigger] open[j].cell == goal
}

/// Costs stay small: with `d` cells reached, every cost is at most `14 * (d - 1)`.
pub open spec fn costs_bounded(g: Seq<u32>) -> bool {
    &&& count_finite(g) >= 1
    &&& forall|i: int|
        0 <= i < g.len() && #[trigger] g[i] < u32::MAX ==> g[i] + 14 <= 14 * count_finite(g)
}

/// What holds of the search state between two steps, apart from the frontier.
pub open spec fn search_core(
    map: &StaticMap,
    start: Cell,
    goal: Cell,
    g: Seq<u32>,
    cf: Seq<Option<Cell>>,
    open: Seq<Node>,
) -> bool {
    &&& map.wf()
    &&& search_fits(map)
    &&& g.len() == map.width * map.height
    &&& cf.len() == map.width * map.height
    &&& inside(map, start)
    &&& inside(map, goal)
    &&& gval(map, g, start) == 0
    &&& parent(map, cf, start) is None
    &&& parents_ok(map, g, cf)
    &&& parents_exist(map, g, cf, start)
    &&& entries_ok(map, g, open, goal)
    &&& goal_queued(map, g, open, goal)
    &&& costs_bounded(g)
}

/// The invariant of the search loop.
pub open spec fn search_inv(
    map: &StaticMap,
    start: Cell,
    goal: Cell,
    g: Seq<u32>,
    cf: Seq<Option<Cell>>,
    open: Seq<Node>,
) -> bool {
    &&& search_core(map, start, goal, g, cf, open)
    &&& frontier_except(map, g, open, goal, None)
}

/// The invariant while the neighbours of `c` are visited: the first `k` moves out of `c`
/// have passed on its cost.
pub open spec fn expand_inv(
    map: &StaticMap,
    start: Cell,
    goal: Cell,
    g: Seq<u32>,
    cf: Seq<Option<Cell>>,
    open: Seq<Node>,
    c: Cell,
    k: int,
) -> bool {
    &&& search_core(map, start, goal, g, cf, open)
    &&& frontier_except(map, g, open, goal, Some(c))
    &&& inside(map, c)
    &&& gval(map, g, c) < u32::MAX
    &&& forall|n: Cell|
        #[trigger] is_step(map, c, n) && move_index(c, n) < k ==> gval(map, g, n) <= gval(
            map,
            g,
            c,
        ) + step_cost(c, n)
}

/// Proof that a cell inside the map has an index inside the cost table.
proof fn lemma_inside_index(map: &StaticMap, c: Cell)
    requires
        map.wf(),
        inside(map, c),
    ensures
        0 <= map.index_of(c.0 as int, c.1 as int) < map.width * map.height,
{
    lemma_cell_index(map.width as int, map.height as int, c.0 as int, c.1 as int);
    assert(map.height * map.width == map.width * map.height) by (nonlinear_arith);
}

/// Proof that cells inside the map with the same index are the same cell.
proof fn lemma_inside_index_injective(map: &StaticMap, a: Cell, b: Cell)
    requires
        inside(map, a),
        inside(map, b),
        map.index_of(a.0 as int, a.1 as int) == map.index_of(b.0 as int, b.1 as int),
    ensures
        a == b,
{
    crate::static_map::lemma_cell_index_injective(
        map.width as int,
        a.0 as int,
        a.1 as int,
        b.0 as int,
        b.1 as int,
    );
}

/// Proof that lowering the cost of neighbour `n` of `c` to `t`, recording `c` as its parent
/// and queueing it with key `key` keeps the invariant of the expansion, one move further.
proof fn lemma_relax(
    map: &StaticMap,
    start: Cell,
    goal: Cell,
    g: Seq<u32>,
    cf: Seq<Option<Cell>>,
    open: Seq<Node>,
    c: Cell,
    k: int,
    n: Cell,
    t: u32,
    key: u32,
)
    requires
        expand_inv(map, start, goal, g, cf, open, c, k),
        is_step(map, c, n),
        move_index(c, n) == k,
        t == gval(map, g, c) + step_cost(c, n),
        t < gval(map, g, n),
        key == t + octile(n, goal),
    ensures
        ({
            let i = map.index_of(n.0 as int, n.1 as int);
            let g2 = g.update(i, t);
            let cf2 = cf.update(i, Some(c));
            let open2 = open.push(Node { cost: key, cell: n });
            &&& expand_inv(map, start, goal, g2, cf2, open2, c, k + 1)
            &&& sum_costs(g2) < sum_costs(g)
            &&& gval(map, g2, c) == gval(map, g, c)
        }),
{
    let i = map.index_of(n.0 as int, n.1 as int);
    let g2 = g.update(i, t);
    let cf2 = cf.update(i, Some(c));
    let open2 = open.push(Node { cost: key, cell: n });
    lemma_inside_index(map, n);
    lemma_inside_index(map, c);
    // Costs of other cells do not change.
    assert forall|d: Cell| inside(map, d) implies gval(map, g2, d) == if d == n {
        t
    } else {
        gval(map, g, d)
    } && parent(map, cf2, d) == if d == n {
        Some(c)
    } else {
        parent(map, cf, d)
    } by {
        lemma_inside_index(map, d);
        if map.index_of(d.0 as int, d.1 as int) == i {
            lemma_inside_index_injective(map, d, n);
        }
    }
    assert(n != start);
    assert(c != n);
    // Parents.
    assert forall|d: Cell| #![trigger parent(map, cf2, d)]
        inside(map, d) && parent(map, cf2, d) is Some implies {
        let p = parent(map, cf2, d)->Some_0;
        &&& inside(map, p)
        &&& is_step(map, p, d)
        &&& gval(map, g2, d) < u32::MAX
        &&& gval(map, g2, p) + step_cost(p, d) <= gval(map, g2, d)
    } by {
        if d != n {
            let p = parent(map, cf, d)->Some_0;
            assert(inside(map, p));
            assert(gval(map, g2, p) <= gval(map, g, p));
        }
    }
    assert(parents_exist(map, g2, cf2, start)) by {
        assert forall|d: Cell| #![trigger parent(map, cf2, d)]
            inside(map, d) && d != start && gval(map, g2, d) < u32::MAX implies parent(
            map,
            cf2,
            d,
        ) is Some by {
            if d != n {
                assert(parent(map, cf, d) is Some);
            }
        }
    }
    // Open list entries.
    assert forall|j: int| #![trigger open2[j]] 0 <= j < open2.len() implies {
        &&& inside(map, open2[j].cell)
        &&& gval(map, g2, open2[j].cell) < u32::MAX
        &&& open2[j].cost >= gval(map, g2, open2[j].cell) + octile(open2[j].cell, goal)
    } by {
        if j < open.len() {
            assert(open2[j] == open[j]);
            assert(inside(map, open[j].cell));
        }
    }
    assert(goal_queued(map, g2, open2, goal)) by {
        if gval(map, g2, goal) < u32::MAX {
            if goal == n {
                assert(open2[open.len() as int].cell == goal);
            } else {
                let j = choose|j: int| 0 <= j < open.len() && #[trigger] open[j].cell == goal;
                assert(open2[j].cell == goal);
            }
        }
    }
    // The bound on costs.
    lemma_count_finite_update(g, i, t);
    lemma_count_finite_le(g);
    assert forall|j: int| 0 <= j < g2.len() && #[trigger] g2[j] < u32::MAX implies g2[j] + 14
        <= 14 * count_finite(g2) by {
        if j == i {
            assert(g[map.index_of(c.0 as int, c.1 as int)] + 14 <= 14 * count_finite(g));
        } else {
            assert(g2[j] == g[j]);
        }
    }
    // The frontier.
    assert forall|d: Cell| #![trigger gval(map, g2, d)]
        inside(map, d) && gval(map, g2, d) < u32::MAX && Some(c) != Some(d) implies has_entry(
        open2,
        d,
        gval(map, g2, d) + octile(d, goal),
    ) || relaxed(map, g2, d) by {
        if d == n {
            assert(open2[open.len() as int].cell == n);
        } else if has_entry(open, d, gval(map, g, d) + octile(d, goal)) {
            let j = choose|j: int|
                0 <= j < open.len() && #[trigger] open[j].cell == d && open[j].cost == gval(
                    map,
                    g,
                    d,
                ) + octile(d, goal);
            assert(open2[j] == open[j]);
        } else {
            assert(relaxed(map, g, d));
            assert forall|m: Cell| #[trigger] is_step(map, d, m) implies gval(map, g2, m) <= gval(
                map,
                g2,
                d,
            ) + step_cost(d, m) by {
                assert(gval(map, g, m) <= gval(map, g, d) + step_cost(d, m));
            }
        }
    }
    // The moves out of `c` visited so far.
    assert forall|m: Cell| #[trigger] is_step(map, c, m) && move_index(c, m) < k + 1 implies gval(
        map,
        g2,
        m,
    ) <= gval(map, g2, c) + step_cost(c, m) by {
        if move_index(c, m) == k {
            lemma_move_index(c, m);
            lemma_move_index(c, n);
        } else {
            assert(gval(map, g, m) <= gval(map, g, c) + step_cost(c, m));
        }
    }
    lemma_sum_costs_update(g, i, t);
}

/// Proof that taking entry `k` out of the open list starts the expansion of its cell.
#[verifier::spinoff_prover]
#[verifier::rlimit(30)]
proof fn lemma_pop(
    map: &StaticMap,
    start: Cell,
    goal: Cell,
    g: Seq<u32>,
    cf: Seq<Option<Cell>>,
    open: Seq<Node>,
    k: int,
)
    requires
        search_inv(map, start, goal, g, cf, open),
        0 <= k < open.len(),
        open[k].cell != goal,
    ensures
        expand_inv(map, start, goal, g, cf, open.update(k, open.last()).drop_last(), open[k].cell, 0),
{
    let open2 = open.update(k, open.last()).drop_last();
    let c = open[k].cell;
    // Every entry but the one taken out stays.
    assert forall|j: int| #![trigger open[j]] 0 <= j < open.len() && j != k implies exists|j2: int|
        0 <= j2 < open2.len() && #[trigger] open2[j2] == open[j] by {
        if j == open.len() - 1 {
            assert(open2[k] == open[j]);
        } else {
            assert(open2[j] == open[j]);
        }
    }
    assert forall|j2: int| #![trigger open2[j2]] 0 <= j2 < open2.len() implies {
        &&& inside(map, open2[j2].cell)
        &&& gval(map, g, open2[j2].cell) < u32::MAX
        &&& open2[j2].cost >= gval(map, g, open2[j2].cell) + octile(open2[j2].cell, goal)
    } by {
        if j2 == k {
            assert(open2[j2] == open[open.len() - 1]);
        } else {
            assert(open2[j2] == open[j2]);
        }
    }
    assert(goal_queued(map, g, open2, goal)) by {
        if gval(map, g, goal) < u32::MAX {
            let j = choose|j: int| 0 <= j < open.len() && #[trigger] open[j].cell == goal;
            let j2 = choose|j2: int| 0 <= j2 < open2.len() && #[trigger] open2[j2] == open[j];
            assert(open2[j2].cell == goal);
        }
    }
    assert forall|d: Cell| #![trigger gval(map, g, d)]
        inside(map, d) && gval(map, g, d) < u32::MAX && Some(c) != Some(d) implies has_entry(
        open2,
        d,
        gval(map, g, d) + octile(d, goal),
    ) || relaxed(map, g, d) by {
        if has_entry(open, d, gval(map, g, d) + octile(d, goal)) {
            let j = choose|j: int|
                0 <= j < open.len() && #[trigger] open[j].cell == d && open[j].cost == gval(
                    map,
                    g,
                    d,
                ) + octile(d, goal);
            let j2 = choose|j2: int| 0 <= j2 < open2.len() && #[trigger] open2[j2] == open[j];
            assert(open2[j2].cell == d);
        }
    }
    assert(inside(map, open[k].cell));
}

/// Proof that once all eight moves out of `c` have passed on its cost, the loop invariant holds.
proof fn lemma_expanded(
    map: &StaticMap,
    start: Cell,
    goal: Cell,
    g: Seq<u32>,
    cf: Seq<Option<Cell>>,
    open: Seq<Node>,
    c: Cell,
)
    requires
        expand_inv(map, start, goal, g, cf, open, c, 8),
    ensures
        search_inv(map, start, goal, g, cf, open),
{
    assert forall|n: Cell| #[trigger] is_step(map, c, n) implies gval(map, g, n) <= gval(map, g, c)
        + step_cost(c, n) by {
        lemma_move_index(c, n);
    }
    assert(relaxed(map, g, c));
}

/// Proof, for a walk `q` whose `j`-th cell has a cost at most that of the walk up to it, that
/// the goal has been reached at no more than the walk's cost, or an entry in the open list has
/// a key of at most the walk's cost.
proof fn lemma_walk_bound(
    map: &StaticMap,
    start: Cell,
    goal: Cell,
    g: Seq<u32>,
    cf: Seq<Option<Cell>>,
    open: Seq<Node>,
    q: Seq<Cell>,
    j: int,
)
    requires
        search_inv(map, start, goal, g, cf, open),
        is_walk(map, q, start, goal),
        0 <= j < q.len(),
        inside(map, q[j]),
        gval(map, g, q[j]) < u32::MAX,
        gval(map, g, q[j]) <= walk_cost(q.take(j + 1)),
    ensures
        (gval(map, g, goal) < u32::MAX && gval(map, g, goal) <= walk_cost(q)) || exists|e: int|
            0 <= e < open.len() && #[trigger] open[e].cost <= walk_cost(q),
    decreases q.len() - j,
{
    lemma_walk_cost_split(q, j);
    let v = q[j];
    if j == q.len() - 1 {
        assert(q.skip(j).len() == 1);
    } else {
        let rest = q.skip(j);
        assert(rest.drop_first() =~= q.skip(j + 1));
        assert(rest[0] == v && rest[1] == q[j + 1]);
        assert(is_step(map, q[j], q[j + 1]));
        if has_entry(open, v, gval(map, g, v) + octile(v, goal)) {
            assert forall|i: int| 0 <= i < rest.len() - 1 implies #[trigger] is_step(
                map,
                rest[i],
                rest[i + 1],
            ) by {
                let a = j + i;
                assert(is_step(map, q[a], q[a + 1]));
                assert(rest[i] == q[a] && rest[i + 1] == q[a + 1]);
            }
            lemma_octile_admissible(map, rest, goal);
            let e = choose|e: int|
                0 <= e < open.len() && #[trigger] open[e].cell == v && open[e].cost == gval(
                    map,
                    g,
                    v,
                ) + octile(v, goal);
            assert(open[e].cost <= walk_cost(q));
        } else {
            assert(relaxed(map, g, v));
            let nx = q[j + 1];
            assert(gval(map, g, nx) <= gval(map, g, v) + step_cost(v, nx));
            lemma_walk_cost_split(q, j + 1);
            lemma_inside_index(map, v);
            lemma_count_finite_le(g);
            let vi = map.index_of(v.0 as int, v.1 as int);
            assert(g[vi] < u32::MAX);
            assert(g[vi] + 14 <= 14 * count_finite(g));
            assert(map.width * map.height >= 0) by (nonlinear_arith);
            lemma_walk_bound(map, start, goal, g, cf, open, q, j + 1);
        }
    }
}

/// Proof that when the goal is taken out of the open list with the least key, its cost is at
/// most that of any walk from the start to the goal.
proof fn lemma_goal_optimal(
    map: &StaticMap,
    start: Cell,
    goal: Cell,
    g: Seq<u32>,
    cf: Seq<Option<Cell>>,
    open: Seq<Node>,
    k: int,
    q: Seq<Cell>,
)
    requires
        search_inv(map, start, goal, g, cf, open),
        0 <= k < open.len(),
        open[k].cell == goal,
        forall|j: int| 0 <= j < open.len() ==> open[k].cost <= #[trigger] open[j].cost,
        is_walk(map, q, start, goal),
    ensures
        gval(map, g, goal) <= walk_cost(q),
{
    assert(q.take(1).len() == 1);
    lemma_walk_bound(map, start, goal, g, cf, open, q, 0);
    assert(open[k].cost >= gval(map, g, goal) + octile(goal, goal));
}

/// Proof that once the open list is empty, no walk leads from the start to the goal.
proof fn lemma_no_walk(
    map: &StaticMap,
    start: Cell,
    goal: Cell,
    g: Seq<u32>,
    cf: Seq<Option<Cell>>,
    open: Seq<Node>,
    q: Seq<Cell>,
)
    requires
        search_inv(map, start, goal, g, cf, open),
        open.len() == 0,
    ensures
        !is_walk(map, q, start, goal),
{
    if is_walk(map, q, start, goal) {
        assert(q.take(1).len() == 1);
        lemma_walk_bound(map, start, goal, g, cf, open, q, 0);
    }
}

/// The position of an entry with the least key; the first such where several share it.
fn min_cost_index(open: &Vec<Node>) -> (k: usize)
    requires
        open@.len() > 0,
    ensures
        k < open@.len(),
        forall|j: int| 0 <= j < open@.len() ==> open@[k as int].cost <= #[trigger] open@[j].cost,
{
    let mut k: usize = 0;
    let mut j: usize = 1;
    while j < open.len()
        invariant
            1 <= j <= open@.len(),
            k < j,
            forall|i: int| 0 <= i < j ==> open@[k as int].cost <= #[trigger] open@[i].cost,
        decreases open@.len() - j,
    {
        if open[j].cost < open[k].cost {
            k = j;
        }
        j = j + 1;
    }
    k
}

/// Follows the recorded parents back from the goal to the start, and returns the cells in order
/// from the start.
fn trace_path(
    map: &StaticMap,
    came_from: &Vec<Option<Cell>>,
    Ghost(g): Ghost<Seq<u32>>,
    start: Cell,
    goal: Cell,
) -> (path: Vec<Cell>)
    requires
        map.wf(),
        g.len() == map.width * map.height,
        came_from@.len() == map.width * map.height,
        inside(map, start),
        inside(map, goal),
        parents_ok(map, g, came_from@),
        parents_exist(map, g, came_from@, start),
        gval(map, g, goal) < u32::MAX,
    ensures
        is_walk(map, path@, start, goal),
        walk_cost(path@) <= gval(map, g, goal),
{
    let w = map.width;
    let mut rev: Vec<Cell> = Vec::new();
    rev.push(goal);
    let mut cur = goal;
    let ghost mut fwd: Seq<Cell> = seq![goal];
    proof {
        lemma_inside_index(map, goal);
    }
    loop
        invariant
            map.wf(),
            w == map.width,
            g.len() == map.width * map.height,
            came_from@.len() == map.width * map.height,
            inside(map, start),
            parents_ok(map, g, came_from@),
            parents_exist(map, g, came_from@, start),
            inside(map, cur),
            gval(map, g, cur) < u32::MAX,
            fwd.len() == rev@.len(),
            forall|i: int| 0 <= i < fwd.len() ==> #[trigger] fwd[i] == rev@[rev@.len() - 1 - i],
            fwd.len() > 0,
            fwd[0] == cur,
            fwd.last() == goal,
            forall|i: int| 0 <= i < fwd.len() - 1 ==> #[trigger] is_step(map, fwd[i], fwd[i + 1]),
            walk_cost(fwd) + gval(map, g, cur) <= gval(map, g, goal),
        ensures
            cur == start,
            fwd.len() == rev@.len(),
            forall|i: int| 0 <= i < fwd.len() ==> #[trigger] fwd[i] == rev@[rev@.len() - 1 - i],
            is_walk(map, fwd, start, goal),
            walk_cost(fwd) <= gval(map, g, goal),
        decreases gval(map, g, cur),
    {
        proof {
            lemma_inside_index(map, cur);
        }
        // The table's length bounds the index arithmetic below.
        let _table_len = came_from.len();
        let ci = cur.1 * w + cur.0;
        match came_from[ci] {
            Some(prev) => {
                assert(parent(map, came_from@, cur) == Some(prev));
                let ghost old_fwd = fwd;
                rev.push(prev);
                proof {
                    fwd = seq![prev] + old_fwd;
                    assert(fwd.drop_first() =~= old_fwd);
                    assert forall|i: int| 0 <= i < fwd.len() implies #[trigger] fwd[i]
                        == rev@[rev@.len() - 1 - i] by {
                        if i > 0 {
                            assert(fwd[i] == old_fwd[i - 1]);
                        }
                    }
                    assert forall|i: int| 0 <= i < fwd.len() - 1 implies #[trigger] is_step(
                        map,
                        fwd[i],
                        fwd[i + 1],
                    ) by {
                        if i > 0 {
                            let a = i - 1;
                            assert(is_step(map, old_fwd[a], old_fwd[a + 1]));
                        }
                    }
                }
                cur = prev;
            },
            None => {
                break ;
            },
        }
    }
    let mut path: Vec<Cell> = Vec::new();
    let mut i = rev.len();
    while i > 0
        invariant
            i <= rev@.len(),
            fwd.len() == rev@.len(),
            forall|j: int| 0 <= j < fwd.len() ==> #[trigger] fwd[j] == rev@[rev@.len() - 1 - j],
            path@ == fwd.take(rev@.len() - i),
        decreases i,
    {
        i = i - 1;
        path.push(rev[i]);
        proof {
            assert(fwd[rev@.len() - 1 - i] == rev@[i as int]);
            assert(path@ =~= fwd.take(rev@.len() - i));
        }
    }
    assert(path@ =~= fwd);
    path
}

/// A* search from `start` to `goal` over the eight-connected grid, with moves of cost 10 along
/// an axis and 14 diagonally, into cells that are not occupied, guided by the octile distance.
///
/// Returns the cells of a cheapest walk from `start` to `goal`, both included, or `None` when no
/// walk leads there. Among several cheapest walks the one returned depends on the order in
/// which entries of equal key leave the open list.
pub fn astar(map: &StaticMap, start: Cell, goal: Cell) -> (r: Option<Vec<Cell>>)
    requires
        map.wf(),
        inside(map, start),
        inside(map, goal),
        search_fits(map),
    ensures
        match r {
            Some(path) => {
                &&& is_walk(map, path@, start, goal)
                &&& forall|q: Seq<Cell>| #[trigger]
                    is_walk(map, q, start, goal) ==> walk_cost(path@) <= walk_cost(q)
            },
            None => forall|q: Seq<Cell>| !#[trigger] is_walk(map, q, start, goal),
        },
{
    let w = map.width;
    let h = map.height;
    proof {
        assert(w * h >= 0) by (nonlinear_arith);
        lemma_inside_index(map, start);
        lemma_inside_index(map, goal);
    }
    let n = w * h;
    let mut g_score: Vec<u32> = Vec::new();
    let mut came_from: Vec<Option<Cell>> = Vec::new();
    let mut j: usize = 0;
    while j < n
        invariant
            j <= n,
            g_score@.len() == j,
            came_from@.len() == j,
            forall|i: int| 0 <= i < j ==> #[trigger] g_score@[i] == u32::MAX,
            forall|i: int| 0 <= i < j ==> #[trigger] came_from@[i] is None,
        decreases n - j,
    {
        g_score.push(u32::MAX);
        came_from.push(None);
        j = j + 1;
    }
    let si = start.1 * w + start.0;
    g_score.set(si, 0);
    let mut open: Vec<Node> = Vec::new();
    open.push(Node { cost: heuristic(start, goal), cell: start });
    proof {
        let g = g_score@;
        let cf = came_from@;
        assert forall|d: Cell| inside(map, d) implies gval(map, g, d) == if d == start {
            0
        } else {
            u32::MAX
        } && parent(map, cf, d) is None by {
            lemma_inside_index(map, d);
            if map.index_of(d.0 as int, d.1 as int) == si {
                lemma_inside_index_injective(map, d, start);
            }
        }
        assert(g =~= Seq::new(n as nat, |i: int| u32::MAX).update(si as int, 0));
        lemma_count_finite_update(Seq::new(n as nat, |i: int| u32::MAX), si as int, 0);
        assert(count_finite(Seq::new(n as nat, |i: int| u32::MAX)) == 0) by {
            lemma_no_finite(n as nat);
        }
        assert forall|i: int| 0 <= i < g.len() && #[trigger] g[i] < u32::MAX implies g[i] + 14 <= 14
            * count_finite(g) by {
            if i != si {
                assert(g[i] == u32::MAX);
            }
        }
        assert(open@[0].cell == start);
        assert(has_entry(open@, start, gval(map, g, start) + octile(start, goal)));
    }
    while open.len() > 0
        invariant
            w == map.width,
            h == map.height,
            search_inv(map, start, goal, g_score@, came_from@, open@),
        decreases open@.len() + sum_costs(g_score@),
    {
        let ghost measure0 = open@.len() + sum_costs(g_score@);
        let k = min_cost_index(&open);
        let ghost open0 = open@;
        let node = open.swap_remove(k);
        let cell = node.cell;
        if cell.0 == goal.0 && cell.1 == goal.1 {
            proof {
                assert forall|q: Seq<Cell>| #[trigger]
                    is_walk(map, q, start, goal) implies gval(map, g_score@, goal) <= walk_cost(
                    q,
                ) by {
                    lemma_goal_optimal(
                        map,
                        start,
                        goal,
                        g_score@,
                        came_from@,
                        open0,
                        k as int,
                        q,
                    );
                }
                assert(gval(map, g_score@, goal) < u32::MAX);
            }
            let path = trace_path(map, &came_from, Ghost(g_score@), start, goal);
            return Some(path);
        }
        proof {
            lemma_pop(map, start, goal, g_score@, came_from@, open0, k as int);
            lemma_inside_index(map, cell);
        }
        let ci = cell.1 * w + cell.0;
        let current_g = g_score[ci];
        let mut i: usize = 0;
        while i < 8
            invariant
                w == map.width,
                h == map.height,
                i <= 8,
                current_g == gval(map, g_score@, cell),
                expand_inv(map, start, goal, g_score@, came_from@, open@, cell, i as int),
                open@.len() + sum_costs(g_score@) < measure0,
            decreases 8 - i,
        {
            let (dx, dy, step_cost_k) = neighbor_move(i);
            let nx = cell.0 as i64 + dx;
            let ny = cell.1 as i64 + dy;
            if nx < 0 || ny < 0 || nx as usize >= w || ny as usize >= h {
                proof {
                    lemma_skip_move(
                        map,
                        start,
                        goal,
                        g_score@,
                        came_from@,
                        open@,
                        cell,
                        i as int,
                        nx as int,
                        ny as int,
                    );
                }
            } else {
                let ncell: Cell = (nx as usize, ny as usize);
                proof {
                    lemma_inside_index(map, ncell);
                }
                if map.is_occupied(ncell.0, ncell.1) {
                    proof {
                        lemma_skip_move(
                            map,
                            start,
                            goal,
                            g_score@,
                            came_from@,
                            open@,
                            cell,
                            i as int,
                            nx as int,
                            ny as int,
                        );
                    }
                } else {
                    proof {
                        lemma_key_fits(map, g_score@, cell, ncell, goal);
                        lemma_move_index(cell, ncell);
                    }
                    let tentative = current_g.saturating_add(step_cost_k);
                    let ni = ncell.1 * w + ncell.0;
                    let neighbor_g = g_score[ni];
                    if tentative < neighbor_g {
                        let key = tentative + heuristic(ncell, goal);
                        proof {
                            assert(is_step(map, cell, ncell));
                            lemma_relax(
                                map,
                                start,
                                goal,
                                g_score@,
                                came_from@,
                                open@,
                                cell,
                                i as int,
                                ncell,
                                tentative,
                                key,
                            );
                        }
                        g_score.set(ni, tentative);
                        came_from.set(ni, Some(cell));
                        open.push(Node { cost: key, cell: ncell });
                    } else {
                        proof {
                            lemma_skip_move(
                                map,
                                start,
                                goal,
                                g_score@,
                                came_from@,
                                open@,
                                cell,
                                i as int,
                                nx as int,
                                ny as int,
                            );
                        }
                    }
                }
            }
            i = i + 1;
        }
        proof {
            lemma_expanded(map, start, goal, g_score@, came_from@, open@, cell);
        }
    }
    proof {
        assert forall|q: Seq<Cell>| !#[trigger] is_walk(map, q, start, goal) by {
            lemma_no_walk(map, start, goal, g_score@, came_from@, open@, q);
        }
    }
    None
}

/// Proof that the `k`-th move out of `c` may be passed over: it leaves the map, enters an
/// occupied cell, or enters a cell whose cost is already at most `c`'s plus the move.
proof fn lemma_skip_move(
    map: &StaticMap,
    start: Cell,
    goal: Cell,
    g: Seq<u32>,
    cf: Seq<Option<Cell>>,
    open: Seq<Node>,
    c: Cell,
    k: int,
    nx: int,
    ny: int,
)
    requires
        expand_inv(map, start, goal, g, cf, open, c, k),
        0 <= k < 8,
        nx == c.0 + move_of(k).0,
        ny == c.1 + move_of(k).1,
        !map.in_bounds(nx, ny) || map.cell(nx, ny) == OCCUPIED || gval(
            map,
            g,
            (nx as usize, ny as usize),
        ) <= gval(map, g, c) + move_of(k).2,
    ensures
        expand_inv(map, start, goal, g, cf, open, c, k + 1),
{
    assert forall|m: Cell| #[trigger] is_step(map, c, m) && move_index(c, m) < k + 1 implies gval(
        map,
        g,
        m,
    ) <= gval(map, g, c) + step_cost(c, m) by {
        lemma_move_index(c, m);
    }
}

/// Proof that the cost of a move from a reached cell, and the key of its target, fit in `u32`.
proof fn lemma_key_fits(map: &StaticMap, g: Seq<u32>, c: Cell, n: Cell, goal: Cell)
    requires
        map.wf(),
        search_fits(map),
        g.len() == map.width * map.height,
        costs_bounded(g),
        inside(map, c),
        inside(map, n),
        inside(map, goal),
        gval(map, g, c) < u32::MAX,
    ensures
        gval(map, g, c) + 14 + octile(n, goal) <= u32::MAX,
        gval(map, g, c) + 14 < u32::MAX,
{
    lemma_count_finite_le(g);
    lemma_inside_index(map, c);
    let ci = map.index_of(c.0 as int, c.1 as int);
    assert(g[ci] < u32::MAX);
    assert(g[ci] + 14 <= 14 * count_finite(g));
    assert(octile(n, goal) <= 10 * (map.width + map.height));
    assert(map.width * map.height >= 0) by (nonlinear_arith);
}

/// Decides whether path costs on `map` fit in `u32` (see `search_fits`).
pub fn costs_fit(map: &StaticMap) -> (r: bool)
    ensures
        r == search_fits(map),
{
    let cells = match map.width.checked_mul(map.height) {
        Some(c) => c,
        None => {
            proof {
                assert(map.width * map.height >= 0) by (nonlinear_arith);
            }
            return false;
        },
    };
    let limit: u64 = 0xffff_ffff / 14;
    if cells as u64 > limit || map.width as u64 > limit || map.height as u64 > limit {
        return false;
    }
    cells as u64 + map.width as u64 + map.height as u64 <= limit
}

/// Drops the first waypoint of a received path, where the path has more than one: the first
/// is where the robot stood when the path was planned.
pub fn drop_start_waypoint<T>(waypoints: &mut Vec<T>)
    ensures
        old(waypoints)@.len() > 1 ==> final(waypoints)@ == old(waypoints)@.drop_first(),
        old(waypoints)@.len() <= 1 ==> final(waypoints)@ == old(waypoints)@,
{
    if waypoints.len() > 1 {
        waypoints.remove(0);
    }
}

/// A table with nothing reached counts no finite entry.
proof fn lemma_no_finite(n: nat)
    ensures
        count_finite(Seq::new(n, |i: int| u32::MAX)) == 0,
    decreases n,
{
    if n > 0 {
        assert(Seq::new(n, |i: int| u32::MAX).drop_last() =~= Seq::new(
            (n - 1) as nat,
            |i: int| u32::MAX,
        ));
        lemma_no_finite((n - 1) as nat);
    }
}

} // verus!
