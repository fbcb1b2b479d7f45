//! The maze carver: a randomized growing tree on the cells with odd
//! coordinates. It takes two steps at a time, so that every corridor keeps a
//! wall between itself and whatever it passes.

use rand::rngs::StdRng;
use vstd::prelude::*;
use crate::dungeon::{count_of, lemma_count_update, lemma_same_rooms, Dungeon, Grid, Tile};
use crate::picture::{lemma_pixels_bound, odd};
use crate::forest::{adjacent, is_cycle, is_forest, is_path, joined, lemma_empty_is_forest, lemma_forest_has_no_cycle, lemma_forest_has_one_way, lemma_grow_leaf, lemma_grow_root, lemma_joined_back, lemma_joined_more, lemma_joined_on, lemma_joined_self, lemma_joined_step, Cell};
use crate::geometry::{Direction, Vec2D};
use crate::ppm::{lemma_offset, offset};
use crate::random::{random_choice, random_range};

verus! {

/// The chance in a hundred that a corridor turns although it could go on
/// straight.
pub const WINDING_PERCENT: i32 = 0;

/// How many of the first `n` tiles of a grid `width` cells wide are walls
/// at odd coordinates.
pub open spec fn count_lattice_walls(tiles: Seq<Tile>, width: int, n: int) -> nat
    decreases n,
{
    if n <= 0 {
        0
    } else {
        count_lattice_walls(tiles, width, n - 1) + if tiles[n - 1] == Tile::Wall && odd(
            (n - 1) % width,
        ) && odd((n - 1) / width) {
            1nat
        } else {
            0nat
        }
    }
}

/// Replacing a tile by one that is no wall takes one from the number of
/// walls at odd coordinates if the tile was one of them, and leaves the
/// number as it is if not.
pub proof fn lemma_lattice_walls_update(tiles: Seq<Tile>, width: int, n: int, i: int, tile: Tile)
    requires
        0 <= i < tiles.len(),
        0 <= n <= tiles.len(),
        tile != Tile::Wall,
    ensures
        count_lattice_walls(tiles.update(i, tile), width, n) + (if i < n && tiles[i] == Tile::Wall
            && odd(i % width) && odd(i / width) {
            1int
        } else {
            0int
        }) == count_lattice_walls(tiles, width, n),
    decreases n,
{
    if n > 0 {
        lemma_lattice_walls_update(tiles, width, n - 1, i, tile);
    }
}

/// Whether `(x, y)` is one of the cells of the stack.
pub open spec fn stacked(stack: Seq<Vec2D>, x: int, y: int) -> bool {
    exists|k: int| 0 <= k < stack.len() && (#[trigger] stack[k]).0 == x && stack[k].1 == y
}

impl Grid {
    /// The number of walls of the grid.
    pub open spec fn walls(self) -> nat {
        count_of(self.tiles, Tile::Wall)
    }

    /// The number of walls at odd coordinates: the cells that the carver
    /// has yet to reach.
    pub open spec fn lattice_walls(self) -> nat {
        count_lattice_walls(self.tiles, self.width, self.tiles.len() as int)
    }

    /// Whether the carver can go from `(x, y)` in direction `d`: the cell two
    /// steps ahead is still wall, and the cell three steps ahead is on the
    /// grid.
    pub open spec fn open(self, x: int, y: int, d: Direction) -> bool {
        self.inside(x + 3 * d.dx(), y + 3 * d.dy()) && self.tile(x + 2 * d.dx(), y + 2 * d.dy())
            == Tile::Wall
    }

    /// The direction `d` if the carver can go there, and nothing if not.
    pub open spec fn open_one(self, x: int, y: int, d: Direction) -> Seq<Direction> {
        if self.open(x, y, d) {
            seq![d]
        } else {
            Seq::empty()
        }
    }

    /// The directions in which the carver can go from `(x, y)`, in the order
    /// of their enumeration.
    pub open spec fn open_list(self, x: int, y: int) -> Seq<Direction> {
        self.open_one(x, y, Direction::N) + self.open_one(x, y, Direction::S) + self.open_one(
            x,
            y,
            Direction::E,
        ) + self.open_one(x, y, Direction::W)
    }

    /// If `(x, y)` is a corridor cell, it keeps to the lattice: not both of
    /// its coordinates are even, and where one is, it joins the two corridor
    /// cells with odd coordinates on either side of it.
    pub open spec fn lattice_at(self, x: int, y: int) -> bool {
        self.corridor(x, y) ==> {
            &&& odd(x) || odd(y)
            &&& !odd(x) ==> self.corridor(x - 1, y) && self.corridor(x + 1, y)
            &&& !odd(y) ==> self.corridor(x, y - 1) && self.corridor(x, y + 1)
        }
    }

    /// Every corridor cell keeps to the lattice.
    pub open spec fn lattice(self) -> bool {
        forall|x: int, y: int| #[trigger] self.lattice_at(x, y)
    }

    /// The set of all corridor cells.
    pub open spec fn corridors(self) -> Set<Cell> {
        Set::new(|c: Cell| self.corridor(c.0, c.1))
    }

    /// The corridors are a forest.
    pub open spec fn forest(self) -> bool {
        is_forest(self.corridors())
    }

    /// The state in which the carver works: the grid is well formed, it has
    /// no door, and its corridors keep to the lattice and are a forest.
    #[verifier::opaque]
    pub open spec fn carvable(self) -> bool {
        &&& self.wf()
        &&& self.doorless()
        &&& self.lattice()
        &&& self.forest()
    }

    /// From no corridor cell with odd coordinates can the carver go
    /// anywhere, unless the cell is on the stack.
    #[verifier::opaque]
    pub open spec fn exhausted_but(self, stack: Seq<Vec2D>) -> bool {
        forall|x: int, y: int, d: Direction|
            odd(x) && odd(y) && self.corridor(x, y) && !stacked(stack, x, y) ==> !(
            #[trigger] self.open(x, y, d))
    }

    /// Whether `(x, y)` and the cell two steps from it in direction `d` are
    /// corridor cells with odd coordinates.
    pub open spec fn pair(self, x: int, y: int, d: Direction) -> bool {
        odd(x) && odd(y) && self.corridor(x, y) && self.corridor(x + 2 * d.dx(), y + 2 * d.dy())
    }

    /// The corridors span the lattice: two corridor cells with odd
    /// coordinates that are two steps apart are joined by a walk through the
    /// corridors.
    #[verifier::opaque]
    pub open spec fn spanning(self) -> bool {
        forall|x: int, y: int, d: Direction| #[trigger]
            self.pair(x, y, d) ==> joined(
                self.corridors(),
                (x, y),
                (x + 2 * d.dx(), y + 2 * d.dy()),
            )
    }

    /// The carver has come to rest: the grid is carvable, from no corridor
    /// cell with odd coordinates can the carver go anywhere, and the
    /// corridors span the lattice.
    pub open spec fn settled(self) -> bool {
        self.carvable() && self.exhausted_but(Seq::empty()) && self.spanning()
    }

    /// The carver at work on the cells of its stack, which are corridor
    /// cells with odd coordinates joined to the cell `start`: the grid is
    /// carvable, from every other corridor cell with odd coordinates the
    /// carver can go nowhere, and the corridors span the lattice.
    #[verifier::opaque]
    pub open spec fn carving(self, stack: Seq<Vec2D>, start: Vec2D) -> bool {
        &&& self.carvable()
        &&& self.exhausted_but(stack)
        &&& self.spanning()
        &&& self.stack_joined(stack, start)
    }

    /// Every cell of the stack is a corridor cell with odd coordinates that
    /// is joined to the cell `start`.
    pub open spec fn stack_joined(self, stack: Seq<Vec2D>, start: Vec2D) -> bool {
        forall|i: int|
            0 <= i < stack.len() ==> {
                let c = #[trigger] stack[i];
                &&& odd(c.0 as int)
                &&& odd(c.1 as int)
                &&& self.corridor(c.0 as int, c.1 as int)
                &&& joined(
                    self.corridors(),
                    (c.0 as int, c.1 as int),
                    (start.0 as int, start.1 as int),
                )
            }
    }

    /// Every cell with odd coordinates is floor.
    pub open spec fn filled(self) -> bool {
        forall|x: int, y: int|
            self.inside(x, y) && odd(x) && odd(y) ==> #[trigger] self.tile(x, y) == Tile::Floor
    }

    /// Whether `self` came from `before` by turning walls into floor.
    pub open spec fn grown_from(self, before: Grid) -> bool {
        &&& self.width == before.width
        &&& self.height == before.height
        &&& self.rooms == before.rooms
        &&& forall|x: int, y: int| #[trigger]
            self.tile(x, y) == before.tile(x, y) || (before.tile(x, y) == Tile::Wall && self.tile(
                x,
                y,
            ) == Tile::Floor)
    }
}

/// What it means that a grid is carvable.
pub proof fn lemma_carvable(g: Grid)
    ensures
        g.carvable() <==> g.wf() && g.doorless() && g.lattice() && g.forest(),
{
    reveal(Grid::carvable);
}

/// A cell of a well-formed grid that is not floor lies in no room.
pub proof fn lemma_wall_is_outside_rooms(g: Grid, x: int, y: int)
    requires
        g.wf(),
        g.tile(x, y) != Tile::Floor,
    ensures
        !g.in_room(x, y),
{
    if g.in_room(x, y) {
        let k = choose|k: int| 0 <= k < g.rooms.len() && #[trigger] g.rooms[k].covers(x, y);
        assert(g.tile(x, y) == Tile::Floor);
    }
}

/// A grid with nothing carved but its rooms has no corridor cell.
pub proof fn lemma_bare_has_no_corridor(g: Grid)
    requires
        g.bare(),
    ensures
        forall|x: int, y: int| !#[trigger] g.corridor(x, y),
{
    assert forall|x: int, y: int| !#[trigger] g.corridor(x, y) by {
        let t = g.tile(x, y);
    }
}

/// A grid with nothing carved but its rooms is where the carver starts.
pub proof fn lemma_bare_is_settled(g: Grid)
    requires
        g.wf(),
        g.bare(),
    ensures
        g.settled(),
{
    lemma_bare_has_no_corridor(g);
    assert forall|x: int, y: int| #[trigger] g.tile(x, y) != Tile::Door by {
        if g.in_room(x, y) {
            let k = choose|k: int| 0 <= k < g.rooms.len() && #[trigger] g.rooms[k].covers(x, y);
        }
    }
    assert forall|x: int, y: int| #[trigger] g.lattice_at(x, y) by {
        assert(!g.corridor(x, y));
    }
    lemma_empty_is_forest();
    assert(g.corridors() =~= Set::<Cell>::empty());
    lemma_carvable(g);
    reveal(Grid::exhausted_but);
    reveal(Grid::spanning);
}

/// Corridors that keep to the lattice never touch a room: no corridor cell
/// shares a side or a corner with a cell of a room.
pub proof fn lemma_corridors_keep_off_rooms(g: Grid, x: int, y: int, a: int, b: int)
    requires
        g.wf(),
        g.lattice(),
        g.corridor(x, y),
        x - 1 <= a <= x + 1,
        y - 1 <= b <= y + 1,
    ensures
        !g.in_room(a, b),
{
    if g.in_room(a, b) {
        let k = choose|k: int| 0 <= k < g.rooms.len() && #[trigger] g.rooms[k].covers(a, b);
        let r = g.rooms[k];
        assert(g.admissible(r));
        assert(g.lattice_at(x, y));
        assert(!r.covers(x, y));
        if !odd(x) {
            assert(r.covers(x + 1, y) || r.covers(x - 1, y));
        } else if !odd(y) {
            assert(r.covers(x, y + 1) || r.covers(x, y - 1));
        }
    }
}

/// The corridors of a carvable grid hold no round trip: between two
/// corridor cells there is never more than one way.
pub proof fn lemma_maze_has_no_cycle(g: Grid, path: Seq<Cell>)
    requires
        g.carvable(),
    ensures
        !is_cycle(g.corridors(), path),
{
    lemma_carvable(g);
    lemma_forest_has_no_cycle(g.corridors(), path);
}

/// Where the carver has come to rest, the corridors span the lattice: two
/// corridor cells with odd coordinates that are two steps apart are joined
/// by a walk through the corridors. Once the carver has filled the grid,
/// these are all the cells with odd coordinates outside the rooms.
pub proof fn lemma_maze_spans(g: Grid, x: int, y: int, d: Direction)
    requires
        g.settled(),
        odd(x),
        odd(y),
        g.corridor(x, y),
        g.corridor(x + 2 * d.dx(), y + 2 * d.dy()),
    ensures
        joined(g.corridors(), (x, y), (x + 2 * d.dx(), y + 2 * d.dy())),
{
    reveal(Grid::spanning);
    assert(g.pair(x, y, d));
}

/// Between two corridor cells of a carvable grid there is at most one way
/// through the corridors.
pub proof fn lemma_maze_has_one_way(g: Grid, p: Seq<Cell>, q: Seq<Cell>)
    requires
        g.carvable(),
        is_path(g.corridors(), p),
        is_path(g.corridors(), q),
        p[0] == q[0],
        p.last() == q.last(),
    ensures
        p == q,
{
    lemma_carvable(g);
    lemma_forest_has_one_way(g.corridors(), p, q);
}

/// Where the carver can go from a corridor cell with odd coordinates, the
/// cell in between and the cell beyond are walls outside every room, and
/// neither is one of the outermost cells.
pub proof fn lemma_between_is_wall(g: Grid, x: int, y: int, d: Direction)
    requires
        g.wf(),
        g.doorless(),
        g.lattice(),
        odd(x),
        odd(y),
        g.corridor(x, y),
        g.open(x, y, d),
    ensures
        g.inside(x, y),
        g.inside(x + d.dx(), y + d.dy()),
        g.inside(x + 2 * d.dx(), y + 2 * d.dy()),
        !g.on_border(x + d.dx(), y + d.dy()),
        !g.on_border(x + 2 * d.dx(), y + 2 * d.dy()),
        g.tile(x + d.dx(), y + d.dy()) == Tile::Wall,
        g.tile(x + 2 * d.dx(), y + 2 * d.dy()) == Tile::Wall,
        !g.in_room(x + d.dx(), y + d.dy()),
        !g.in_room(x + 2 * d.dx(), y + 2 * d.dy()),
{
    let (mx, my) = (x + d.dx(), y + d.dy());
    let (tx, ty) = (x + 2 * d.dx(), y + 2 * d.dy());
    assert(g.inside(x, y));
    lemma_wall_is_outside_rooms(g, tx, ty);
    assert(g.lattice_at(mx, my));
    assert(g.tile(mx, my) != Tile::Door);
    if g.in_room(mx, my) {
        let k = choose|k: int| 0 <= k < g.rooms.len() && #[trigger] g.rooms[k].covers(mx, my);
        let r = g.rooms[k];
        assert(g.admissible(r));
        assert(r.covers(x, y));
    }
}

/// Turning walls outside the rooms and off the border into floor keeps the
/// grid well formed and without a door.
pub proof fn lemma_grown_is_wf(g0: Grid, g: Grid)
    requires
        g0.wf(),
        g0.doorless(),
        g.sized(),
        g.grown_from(g0),
        forall|a: int, b: int| g0.on_border(a, b) ==> #[trigger] g.tile(a, b) == g0.tile(a, b),
    ensures
        g.wf(),
        g.doorless(),
{
    assert forall|a: int, b: int| #[trigger] g.tile(a, b) != Tile::Door by {
        let was = g0.tile(a, b);
    }
    assert forall|a: int, b: int| g.on_border(a, b) implies #[trigger] g.tile(a, b)
        == Tile::Wall by {
        assert(g0.on_border(a, b));
        let was = g0.tile(a, b);
    }
    assert forall|k: int, a: int, b: int|
        0 <= k < g.rooms.len() && #[trigger] g.rooms[k].covers(a, b) implies g.tile(a, b)
        == Tile::Floor by {
        assert(g0.rooms[k].covers(a, b));
        let was = g0.tile(a, b);
    }
}

/// What the corridor cells are after a passage was carved from `(x, y)` in
/// direction `d`: those of before, the cell in between and the cell beyond.
pub open spec fn passage_carved(g0: Grid, g: Grid, x: int, y: int, d: Direction) -> bool {
    forall|a: int, b: int| #[trigger]
        g.corridor(a, b) == (g0.corridor(a, b) || (a == x + d.dx() && b == y + d.dy()) || (a == x
            + 2 * d.dx() && b == y + 2 * d.dy()))
}

/// Carving a passage keeps the corridors on the lattice.
proof fn lemma_passage_keeps_lattice(g0: Grid, g: Grid, x: int, y: int, d: Direction)
    requires
        g0.lattice(),
        odd(x),
        odd(y),
        g0.corridor(x, y),
        passage_carved(g0, g, x, y, d),
    ensures
        g.lattice(),
{
    assert forall|a: int, b: int| #[trigger] g.lattice_at(a, b) by {
        assert(g0.lattice_at(a, b));
        let c0 = g.corridor(a, b);
        let c1 = g.corridor(a - 1, b);
        let c2 = g.corridor(a + 1, b);
        let c3 = g.corridor(a, b - 1);
        let c4 = g.corridor(a, b + 1);
    }
}

/// Carving a passage keeps the corridors a forest.
proof fn lemma_passage_keeps_forest(g0: Grid, g: Grid, x: int, y: int, d: Direction)
    requires
        g0.lattice(),
        g0.forest(),
        odd(x),
        odd(y),
        g0.corridor(x, y),
        !g0.corridor(x + d.dx(), y + d.dy()),
        !g0.corridor(x + 2 * d.dx(), y + 2 * d.dy()),
        passage_carved(g0, g, x, y, d),
    ensures
        g.forest(),
{
    let (dx, dy) = (d.dx(), d.dy());
    let m: Cell = (x + dx, y + dy);
    let t: Cell = (x + 2 * dx, y + 2 * dy);
    let cs0 = g0.corridors();
    let cs1 = cs0.insert(m);
    assert forall|n: Cell| #[trigger] cs0.contains(n) && adjacent(m, n) implies n == (x, y) by {
        assert(g0.lattice_at(n.0, n.1));
    }
    lemma_grow_leaf(cs0, m, (x, y));
    assert forall|n: Cell| #[trigger] cs1.contains(n) && adjacent(t, n) implies n == m by {
        if n != m {
            assert(g0.lattice_at(n.0, n.1));
        }
    }
    lemma_grow_leaf(cs1, t, m);
    assert(g.corridors() =~= cs1.insert(t)) by {
        assert forall|c: Cell| g.corridors().contains(c) == cs1.insert(t).contains(c) by {
            let now = g.corridor(c.0, c.1);
        }
    }
}

/// Carving a passage from a corridor cell with odd coordinates, where the
/// carver can go, keeps the grid carvable.
pub proof fn lemma_passage_keeps_carvable(g0: Grid, g: Grid, x: int, y: int, d: Direction)
    requires
        g0.carvable(),
        odd(x),
        odd(y),
        g0.corridor(x, y),
        g0.open(x, y, d),
        g.width == g0.width,
        g.height == g0.height,
        g.rooms == g0.rooms,
        g.sized(),
        forall|a: int, b: int| #[trigger]
            g.tile(a, b) == if (a == x + d.dx() && b == y + d.dy()) || (a == x + 2 * d.dx() && b
                == y + 2 * d.dy()) {
                Tile::Floor
            } else {
                g0.tile(a, b)
            },
    ensures
        g.carvable(),
        g.grown_from(g0),
        passage_carved(g0, g, x, y, d),
{
    lemma_carvable(g0);
    lemma_carvable(g);
    lemma_between_is_wall(g0, x, y, d);
    lemma_same_rooms(g, g0);
    assert(g.grown_from(g0)) by {
        assert forall|a: int, b: int| #[trigger]
            g.tile(a, b) == g0.tile(a, b) || (g0.tile(a, b) == Tile::Wall && g.tile(a, b)
                == Tile::Floor) by {}
    }
    assert(passage_carved(g0, g, x, y, d)) by {
        assert forall|a: int, b: int| #[trigger]
            g.corridor(a, b) == (g0.corridor(a, b) || (a == x + d.dx() && b == y + d.dy()) || (a
                == x + 2 * d.dx() && b == y + 2 * d.dy())) by {
            let now = g.tile(a, b);
            let same = g.in_room(a, b);
        }
    }
    assert forall|a: int, b: int| g0.on_border(a, b) implies #[trigger] g.tile(a, b) == g0.tile(
        a,
        b,
    ) by {}
    lemma_grown_is_wf(g0, g);
    lemma_passage_keeps_lattice(g0, g, x, y, d);
    lemma_passage_keeps_forest(g0, g, x, y, d);
}

/// Starting a corridor keeps the corridors on the lattice.
proof fn lemma_start_keeps_lattice(g0: Grid, g: Grid, x: int, y: int)
    requires
        g0.lattice(),
        odd(x),
        odd(y),
        forall|a: int, b: int| #[trigger]
            g.corridor(a, b) == (g0.corridor(a, b) || (a == x && b == y)),
    ensures
        g.lattice(),
{
    assert forall|a: int, b: int| #[trigger] g.lattice_at(a, b) by {
        assert(g0.lattice_at(a, b));
        let c0 = g.corridor(a, b);
        let c1 = g.corridor(a - 1, b);
        let c2 = g.corridor(a + 1, b);
        let c3 = g.corridor(a, b - 1);
        let c4 = g.corridor(a, b + 1);
    }
}

/// Starting a corridor at a cell with odd coordinates that is no corridor
/// cell keeps the corridors a forest.
proof fn lemma_start_keeps_forest(g0: Grid, g: Grid, x: int, y: int)
    requires
        g0.lattice(),
        g0.forest(),
        odd(x),
        odd(y),
        !g0.corridor(x, y),
        forall|a: int, b: int| #[trigger]
            g.corridor(a, b) == (g0.corridor(a, b) || (a == x && b == y)),
    ensures
        g.forest(),
{
    let cs0 = g0.corridors();
    assert(g0.lattice_at(x, y - 1));
    assert(g0.lattice_at(x, y + 1));
    assert(g0.lattice_at(x + 1, y));
    assert(g0.lattice_at(x - 1, y));
    lemma_grow_root(cs0, (x, y));
    assert(g.corridors() =~= cs0.insert((x, y))) by {
        assert forall|c: Cell| g.corridors().contains(c) == cs0.insert((x, y)).contains(c) by {
            let now = g.corridor(c.0, c.1);
        }
    }
}

/// Starting a corridor at a wall cell with odd coordinates keeps the grid
/// carvable.
pub proof fn lemma_start_keeps_carvable(g0: Grid, g: Grid, x: int, y: int)
    requires
        g0.carvable(),
        odd(x),
        odd(y),
        g0.inside(x, y),
        g0.tile(x, y) == Tile::Wall,
        g.width == g0.width,
        g.height == g0.height,
        g.rooms == g0.rooms,
        g.sized(),
        forall|a: int, b: int| #[trigger]
            g.tile(a, b) == if a == x && b == y {
                Tile::Floor
            } else {
                g0.tile(a, b)
            },
    ensures
        g.carvable(),
        g.grown_from(g0),
        forall|a: int, b: int| #[trigger]
            g.corridor(a, b) == (g0.corridor(a, b) || (a == x && b == y)),
{
    lemma_carvable(g0);
    lemma_carvable(g);
    lemma_same_rooms(g, g0);
    lemma_wall_is_outside_rooms(g0, x, y);
    assert(g.grown_from(g0)) by {
        assert forall|a: int, b: int| #[trigger]
            g.tile(a, b) == g0.tile(a, b) || (g0.tile(a, b) == Tile::Wall && g.tile(a, b)
                == Tile::Floor) by {}
    }
    assert forall|a: int, b: int| #[trigger]
        g.corridor(a, b) == (g0.corridor(a, b) || (a == x && b == y)) by {
        let now = g.tile(a, b);
        let same = g.in_room(a, b);
    }
    assert forall|a: int, b: int| g0.on_border(a, b) implies #[trigger] g.tile(a, b) == g0.tile(
        a,
        b,
    ) by {}
    lemma_grown_is_wf(g0, g);
    lemma_start_keeps_lattice(g0, g, x, y);
    lemma_start_keeps_forest(g0, g, x, y);
}

/// The direction opposite to `d`.
pub open spec fn opposite(d: Direction) -> Direction {
    match d {
        Direction::N => Direction::S,
        Direction::S => Direction::N,
        Direction::E => Direction::W,
        Direction::W => Direction::E,
    }
}

/// What the carver knows of the cell on top of its stack: it is a corridor
/// cell with odd coordinates of a carvable grid.
proof fn lemma_top(g: Grid, stack: Seq<Vec2D>, start: Vec2D)
    requires
        g.carving(stack, start),
        stack.len() > 0,
    ensures
        g.carvable(),
        odd(stack.last().0 as int),
        odd(stack.last().1 as int),
        g.corridor(stack.last().0 as int, stack.last().1 as int),
        g.inside(stack.last().0 as int, stack.last().1 as int),
{
    reveal(Grid::carving);
    assert(stack[stack.len() - 1] == stack.last());
}

/// A wall cell with odd coordinates of a grid in which the carver can go
/// nowhere from the cells off its stack has no corridor cell two steps from
/// it that is off the stack.
proof fn lemma_wall_has_no_pair(g0: Grid, stack: Seq<Vec2D>, x: int, y: int, e: Direction)
    requires
        g0.sized(),
        g0.exhausted_but(stack),
        odd(x),
        odd(y),
        g0.inside(x, y),
        g0.tile(x, y) == Tile::Wall,
        odd(x + 2 * e.dx()),
        odd(y + 2 * e.dy()),
        g0.corridor(x + 2 * e.dx(), y + 2 * e.dy()),
    ensures
        stacked(stack, x + 2 * e.dx(), y + 2 * e.dy()),
{
    reveal(Grid::exhausted_but);
    let (a, b) = (x + 2 * e.dx(), y + 2 * e.dy());
    let back = opposite(e);
    assert(g0.inside(a + 3 * back.dx(), b + 3 * back.dy()));
    assert(g0.tile(a + 2 * back.dx(), b + 2 * back.dy()) == Tile::Wall);
    assert(g0.open(a, b, back));
}

/// The carver starts its work with the cell on the stack at which it
/// started a corridor.
proof fn lemma_start(g0: Grid, g: Grid, start: Vec2D)
    requires
        g0.settled(),
        g.carvable(),
        odd(start.0 as int),
        odd(start.1 as int),
        g0.inside(start.0 as int, start.1 as int),
        g0.tile(start.0 as int, start.1 as int) == Tile::Wall,
        g.grown_from(g0),
        forall|a: int, b: int| #[trigger]
            g.corridor(a, b) == (g0.corridor(a, b) || (a == start.0 && b == start.1)),
    ensures
        g.carving(seq![start], start),
{
    reveal(Grid::carving);
    reveal(Grid::exhausted_but);
    reveal(Grid::spanning);
    lemma_carvable(g0);
    let stack = seq![start];
    let none = Seq::<Vec2D>::empty();
    let s = (start.0 as int, start.1 as int);
    assert(stack[0] == start);
    assert forall|x: int, y: int, d: Direction|
        odd(x) && odd(y) && g.corridor(x, y) && !stacked(stack, x, y) implies !(#[trigger] g.open(
        x,
        y,
        d,
    )) by {
        assert(g0.corridor(x, y));
        assert(!stacked(none, x, y));
        assert(!g0.open(x, y, d));
        let was = g0.tile(x + 2 * d.dx(), y + 2 * d.dy());
        let now = g.tile(x + 2 * d.dx(), y + 2 * d.dy());
    }
    assert(g0.corridors().subset_of(g.corridors())) by {
        assert forall|c: Cell| g0.corridors().contains(c) implies g.corridors().contains(c) by {
            let now = g.corridor(c.0, c.1);
        }
    }
    assert(g.corridor(s.0, s.1));
    lemma_joined_self(g.corridors(), s);
    assert forall|x: int, y: int, d: Direction| #[trigger] g.pair(x, y, d) implies joined(
        g.corridors(),
        (x, y),
        (x + 2 * d.dx(), y + 2 * d.dy()),
    ) by {
        let (a, b) = (x + 2 * d.dx(), y + 2 * d.dy());
        let here = g.corridor(x, y);
        let there = g.corridor(a, b);
        if x == s.0 && y == s.1 {
            lemma_wall_has_no_pair(g0, none, x, y, d);
            assert(stacked(none, a, b));
        } else if a == s.0 && b == s.1 {
            let e = opposite(d);
            assert(x == a + 2 * e.dx() && y == b + 2 * e.dy());
            lemma_wall_has_no_pair(g0, none, a, b, e);
            assert(stacked(none, x, y));
        } else {
            assert(g0.pair(x, y, d));
            lemma_joined_more(g0.corridors(), g.corridors(), (x, y), (a, b));
        }
    }
}

/// The carver is at rest when its stack is empty.
proof fn lemma_rest(g: Grid, stack: Seq<Vec2D>, start: Vec2D)
    requires
        g.carving(stack, start),
        stack.len() == 0,
    ensures
        g.settled(),
{
    reveal(Grid::carving);
    assert(stack =~= Seq::<Vec2D>::empty());
}

/// When the carver steps back from the last cell of the stack, from which
/// it can go nowhere, it goes on with the rest of the stack.
proof fn lemma_step_back(g: Grid, stack: Seq<Vec2D>, start: Vec2D)
    requires
        stack.len() > 0,
        g.carving(stack, start),
        forall|d: Direction| !g.open(stack.last().0 as int, stack.last().1 as int, d),
    ensures
        g.carving(stack.drop_last(), start),
{
    reveal(Grid::carving);
    reveal(Grid::exhausted_but);
    let rest = stack.drop_last();
    assert forall|x: int, y: int, d: Direction|
        odd(x) && odd(y) && g.corridor(x, y) && !stacked(rest, x, y) implies !(#[trigger] g.open(
        x,
        y,
        d,
    )) by {
        if stacked(stack, x, y) {
            let k = choose|k: int|
                0 <= k < stack.len() && (#[trigger] stack[k]).0 == x && stack[k].1 == y;
            if k < rest.len() {
                assert(rest[k].0 == x && rest[k].1 == y);
            } else {
                assert(stack[k] == stack.last());
                assert(!g.open(stack.last().0 as int, stack.last().1 as int, d));
            }
        }
    }
    assert forall|i: int| 0 <= i < rest.len() implies {
        let c = #[trigger] rest[i];
        &&& odd(c.0 as int)
        &&& odd(c.1 as int)
        &&& g.corridor(c.0 as int, c.1 as int)
        &&& joined(g.corridors(), (c.0 as int, c.1 as int), (start.0 as int, start.1 as int))
    } by {
        assert(rest[i] == stack[i]);
    }
}

/// A corridor cell with odd coordinates that lies two steps from the wall
/// cell to which the carver goes is joined to the cell at which the carver
/// started: it is on the stack.
proof fn lemma_neighbor_of_target(g0: Grid, stack: Seq<Vec2D>, start: Vec2D, x: int, y: int, e: Direction)
    requires
        g0.sized(),
        g0.exhausted_but(stack),
        g0.stack_joined(stack, start),
        odd(x),
        odd(y),
        g0.inside(x, y),
        g0.tile(x, y) == Tile::Wall,
        odd(x + 2 * e.dx()),
        odd(y + 2 * e.dy()),
        g0.corridor(x + 2 * e.dx(), y + 2 * e.dy()),
    ensures
        joined(
            g0.corridors(),
            (x + 2 * e.dx(), y + 2 * e.dy()),
            (start.0 as int, start.1 as int),
        ),
{
    let (a, b) = (x + 2 * e.dx(), y + 2 * e.dy());
    lemma_wall_has_no_pair(g0, stack, x, y, e);
    let k = choose|k: int| 0 <= k < stack.len() && (#[trigger] stack[k]).0 == a && stack[k].1 == b;
    assert(joined(
        g0.corridors(),
        (stack[k].0 as int, stack[k].1 as int),
        (start.0 as int, start.1 as int),
    ));
}

/// After a passage was carved, the carver can still go nowhere from the
/// cells off its stack, on which the cell beyond now is.
proof fn lemma_step_on_exhausted(g0: Grid, g: Grid, stack: Seq<Vec2D>, x: int, y: int, d: Direction, target: Vec2D)
    requires
        g0.exhausted_but(stack),
        g.grown_from(g0),
        odd(x),
        odd(y),
        passage_carved(g0, g, x, y, d),
        target.0 == x + 2 * d.dx(),
        target.1 == y + 2 * d.dy(),
    ensures
        g.exhausted_but(stack.push(target)),
{
    reveal(Grid::exhausted_but);
    let more = stack.push(target);
    assert(more[stack.len() as int] == target);
    assert forall|a: int, b: int, e: Direction|
        odd(a) && odd(b) && g.corridor(a, b) && !stacked(more, a, b) implies !(#[trigger] g.open(
        a,
        b,
        e,
    )) by {
        if stacked(stack, a, b) {
            let k = choose|k: int|
                0 <= k < stack.len() && (#[trigger] stack[k]).0 == a && stack[k].1 == b;
            assert(more[k].0 == a && more[k].1 == b);
        }
        assert(g0.corridor(a, b));
        assert(!g0.open(a, b, e));
        let was = g0.tile(a + 2 * e.dx(), b + 2 * e.dy());
        let now = g.tile(a + 2 * e.dx(), b + 2 * e.dy());
    }
}

/// After a passage was carved, the cells of the stack, on which the cell
/// beyond now is, are joined to the cell at which the carver started.
proof fn lemma_step_on_stack(g0: Grid, g: Grid, stack: Seq<Vec2D>, start: Vec2D, target: Vec2D)
    requires
        g0.stack_joined(stack, start),
        g0.corridors().subset_of(g.corridors()),
        odd(target.0 as int),
        odd(target.1 as int),
        g.corridor(target.0 as int, target.1 as int),
        joined(
            g.corridors(),
            (target.0 as int, target.1 as int),
            (start.0 as int, start.1 as int),
        ),
    ensures
        g.stack_joined(stack.push(target), start),
{
    let more = stack.push(target);
    let s = (start.0 as int, start.1 as int);
    assert forall|i: int| 0 <= i < more.len() implies {
        let e = #[trigger] more[i];
        &&& odd(e.0 as int)
        &&& odd(e.1 as int)
        &&& g.corridor(e.0 as int, e.1 as int)
        &&& joined(g.corridors(), (e.0 as int, e.1 as int), s)
    } by {
        let e = more[i];
        if i < stack.len() {
            assert(e == stack[i]);
            assert(g0.corridors().contains((e.0 as int, e.1 as int)));
            assert(g.corridors().contains((e.0 as int, e.1 as int)));
            lemma_joined_more(g0.corridors(), g.corridors(), (e.0 as int, e.1 as int), s);
        }
    }
}

/// After a passage was carved to a wall cell, the corridors still span the
/// lattice.
proof fn lemma_step_on_spanning(g0: Grid, g: Grid, stack: Seq<Vec2D>, start: Vec2D, x: int, y: int, d: Direction)
    requires
        g0.sized(),
        g0.exhausted_but(stack),
        g0.stack_joined(stack, start),
        g0.spanning(),
        odd(x),
        odd(y),
        g0.inside(x + 2 * d.dx(), y + 2 * d.dy()),
        g0.tile(x + 2 * d.dx(), y + 2 * d.dy()) == Tile::Wall,
        passage_carved(g0, g, x, y, d),
        g0.corridors().subset_of(g.corridors()),
        joined(g.corridors(), (x + 2 * d.dx(), y + 2 * d.dy()), (x, y)),
        joined(
            g.corridors(),
            (x + 2 * d.dx(), y + 2 * d.dy()),
            (start.0 as int, start.1 as int),
        ),
    ensures
        g.spanning(),
{
    reveal(Grid::spanning);
    let c: Cell = (x, y);
    let t: Cell = (x + 2 * d.dx(), y + 2 * d.dy());
    let s: Cell = (start.0 as int, start.1 as int);
    let cs0 = g0.corridors();
    let cs = g.corridors();
    assert forall|a: int, b: int, e: Direction| #[trigger] g.pair(a, b, e) implies joined(
        cs,
        (a, b),
        (a + 2 * e.dx(), b + 2 * e.dy()),
    ) by {
        let (p, q) = ((a, b), (a + 2 * e.dx(), b + 2 * e.dy()));
        let here = g.corridor(a, b);
        let there = g.corridor(q.0, q.1);
        if p == t {
            if q != c {
                lemma_neighbor_of_target(g0, stack, start, a, b, e);
                lemma_joined_more(cs0, cs, q, s);
                lemma_joined_back(cs, q, s);
                lemma_joined_on(cs, t, s, q);
            }
        } else if q == t {
            let back = opposite(e);
            assert(a == q.0 + 2 * back.dx() && b == q.1 + 2 * back.dy());
            if p == c {
                lemma_joined_back(cs, t, c);
            } else {
                lemma_neighbor_of_target(g0, stack, start, q.0, q.1, back);
                lemma_joined_more(cs0, cs, p, s);
                lemma_joined_back(cs, t, s);
                lemma_joined_on(cs, p, s, t);
            }
        } else {
            assert(g0.pair(a, b, e));
            lemma_joined_more(cs0, cs, p, q);
        }
    }
}

/// When the carver has carved a passage from the last cell of the stack and
/// has put the cell beyond on the stack, it goes on with that stack.
proof fn lemma_step_on(
    g0: Grid,
    g: Grid,
    stack: Seq<Vec2D>,
    start: Vec2D,
    d: Direction,
    target: Vec2D,
)
    requires
        stack.len() > 0,
        g0.carving(stack, start),
        g0.open(stack.last().0 as int, stack.last().1 as int, d),
        g.carvable(),
        g.grown_from(g0),
        passage_carved(g0, g, stack.last().0 as int, stack.last().1 as int, d),
        target.0 == stack.last().0 + 2 * d.dx(),
        target.1 == stack.last().1 + 2 * d.dy(),
    ensures
        g.carving(stack.push(target), start),
{
    lemma_top(g0, stack, start);
    lemma_carvable(g0);
    reveal(Grid::carving);
    let (x, y) = (stack.last().0 as int, stack.last().1 as int);
    let c: Cell = (x, y);
    let m: Cell = (x + d.dx(), y + d.dy());
    let t: Cell = (x + 2 * d.dx(), y + 2 * d.dy());
    let s: Cell = (start.0 as int, start.1 as int);
    lemma_between_is_wall(g0, x, y, d);
    let cs0 = g0.corridors();
    let cs = g.corridors();
    assert(cs0.subset_of(cs)) by {
        assert forall|e: Cell| cs0.contains(e) implies cs.contains(e) by {
            let now = g.corridor(e.0, e.1);
        }
    }
    assert(cs.contains(c) && cs.contains(m) && cs.contains(t) && g.corridor(t.0, t.1)) by {
        let c1 = g.corridor(c.0, c.1);
        let c2 = g.corridor(m.0, m.1);
        let c3 = g.corridor(t.0, t.1);
    }
    assert(joined(cs0, c, s)) by {
        assert(stack[stack.len() - 1] == stack.last());
    }
    lemma_joined_more(cs0, cs, c, s);
    lemma_joined_step(cs, t, m);
    lemma_joined_step(cs, m, c);
    lemma_joined_on(cs, t, m, c);
    lemma_joined_on(cs, t, c, s);
    lemma_step_on_exhausted(g0, g, stack, x, y, d, target);
    lemma_step_on_stack(g0, g, stack, start, target);
    lemma_step_on_spanning(g0, g, stack, start, x, y, d);
}

/// What has grown from a grid that has grown from another has grown from
/// that one.
pub proof fn lemma_grown_on(g0: Grid, g1: Grid, g2: Grid)
    requires
        g1.grown_from(g0),
        g2.grown_from(g1),
    ensures
        g2.grown_from(g0),
{
    assert forall|a: int, b: int| #[trigger]
        g2.tile(a, b) == g0.tile(a, b) || (g0.tile(a, b) == Tile::Wall && g2.tile(a, b)
            == Tile::Floor) by {
        let mid = g1.tile(a, b);
    }
}

/// The cell `k` steps from `v` in direction `d`.
pub fn ahead(v: Vec2D, d: Direction, k: i32) -> (p: Vec2D)
    requires
        0 <= k <= 3,
        -0x4000_0000 <= v.0 <= 0x4000_0000,
        -0x4000_0000 <= v.1 <= 0x4000_0000,
    ensures
        p.0 == v.0 + k * d.dx(),
        p.1 == v.1 + k * d.dy(),
{
    let unit = d.dir();
    assert(unit.0 * k == k * d.dx() && unit.1 * k == k * d.dy()) by (nonlinear_arith)
        requires
            unit.0 == d.dx(),
            unit.1 == d.dy(),
    ;
    assert(-3 <= k * d.dx() <= 3 && -3 <= k * d.dy() <= 3) by (nonlinear_arith)
        requires
            0 <= k <= 3,
            -1 <= d.dx() <= 1,
            -1 <= d.dy() <= 1,
    ;
    v + unit * k
}

/// Whether a corridor that could go on straight turns: it does if the draw,
/// a number below a hundred, is no more than `WINDING_PERCENT`.
pub fn winds(roll: i32) -> (turn: bool)
    ensures
        turn == (roll <= WINDING_PERCENT),
{
    roll <= WINDING_PERCENT
}

/// Whether `d` is among `dirs`.
pub fn has_direction(dirs: &Vec<Direction>, d: Direction) -> (found: bool)
    ensures
        found == dirs@.contains(d),
{
    let mut k: usize = 0;
    while k < dirs.len()
        invariant
            k <= dirs.len(),
            forall|i: int| 0 <= i < k ==> dirs@[i] != d,
        decreases dirs.len() - k,
    {
        if dirs[k] == d {
            return true;
        }
        k += 1;
    }
    false
}

/// The direction in which the carver may go straight on: the one it came
/// by, if it did not just start or step back and can go there again.
pub fn straight_on(last_dir: Option<Direction>, open: &Vec<Direction>) -> (straight: Option<
    Direction,
>)
    ensures
        straight == match last_dir {
            Some(d) if open@.contains(d) => Some(d),
            _ => None::<Direction>,
        },
{
    match last_dir {
        Some(d) => if has_direction(open, d) {
            Some(d)
        } else {
            None
        },
        None => None,
    }
}

impl Dungeon {
    /// Whether the carver can go from `pos` in direction `d`.
    pub fn can_cell_be_carved(&self, pos: &Vec2D, d: &Direction) -> (open: bool)
        requires
            self.sound(),
            self@.inside(pos.0 as int, pos.1 as int),
        ensures
            open == self@.open(pos.0 as int, pos.1 as int, *d),
    {
        proof {
            self.lemma_sound();
            lemma_pixels_bound(self@.width, self@.height);
        }
        self.in_bounds(ahead(*pos, *d, 3)) && self.get_tile(ahead(*pos, *d, 2)) == Tile::Wall
    }

    /// The directions in which the carver can go from `pos`, in the order
    /// of their enumeration.
    pub fn open_directions(&self, pos: &Vec2D) -> (open: Vec<Direction>)
        requires
            self.sound(),
            self@.inside(pos.0 as int, pos.1 as int),
        ensures
            open@ == self@.open_list(pos.0 as int, pos.1 as int),
            forall|d: Direction| open@.contains(d) <==> self@.open(pos.0 as int, pos.1 as int, d),
    {
        let all = Direction::iterator();
        let mut open: Vec<Direction> = Vec::new();
        let ghost x = pos.0 as int;
        let ghost y = pos.1 as int;
        let ghost g = self@;
        let mut k: usize = 0;
        while k < 4
            invariant
                k <= 4,
                self.sound(),
                g == self@,
                x == pos.0,
                y == pos.1,
                g.inside(x, y),
                all@ == Direction::all(),
                k == 0 ==> open@ == Seq::<Direction>::empty(),
                k == 1 ==> open@ == g.open_one(x, y, Direction::N),
                k == 2 ==> open@ == g.open_one(x, y, Direction::N) + g.open_one(x, y, Direction::S),
                k == 3 ==> open@ == g.open_one(x, y, Direction::N) + g.open_one(x, y, Direction::S)
                    + g.open_one(x, y, Direction::E),
                k == 4 ==> open@ == g.open_list(x, y),
            decreases 4 - k,
        {
            let d = all[k];
            let ghost before = open@;
            if self.can_cell_be_carved(pos, &d) {
                open.push(d);
            }
            proof {
                assert(open@ =~= before + g.open_one(x, y, d));
                assert(Seq::<Direction>::empty() + g.open_one(x, y, Direction::N) =~= g.open_one(
                    x,
                    y,
                    Direction::N,
                ));
            }
            k += 1;
        }
        proof {
            let n = g.open_one(x, y, Direction::N);
            let s = g.open_one(x, y, Direction::S);
            let e = g.open_one(x, y, Direction::E);
            let w = g.open_one(x, y, Direction::W);
            assert forall|d: Direction| open@.contains(d) <==> g.open(x, y, d) by {
                if g.open(x, y, d) {
                    let at = match d {
                        Direction::N => 0,
                        Direction::S => n.len() as int,
                        Direction::E => (n.len() + s.len()) as int,
                        Direction::W => (n.len() + s.len() + e.len()) as int,
                    };
                    assert(open@[at] == d);
                }
                if open@.contains(d) {
                    let i = choose|i: int| 0 <= i < open@.len() && open@[i] == d;
                    assert(open@[i] == d);
                }
            }
        }
        open
    }

    /// Carves a corridor from the corridor cell `cell` two steps in
    /// direction `d`: the cell in between and the cell beyond become floor,
    /// and nothing else changes. Returns the cell beyond.
    pub fn carve_passage(&mut self, cell: Vec2D, d: Direction) -> (target: Vec2D)
        requires
            old(self).sound(),
            old(self)@.carvable(),
            odd(cell.0 as int),
            odd(cell.1 as int),
            old(self)@.corridor(cell.0 as int, cell.1 as int),
            old(self)@.open(cell.0 as int, cell.1 as int, d),
        ensures
            final(self).sound(),
            final(self)@.carvable(),
            final(self).same_settings(old(self)),
            final(self).journal_extends(old(self)),
            final(self)@.grown_from(old(self)@),
            passage_carved(old(self)@, final(self)@, cell.0 as int, cell.1 as int, d),
            target.0 == cell.0 + 2 * d.dx(),
            target.1 == cell.1 + 2 * d.dy(),
            forall|a: int, b: int| #[trigger]
                final(self)@.tile(a, b) == if (a == cell.0 + d.dx() && b == cell.1 + d.dy()) || (a
                    == target.0 && b == target.1) {
                    Tile::Floor
                } else {
                    old(self)@.tile(a, b)
                },
            final(self)@.walls() + 2 == old(self)@.walls(),
            final(self)@.lattice_walls() + 1 == old(self)@.lattice_walls(),
            final(self).frames_since(old(self)) == 0,
    {
        let ghost g0 = self@;
        let ghost (x, y) = (cell.0 as int, cell.1 as int);
        let ghost (mx, my) = (x + d.dx(), y + d.dy());
        let ghost (tx, ty) = (x + 2 * d.dx(), y + 2 * d.dy());
        proof {
            self.lemma_sound();
            lemma_pixels_bound(g0.width, g0.height);
            lemma_carvable(g0);
            lemma_between_is_wall(g0, x, y, d);
            lemma_offset(g0.width, g0.height, mx, my);
            lemma_offset(g0.width, g0.height, tx, ty);
            lemma_count_update(g0.tiles, offset(g0.width, mx, my), Tile::Floor, Tile::Wall);
            lemma_lattice_walls_update(
                g0.tiles,
                g0.width,
                g0.tiles.len() as int,
                offset(g0.width, mx, my),
                Tile::Floor,
            );
        }
        let between = ahead(cell, d, 1);
        let target = ahead(cell, d, 2);
        self.carve_floor(between);
        let ghost g1 = self@;
        proof {
            assert(g1.tile(tx, ty) == Tile::Wall);
            lemma_count_update(g1.tiles, offset(g1.width, tx, ty), Tile::Floor, Tile::Wall);
            lemma_lattice_walls_update(
                g1.tiles,
                g1.width,
                g1.tiles.len() as int,
                offset(g1.width, tx, ty),
                Tile::Floor,
            );
        }
        self.carve_floor(target);
        proof {
            self.lemma_sound();
            assert forall|a: int, b: int| #[trigger]
                self@.tile(a, b) == if (a == mx && b == my) || (a == tx && b == ty) {
                    Tile::Floor
                } else {
                    g0.tile(a, b)
                } by {
                let mid = g1.tile(a, b);
            }
            lemma_passage_keeps_carvable(g0, self@, x, y, d);
        }
        target
    }

    /// Starts a new corridor at the wall cell `start`, which becomes floor.
    pub fn carve_start(&mut self, start: Vec2D)
        requires
            old(self).sound(),
            old(self)@.carvable(),
            odd(start.0 as int),
            odd(start.1 as int),
            old(self)@.inside(start.0 as int, start.1 as int),
            old(self)@.tile(start.0 as int, start.1 as int) == Tile::Wall,
        ensures
            final(self).sound(),
            final(self)@.carvable(),
            final(self).same_settings(old(self)),
            final(self).journal_extends(old(self)),
            final(self)@.grown_from(old(self)@),
            forall|a: int, b: int| #[trigger]
                final(self)@.tile(a, b) == if a == start.0 && b == start.1 {
                    Tile::Floor
                } else {
                    old(self)@.tile(a, b)
                },
            forall|a: int, b: int| #[trigger]
                final(self)@.corridor(a, b) == (old(self)@.corridor(a, b) || (a == start.0 && b
                    == start.1)),
            final(self)@.walls() + 1 == old(self)@.walls(),
            final(self)@.lattice_walls() + 1 == old(self)@.lattice_walls(),
            final(self).frames_since(old(self)) == 0,
    {
        let ghost g0 = self@;
        proof {
            self.lemma_sound();
            lemma_offset(g0.width, g0.height, start.0 as int, start.1 as int);
            lemma_lattice_walls_update(
                g0.tiles,
                g0.width,
                g0.tiles.len() as int,
                offset(g0.width, start.0 as int, start.1 as int),
                Tile::Floor,
            );
            lemma_count_update(
                g0.tiles,
                offset(g0.width, start.0 as int, start.1 as int),
                Tile::Floor,
                Tile::Wall,
            );
        }
        self.carve_floor(start);
        proof {
            self.lemma_sound();
            lemma_start_keeps_carvable(g0, self@, start.0 as int, start.1 as int);
        }
    }

    /// Grows one tree of corridors from the wall cell `start` until it can
    /// grow no further. The carver works on the cell it reached last. If it
    /// can go nowhere from there, it steps back to the cell before. If it can
    /// go on straight, it does so unless a draw below a hundred is no more
    /// than `WINDING_PERCENT`; otherwise it goes in one of the open
    /// directions, drawn at random. An animated dungeon marks a frame after
    /// the start and after each passage.
    pub fn do_fill_maze(&mut self, start: Vec2D, rng: &mut StdRng)
        requires
            old(self).sound(),
            old(self)@.settled(),
            odd(start.0 as int),
            odd(start.1 as int),
            old(self)@.inside(start.0 as int, start.1 as int),
            old(self)@.tile(start.0 as int, start.1 as int) == Tile::Wall,
        ensures
            final(self).sound(),
            final(self)@.settled(),
            final(self).same_settings(old(self)),
            final(self).journal_extends(old(self)),
            final(self)@.grown_from(old(self)@),
            final(self)@.tile(start.0 as int, start.1 as int) == Tile::Floor,
            final(self).frames_since(old(self)) == if old(self).animated() {
                old(self)@.lattice_walls() - final(self)@.lattice_walls()
            } else {
                0int
            },
    {
        let mut cells: Vec<Vec2D> = Vec::new();
        let mut last_dir: Option<Direction> = None;

        cells.push(start);
        self.carve_start(start);
        self.snapshot();
        proof {
            assert(cells@ =~= seq![start]);
            lemma_start(old(self)@, self@, start);
        }

        while cells.len() > 0
            invariant
                self.sound(),
                self@.carving(cells@, start),
                self.same_settings(old(self)),
                self.journal_extends(old(self)),
                self@.grown_from(old(self)@),
                self@.tile(start.0 as int, start.1 as int) == Tile::Floor,
                self.frames_since(old(self)) == if old(self).animated() {
                    old(self)@.lattice_walls() - self@.lattice_walls()
                } else {
                    0int
                },
            decreases self@.walls(), cells@.len(),
        {
            let cell = cells[cells.len() - 1];
            let ghost before = self@;
            let ghost stack = cells@;
            proof {
                lemma_top(before, stack, start);
            }
            let unmade_direction = self.open_directions(&cell);

            if unmade_direction.len() == 0 {
                let _ = cells.pop();
                last_dir = None;
                proof {
                    assert forall|d: Direction| !before.open(cell.0 as int, cell.1 as int, d) by {
                        assert(!unmade_direction@.contains(d));
                    }
                    lemma_step_back(before, stack, start);
                }
            } else {
                let straight = straight_on(last_dir, &unmade_direction);
                let d = if straight.is_some() && !winds(random_range(rng, 0, 100)) {
                    straight.unwrap()
                } else {
                    match random_choice(rng, &unmade_direction) {
                        Some(pick) => pick,
                        None => unmade_direction[0],
                    }
                };
                last_dir = Some(d);
                assert(unmade_direction@.contains(d));

                let target = self.carve_passage(cell, d);
                cells.push(target);
                self.snapshot();
                proof {
                    lemma_step_on(before, self@, stack, start, d, target);
                    lemma_grown_on(old(self)@, before, self@);
                }
            }
        }
        proof {
            lemma_rest(self@, cells@, start);
        }
    }

    /// The maze carver. It visits the cells with odd coordinates row by row
    /// and grows a tree of corridors from each one that is still wall.
    /// Afterwards every cell with odd coordinates is floor, and the
    /// corridors are a forest that keeps to the lattice.
    pub fn fill_maze(&mut self, rng: &mut StdRng)
        requires
            old(self).sound(),
            old(self)@.settled(),
        ensures
            final(self).sound(),
            final(self)@.settled(),
            final(self)@.filled(),
            final(self).same_settings(old(self)),
            final(self).journal_extends(old(self)),
            final(self)@.grown_from(old(self)@),
            final(self).frames_since(old(self)) == if old(self).animated() {
                old(self)@.lattice_walls() - final(self)@.lattice_walls()
            } else {
                0int
            },
    {
        proof {
            self.lemma_sound();
            lemma_pixels_bound(self@.width, self@.height);
        }
        let width = self.width();
        let height = self.height();
        let mut y: i32 = 1;
        while y < height
            invariant
                self.sound(),
                self@.settled(),
                self.same_settings(old(self)),
                self.journal_extends(old(self)),
                self@.grown_from(old(self)@),
                self.frames_since(old(self)) == if old(self).animated() {
                    old(self)@.lattice_walls() - self@.lattice_walls()
                } else {
                    0int
                },
                width == self@.width,
                height == self@.height,
                0 < height <= i32::MAX - 2,
                0 < width <= i32::MAX - 2,
                odd(y as int),
                1 <= y <= height + 1,
                forall|i: int, j: int|
                    self@.inside(i, j) && odd(i) && odd(j) && j < y ==> #[trigger] self@.tile(i, j)
                        == Tile::Floor,
            decreases height + 1 - y,
        {
            let mut x: i32 = 1;
            while x < width
                invariant
                    self.sound(),
                        self@.settled(),
                    self.same_settings(old(self)),
                    self.journal_extends(old(self)),
                    self@.grown_from(old(self)@),
                    self.frames_since(old(self)) == if old(self).animated() {
                        old(self)@.lattice_walls() - self@.lattice_walls()
                    } else {
                        0int
                    },
                    width == self@.width,
                    height == self@.height,
                    0 < height <= i32::MAX - 2,
                    0 < width <= i32::MAX - 2,
                    odd(y as int),
                    odd(x as int),
                    1 <= y < height,
                    1 <= x <= width + 1,
                    forall|i: int, j: int|
                        self@.inside(i, j) && odd(i) && odd(j) && (j < y || (j == y && i < x))
                            ==> #[trigger] self@.tile(i, j) == Tile::Floor,
                decreases width + 1 - x,
            {
                let cell = Vec2D(x, y);
                let ghost before = self@;
                if self.get_tile(cell) == Tile::Wall {
                    self.do_fill_maze(cell, rng);
                }
                proof {
                    let g = self@;
                    lemma_carvable(before);
                    assert forall|i: int, j: int|
                        g.inside(i, j) && odd(i) && odd(j) && (j < y || (j == y && i < x + 2))
                        implies #[trigger] g.tile(i, j) == Tile::Floor by {
                        let was = before.tile(i, j);
                    }
                    assert forall|a: int, b: int| #[trigger]
                        g.tile(a, b) == old(self)@.tile(a, b) || (old(self)@.tile(a, b)
                            == Tile::Wall && g.tile(a, b) == Tile::Floor) by {
                        let was = before.tile(a, b);
                    }
                }
                x += 2;
            }
            y += 2;
        }
    }
}

} // verus!
