//! The dead-end pruner: it turns corridor cells that lead nowhere back into
//! wall, one after the other, until every corridor that is left leads on or
//! ends at a door.

use vstd::prelude::*;
use crate::connectors::listed;
use crate::dungeon::{count_of, lemma_count_update, lemma_same_rooms, Dungeon, Grid, Tile};
use crate::picture::lemma_pixels_bound;
use crate::forest::Cell;
use crate::geometry::{Direction, Vec2D};
use crate::mask::CellMask;
use crate::maze::ahead;
use crate::ppm::{lemma_offset, offset};

verus! {

impl Grid {
    /// The number of floor cells of the grid.
    pub open spec fn floors(self) -> nat {
        count_of(self.tiles, Tile::Floor)
    }

    /// A dead end: a corridor cell with exactly one floor cell and no door
    /// among its neighbors.
    pub open spec fn dead_end(self, x: int, y: int) -> bool {
        self.corridor(x, y) && !self.door_neighbor(x, y) && self.floor_neighbors(x, y) == 1
    }

    /// There is no dead end.
    pub open spec fn pruned(self) -> bool {
        forall|x: int, y: int| !#[trigger] self.dead_end(x, y)
    }

    /// A cell that the pruner has yet to remove, where it started from the
    /// grid `start`: a corridor cell with no door and at most one floor cell
    /// among its neighbors, which had a floor cell among them at the start.
    pub open spec fn removable(self, start: Grid, x: int, y: int) -> bool {
        &&& self.corridor(x, y)
        &&& !self.door_neighbor(x, y)
        &&& self.floor_neighbors(x, y) <= 1
        &&& start.floor_neighbors(x, y) >= 1
    }

    /// Whether `self` came from `start` by turning corridor cells into wall
    /// that had no door and at least one floor cell among their neighbors.
    pub open spec fn shrunk_from(self, start: Grid) -> bool {
        &&& self.width == start.width
        &&& self.height == start.height
        &&& self.rooms == start.rooms
        &&& forall|x: int, y: int| #[trigger]
            self.tile(x, y) == start.tile(x, y) || (self.tile(x, y) == Tile::Wall && start.corridor(
                x,
                y,
            ) && !start.door_neighbor(x, y) && start.floor_neighbors(x, y) >= 1)
    }

    /// One if `(x, y)` is floor and is a cell of a room or one of the cells
    /// `kept`, else zero.
    pub open spec fn kept_at(self, kept: Set<Cell>, x: int, y: int) -> int {
        if self.tile(x, y) == Tile::Floor && (self.in_room(x, y) || kept.contains((x, y))) {
            1
        } else {
            0
        }
    }

    /// How many of the four neighbors of `(x, y)` stay floor if of the
    /// corridors only the cells `kept` are kept.
    pub open spec fn kept_neighbors(self, kept: Set<Cell>, x: int, y: int) -> int {
        self.kept_at(kept, x, y - 1) + self.kept_at(kept, x, y + 1) + self.kept_at(kept, x + 1, y)
            + self.kept_at(kept, x - 1, y)
    }

    /// A set of corridor cells that can be kept: each of them has a door
    /// among its neighbors, or has no floor cell among them to begin with,
    /// or keeps two floor cells among them if only the set is kept.
    pub open spec fn stable(self, kept: Set<Cell>) -> bool {
        forall|c: Cell| #[trigger]
            kept.contains(c) ==> self.corridor(c.0, c.1) && (self.door_neighbor(c.0, c.1)
                || self.floor_neighbors(c.0, c.1) == 0 || self.kept_neighbors(kept, c.0, c.1) >= 2)
    }

    /// Whether all of the cells are corridor cells of the grid.
    pub open spec fn holds(self, cells: Set<Cell>) -> bool {
        forall|c: Cell| #[trigger] cells.contains(c) ==> self.corridor(c.0, c.1)
    }

    /// What the pruner leaves of the grid `start`: its corridors are a set
    /// that can be kept, and they hold every set that can be kept. So they
    /// are the largest such set, and nothing else has changed.
    pub open spec fn pruned_from(self, start: Grid) -> bool {
        &&& self.shrunk_from(start)
        &&& forall|x: int, y: int| !#[trigger] self.removable(start, x, y)
        &&& start.stable(self.corridors())
        &&& forall|kept: Set<Cell>| #[trigger] start.stable(kept) ==> self.holds(kept)
    }

    /// What holds of the cells the pruner has yet to look at: each is a
    /// removable cell or has a door beside it, and none is there twice.
    pub open spec fn listing(self, start: Grid, work: Seq<Vec2D>) -> bool {
        &&& forall|i: int|
            0 <= i < work.len() ==> {
                let c = #[trigger] work[i];
                &&& self.corridor(c.0 as int, c.1 as int)
                &&& self.floor_neighbors(c.0 as int, c.1 as int) <= 1
                &&& start.floor_neighbors(c.0 as int, c.1 as int) >= 1
            }
        &&& forall|i: int, j: int| 0 <= i < j < work.len() ==> #[trigger] work[i] != #[trigger] work[j]
    }

    /// What holds while the pruner works through the list `work`, having
    /// started from the grid `start`: every removable cell is listed, and
    /// every set that can be kept is still there.
    pub open spec fn pruning(self, start: Grid, work: Seq<Vec2D>) -> bool {
        &&& self.wf()
        &&& start.wf()
        &&& self.shrunk_from(start)
        &&& self.listing(start, work)
        &&& forall|x: int, y: int| #[trigger] self.removable(start, x, y) ==> listed(work, x, y)
        &&& forall|kept: Set<Cell>| #[trigger] start.stable(kept) ==> self.holds(kept)
    }
}

/// Every cell of a room of a well-formed grid has two floor cells among its
/// neighbors.
pub proof fn lemma_room_cell_has_floor_neighbors(g: Grid, x: int, y: int)
    requires
        g.wf(),
        g.in_room(x, y),
    ensures
        g.floor_neighbors(x, y) >= 2,
{
    let k = choose|k: int| 0 <= k < g.rooms.len() && #[trigger] g.rooms[k].covers(x, y);
    let r = g.rooms[k];
    assert(g.admissible(r));
    if r.covers(x, y - 1) {
        assert(g.tile(x, y - 1) == Tile::Floor);
    }
    if r.covers(x, y + 1) {
        assert(g.tile(x, y + 1) == Tile::Floor);
    }
    if r.covers(x + 1, y) {
        assert(g.tile(x + 1, y) == Tile::Floor);
    }
    if r.covers(x - 1, y) {
        assert(g.tile(x - 1, y) == Tile::Floor);
    }
}

/// What stays the same while the pruner works: the doors, and with them
/// which cells have a door beside them. No cell has more floor cells among
/// its neighbors than at the start, and every corridor cell was one at the
/// start.
pub proof fn lemma_shrunk(g: Grid, start: Grid)
    requires
        g.shrunk_from(start),
    ensures
        forall|x: int, y: int| #[trigger] g.in_room(x, y) == start.in_room(x, y),
        forall|x: int, y: int| #[trigger] g.door_neighbor(x, y) == start.door_neighbor(x, y),
        forall|x: int, y: int| #[trigger] g.floor_neighbors(x, y) <= start.floor_neighbors(x, y),
        forall|x: int, y: int| #[trigger] g.corridor(x, y) ==> start.corridor(x, y),
{
    lemma_same_rooms(g, start);
    assert forall|x: int, y: int| #[trigger] g.door_neighbor(x, y) == start.door_neighbor(x, y) by {
        lemma_shrunk_at(g, start, x, y - 1);
        lemma_shrunk_at(g, start, x, y + 1);
        lemma_shrunk_at(g, start, x + 1, y);
        lemma_shrunk_at(g, start, x - 1, y);
    }
    assert forall|x: int, y: int| #[trigger]
        g.floor_neighbors(x, y) <= start.floor_neighbors(x, y) by {
        lemma_shrunk_at(g, start, x, y - 1);
        lemma_shrunk_at(g, start, x, y + 1);
        lemma_shrunk_at(g, start, x + 1, y);
        lemma_shrunk_at(g, start, x - 1, y);
    }
    assert forall|x: int, y: int| #[trigger] g.corridor(x, y) implies start.corridor(x, y) by {
        lemma_shrunk_at(g, start, x, y);
    }
}

/// What a cell is while the pruner works: what it was at the start, or wall
/// where it was corridor floor.
pub proof fn lemma_shrunk_at(g: Grid, start: Grid, x: int, y: int)
    requires
        g.shrunk_from(start),
    ensures
        (g.tile(x, y) == Tile::Door) == (start.tile(x, y) == Tile::Door),
        g.floor_at(x, y) <= start.floor_at(x, y),
        g.tile(x, y) == Tile::Floor ==> start.tile(x, y) == Tile::Floor,
        g.tile(x, y) == start.tile(x, y) || (g.tile(x, y) == Tile::Wall && start.tile(x, y)
            == Tile::Floor),
{
    let now = g.tile(x, y);
}

/// A cell on the list can be in no set that can be kept, once it has no
/// door beside it.
proof fn lemma_listed_is_not_kept(g: Grid, start: Grid, kept: Set<Cell>, x: int, y: int)
    requires
        g.wf(),
        g.shrunk_from(start),
        start.stable(kept),
        g.holds(kept),
        !g.door_neighbor(x, y),
        g.floor_neighbors(x, y) <= 1,
        start.floor_neighbors(x, y) >= 1,
    ensures
        !kept.contains((x, y)),
{
    lemma_shrunk(g, start);
    if kept.contains((x, y)) {
        lemma_kept_is_floor(g, start, kept, x, y - 1);
        lemma_kept_is_floor(g, start, kept, x, y + 1);
        lemma_kept_is_floor(g, start, kept, x + 1, y);
        lemma_kept_is_floor(g, start, kept, x - 1, y);
        assert(start.kept_neighbors(kept, x, y) <= g.floor_neighbors(x, y));
    }
}

/// A cell that stays floor if a set is kept that is still there is floor.
proof fn lemma_kept_is_floor(g: Grid, start: Grid, kept: Set<Cell>, x: int, y: int)
    requires
        g.wf(),
        g.shrunk_from(start),
        g.holds(kept),
    ensures
        start.kept_at(kept, x, y) <= g.floor_at(x, y),
{
    lemma_same_rooms(g, start);
    if start.kept_at(kept, x, y) == 1 {
        if start.in_room(x, y) {
            crate::connectors::lemma_room_is_floor(g, x, y);
        } else {
            assert(kept.contains((x, y)));
            assert(g.corridor(x, y));
        }
    }
}

/// Turning the cell `(x, y)` into wall changes what its neighbors count:
/// each of them has one floor cell less beside it if `(x, y)` was floor, and
/// every other cell has as many as before.
pub proof fn lemma_filled(g: Grid, h: Grid, x: int, y: int)
    requires
        h.width == g.width,
        h.height == g.height,
        h.rooms == g.rooms,
        forall|a: int, b: int| #[trigger]
            h.tile(a, b) == if a == x && b == y {
                Tile::Wall
            } else {
                g.tile(a, b)
            },
    ensures
        forall|a: int, b: int| #[trigger]
            h.floor_neighbors(a, b) == g.floor_neighbors(a, b) - if crate::forest::adjacent(
                (a, b),
                (x, y),
            ) {
                g.floor_at(x, y)
            } else {
                0
            },
        forall|a: int, b: int| #[trigger] h.door_neighbor(a, b) ==> g.door_neighbor(a, b),
        forall|a: int, b: int|
            g.tile(x, y) != Tile::Door ==> #[trigger] h.door_neighbor(a, b) == g.door_neighbor(a, b),
        forall|a: int, b: int| #[trigger] h.in_room(a, b) == g.in_room(a, b),
{
    lemma_same_rooms(h, g);
    assert forall|a: int, b: int| #[trigger]
        h.floor_neighbors(a, b) == g.floor_neighbors(a, b) - if crate::forest::adjacent(
            (a, b),
            (x, y),
        ) {
            g.floor_at(x, y)
        } else {
            0
        } by {
        let n = h.tile(a, b - 1);
        let s = h.tile(a, b + 1);
        let e = h.tile(a + 1, b);
        let w = h.tile(a - 1, b);
    }
    assert forall|a: int, b: int| #[trigger] h.door_neighbor(a, b) implies g.door_neighbor(a, b) by {
        let n = h.tile(a, b - 1);
        let s = h.tile(a, b + 1);
        let e = h.tile(a + 1, b);
        let w = h.tile(a - 1, b);
    }
    assert forall|a: int, b: int| g.tile(x, y) != Tile::Door implies #[trigger] h.door_neighbor(a, b)
        == g.door_neighbor(a, b) by {
        let n = h.tile(a, b - 1);
        let s = h.tile(a, b + 1);
        let e = h.tile(a + 1, b);
        let w = h.tile(a - 1, b);
    }
}

/// When the pruner passes over the last cell of its list because the cell
/// has a door beside it, it can go on with the rest of the list.
proof fn lemma_pass(g: Grid, start: Grid, work: Seq<Vec2D>)
    requires
        g.pruning(start, work),
        work.len() > 0,
        g.door_neighbor(work.last().0 as int, work.last().1 as int),
    ensures
        g.pruning(start, work.drop_last()),
{
    let rest = work.drop_last();
    assert forall|i: int| 0 <= i < rest.len() implies {
        let c = #[trigger] rest[i];
        &&& g.corridor(c.0 as int, c.1 as int)
        &&& g.floor_neighbors(c.0 as int, c.1 as int) <= 1
        &&& start.floor_neighbors(c.0 as int, c.1 as int) >= 1
    } by {
        assert(rest[i] == work[i]);
    }
    assert forall|i: int, j: int| 0 <= i < j < rest.len() implies #[trigger] rest[i]
        != #[trigger] rest[j] by {
        assert(rest[i] == work[i] && rest[j] == work[j]);
    }
    assert forall|x: int, y: int| #[trigger] g.removable(start, x, y) implies listed(rest, x, y) by {
        assert(listed(work, x, y));
        let k = choose|k: int| 0 <= k < work.len() && (#[trigger] work[k]).0 == x && work[k].1 == y;
        if k < rest.len() {
            assert(rest[k].0 == x && rest[k].1 == y);
        } else {
            assert(work[k] == work.last());
        }
    }
}

/// When the pruner has turned the last cell of its list, with no door
/// beside it, into wall, and has put the floor cell beside it on the list if
/// that cell is left with only one floor cell beside it, it can go on with
/// the list as it is then.
proof fn lemma_fill(g: Grid, h: Grid, start: Grid, work: Seq<Vec2D>, next: Option<Vec2D>)
    requires
        g.pruning(start, work),
        work.len() > 0,
        !g.door_neighbor(work.last().0 as int, work.last().1 as int),
        h.sized(),
        h.width == g.width,
        h.height == g.height,
        h.rooms == g.rooms,
        forall|a: int, b: int| #[trigger]
            h.tile(a, b) == if a == work.last().0 && b == work.last().1 {
                Tile::Wall
            } else {
                g.tile(a, b)
            },
        match next {
            Some(n) => {
                &&& crate::forest::adjacent(
                    (n.0 as int, n.1 as int),
                    (work.last().0 as int, work.last().1 as int),
                )
                &&& h.tile(n.0 as int, n.1 as int) == Tile::Floor
                &&& h.floor_neighbors(n.0 as int, n.1 as int) == 1
            },
            None => forall|a: int, b: int|
                crate::forest::adjacent((a, b), (work.last().0 as int, work.last().1 as int))
                    && g.tile(a, b) == Tile::Floor ==> #[trigger] h.floor_neighbors(a, b) != 1,
        },
    ensures
        h.pruning(
            start,
            match next {
                Some(n) => work.drop_last().push(n),
                None => work.drop_last(),
            },
        ),
{
    let c = work.last();
    let (x, y) = (c.0 as int, c.1 as int);
    let rest = work.drop_last();
    let after = match next {
        Some(n) => rest.push(n),
        None => rest,
    };
    assert(g.corridor(x, y));
    lemma_filled(g, h, x, y);
    lemma_shrunk(g, start);
    assert(h.shrunk_from(start)) by {
        assert forall|a: int, b: int| #[trigger]
            h.tile(a, b) == start.tile(a, b) || (h.tile(a, b) == Tile::Wall && start.corridor(a, b)
                && !start.door_neighbor(a, b) && start.floor_neighbors(a, b) >= 1) by {
            let was = g.tile(a, b);
        }
    }
    assert(h.wf()) by {
        assert forall|a: int, b: int| h.on_border(a, b) implies #[trigger] h.tile(a, b)
            == Tile::Wall by {
            assert(g.on_border(a, b));
            let was = g.tile(a, b);
        }
        assert forall|k: int, a: int, b: int|
            0 <= k < h.rooms.len() && #[trigger] h.rooms[k].covers(a, b) implies h.tile(a, b)
            == Tile::Floor by {
            assert(g.rooms[k].covers(a, b));
            let was = g.tile(a, b);
        }
    }
    assert forall|a: int, b: int| #[trigger] h.corridor(a, b) == (g.corridor(a, b) && !(a == x && b
        == y)) by {
        let now = h.tile(a, b);
    }
    // every set that can be kept is still there
    assert forall|kept: Set<Cell>| #[trigger] start.stable(kept) implies h.holds(kept) by {
        assert(g.holds(kept));
        lemma_listed_is_not_kept(g, start, kept, x, y);
        assert forall|e: Cell| #[trigger] kept.contains(e) implies h.corridor(e.0, e.1) by {
            assert(g.corridor(e.0, e.1));
        }
    }
    // the cells of the list
    assert forall|i: int| 0 <= i < rest.len() implies {
        let e = #[trigger] rest[i];
        &&& h.corridor(e.0 as int, e.1 as int)
        &&& h.floor_neighbors(e.0 as int, e.1 as int) <= 1
        &&& start.floor_neighbors(e.0 as int, e.1 as int) >= 1
        &&& next != Some(e)
    } by {
        assert(rest[i] == work[i]);
        assert(work[i] != work[work.len() - 1]);
        let e = rest[i];
        let before = g.floor_neighbors(e.0 as int, e.1 as int);
        let now = h.floor_neighbors(e.0 as int, e.1 as int);
        if next == Some(e) {
            assert(g.floor_neighbors(e.0 as int, e.1 as int) == 2);
        }
    }
    assert forall|i: int, j: int| 0 <= i < j < rest.len() implies #[trigger] rest[i]
        != #[trigger] rest[j] by {
        assert(rest[i] == work[i] && rest[j] == work[j]);
    }
    match next {
        Some(n) => {
            let (nx, ny) = (n.0 as int, n.1 as int);
            if h.in_room(nx, ny) {
                lemma_room_cell_has_floor_neighbors(h, nx, ny);
            }
            lemma_shrunk(h, start);
            assert(after[rest.len() as int] == n);
            assert forall|i: int| 0 <= i < after.len() implies {
                let e = #[trigger] after[i];
                &&& h.corridor(e.0 as int, e.1 as int)
                &&& h.floor_neighbors(e.0 as int, e.1 as int) <= 1
                &&& start.floor_neighbors(e.0 as int, e.1 as int) >= 1
            } by {
                if i < rest.len() {
                    assert(after[i] == rest[i]);
                }
            }
            assert forall|i: int, j: int| 0 <= i < j < after.len() implies #[trigger] after[i]
                != #[trigger] after[j] by {
                if j < rest.len() {
                    assert(after[i] == rest[i] && after[j] == rest[j]);
                } else {
                    assert(after[i] == rest[i]);
                }
            }
        },
        None => {},
    }
    // every removable cell is listed
    assert forall|a: int, b: int| #[trigger] h.removable(start, a, b) implies listed(after, a, b) by {
        let before = g.floor_neighbors(a, b);
        let now = h.floor_neighbors(a, b);
        if g.floor_neighbors(a, b) <= 1 {
            assert(g.removable(start, a, b));
            assert(listed(work, a, b));
            let k = choose|k: int|
                0 <= k < work.len() && (#[trigger] work[k]).0 == a && work[k].1 == b;
            assert(k < rest.len());
            assert(rest[k].0 == a && rest[k].1 == b);
            assert(after[k] == rest[k]);
        } else {
            assert(crate::forest::adjacent((a, b), (x, y)));
            assert(g.tile(a, b) == Tile::Floor);
            assert(h.floor_neighbors(a, b) == 1);
            lemma_one_floor_neighbor(g, x, y, a, b, next);
            assert(after[rest.len() as int].0 == a && after[rest.len() as int].1 == b);
        }
    }
}

/// A cell with at most one floor cell among its neighbors has no two
/// different floor cells beside it.
proof fn lemma_one_floor_neighbor(g: Grid, x: int, y: int, a: int, b: int, next: Option<Vec2D>)
    requires
        g.floor_neighbors(x, y) <= 1,
        crate::forest::adjacent((a, b), (x, y)),
        g.tile(a, b) == Tile::Floor,
        next matches Some(n) ==> crate::forest::adjacent((n.0 as int, n.1 as int), (x, y)) && g.tile(
            n.0 as int,
            n.1 as int,
        ) == Tile::Floor,
    ensures
        next matches Some(n) ==> n.0 == a && n.1 == b,
{
}

/// Where the pruner finds nothing left to remove, the corridors that are
/// left are a set that can be kept, and there is no dead end.
pub proof fn lemma_nothing_removable(g: Grid, start: Grid)
    requires
        g.wf(),
        g.shrunk_from(start),
        forall|x: int, y: int| !#[trigger] g.removable(start, x, y),
    ensures
        start.stable(g.corridors()),
        g.pruned(),
{
    lemma_shrunk(g, start);
    let kept = g.corridors();
    assert forall|c: Cell| #[trigger] kept.contains(c) implies start.corridor(c.0, c.1) && (
    start.door_neighbor(c.0, c.1) || start.floor_neighbors(c.0, c.1) == 0 || start.kept_neighbors(
        kept,
        c.0,
        c.1,
    ) >= 2) by {
        let (x, y) = (c.0, c.1);
        assert(g.corridor(x, y));
        assert(!g.removable(start, x, y));
        lemma_floor_is_kept(g, start, x, y - 1);
        lemma_floor_is_kept(g, start, x, y + 1);
        lemma_floor_is_kept(g, start, x + 1, y);
        lemma_floor_is_kept(g, start, x - 1, y);
    }
    assert forall|x: int, y: int| !#[trigger] g.dead_end(x, y) by {
        assert(!g.removable(start, x, y));
    }
}

/// A floor cell stays floor if the corridors are kept that are there.
proof fn lemma_floor_is_kept(g: Grid, start: Grid, x: int, y: int)
    requires
        g.shrunk_from(start),
    ensures
        g.floor_at(x, y) <= start.kept_at(g.corridors(), x, y),
{
    lemma_same_rooms(g, start);
    lemma_shrunk_at(g, start, x, y);
    if g.floor_at(x, y) == 1 {
        if !start.in_room(x, y) {
            assert(g.corridor(x, y));
            assert(g.corridors().contains((x, y)));
        }
    }
}

/// Pruning a grid that has no dead end changes nothing.
pub proof fn lemma_pruned_stays(g: Grid, start: Grid)
    requires
        start.pruned(),
        g.pruned_from(start),
    ensures
        forall|x: int, y: int| #[trigger] g.tile(x, y) == start.tile(x, y),
{
    let kept = start.corridors();
    assert forall|c: Cell| #[trigger] kept.contains(c) implies start.corridor(c.0, c.1) && (
    start.door_neighbor(c.0, c.1) || start.floor_neighbors(c.0, c.1) == 0 || start.kept_neighbors(
        kept,
        c.0,
        c.1,
    ) >= 2) by {
        let (x, y) = (c.0, c.1);
        assert(!start.dead_end(x, y));
        assert(start.shrunk_from(start));
        lemma_floor_is_kept(start, start, x, y - 1);
        lemma_floor_is_kept(start, start, x, y + 1);
        lemma_floor_is_kept(start, start, x + 1, y);
        lemma_floor_is_kept(start, start, x - 1, y);
    }
    assert(start.stable(kept));
    assert(g.holds(kept));
    lemma_same_rooms(g, start);
    assert forall|x: int, y: int| #[trigger] g.tile(x, y) == start.tile(x, y) by {
        if g.tile(x, y) != start.tile(x, y) {
            assert(kept.contains((x, y)));
            assert(g.corridor(x, y));
        }
    }
}

impl Dungeon {
    /// The set of all cells of rooms.
    pub fn room_cells(&self) -> (cells: CellMask)
        requires
            self.wf(),
        ensures
            cells.wf(),
            cells.spec_width() == self@.width,
            cells.spec_height() == self@.height,
            forall|a: int, b: int| #[trigger] cells.marked(a, b) == self@.in_room(a, b),
    {
        proof {
            self.lemma_sound();
            lemma_pixels_bound(self@.width, self@.height);
        }
        let mut cells = CellMask::new(self.width(), self.height());
        let rooms = self.rooms();
        let ghost g = self@;
        let mut k: usize = 0;
        while k < rooms.len()
            invariant
                k <= rooms.len(),
                rooms@ == g.rooms,
                g == self@,
                g.wf(),
                cells.wf(),
                cells.spec_width() == g.width,
                cells.spec_height() == g.height,
                forall|a: int, b: int| #[trigger] cells.marked(a, b) == g.in_rooms_before(k as int, a, b),
            decreases rooms.len() - k,
        {
            let room = rooms[k];
            assert(g.admissible(g.rooms[k as int]));
            let mut walk = room.into_iter();
            loop
                invariant
                    k < rooms.len(),
                    rooms@ == g.rooms,
                    room == g.rooms[k as int],
                    g.admissible(room),
                    walk.wf(),
                    walk.rect() == room,
                    cells.wf(),
                    cells.spec_width() == g.width,
                    cells.spec_height() == g.height,
                    forall|a: int, b: int| #[trigger]
                        cells.marked(a, b) == (g.in_rooms_before(k as int, a, b) || (room.covers(a, b)
                            && room.position(a, b) < walk.index())),
                ensures
                    cells.wf(),
                    cells.spec_width() == g.width,
                    cells.spec_height() == g.height,
                    forall|a: int, b: int| #[trigger]
                        cells.marked(a, b) == (g.in_rooms_before(k as int, a, b) || room.covers(a, b)),
                decreases walk.remaining().len(),
            {
                let ghost done = walk.index();
                let ghost marks = cells;
                match walk.next() {
                    Some(v) => {
                        proof {
                            crate::geometry::lemma_cell(room, done);
                        }
                        cells.mark(v);
                        proof {
                            assert forall|a: int, b: int| #[trigger]
                                cells.marked(a, b) == (g.in_rooms_before(k as int, a, b) || (
                                room.covers(a, b) && room.position(a, b) < walk.index())) by {
                                let was = marks.marked(a, b);
                                if room.covers(a, b) {
                                    crate::geometry::lemma_position(room, a, b);
                                }
                            }
                        }
                    },
                    None => {
                        proof {
                            assert(walk.remaining().len() == 0);
                            assert forall|a: int, b: int| room.covers(a, b) implies room.position(
                                a,
                                b,
                            ) < done by {
                                crate::geometry::lemma_position(room, a, b);
                            }
                        }
                        break ;
                    },
                }
            }
            proof {
                assert forall|a: int, b: int| #[trigger]
                    cells.marked(a, b) == g.in_rooms_before(k + 1, a, b) by {
                    if g.in_rooms_before(k + 1, a, b) {
                        let j = choose|j: int|
                            0 <= j < k + 1 && 0 <= j < g.rooms.len() && #[trigger] g.rooms[j].covers(
                                a,
                                b,
                            );
                        if j < k {
                            assert(g.in_rooms_before(k as int, a, b));
                        }
                    }
                    if g.in_rooms_before(k as int, a, b) {
                        let j = choose|j: int|
                            0 <= j < k && 0 <= j < g.rooms.len() && #[trigger] g.rooms[j].covers(a, b);
                        assert(g.rooms[j].covers(a, b));
                    }
                    if room.covers(a, b) {
                        assert(g.rooms[k as int].covers(a, b));
                    }
                }
            }
            k += 1;
        }
        proof {
            assert forall|a: int, b: int| #[trigger] cells.marked(a, b) == g.in_room(a, b) by {
                if g.in_rooms_before(k as int, a, b) {
                    let j = choose|j: int|
                        0 <= j < k && 0 <= j < g.rooms.len() && #[trigger] g.rooms[j].covers(a, b);
                    assert(g.rooms[j].covers(a, b));
                }
                if g.in_room(a, b) {
                    let j = choose|j: int| 0 <= j < g.rooms.len() && #[trigger] g.rooms[j].covers(a, b);
                    assert(g.rooms[j].covers(a, b));
                    assert(g.in_rooms_before(k as int, a, b));
                }
            }
        }
        cells
    }

    /// The number of floor cells among the four neighbors of `v`.
    pub fn count_floor_neighbors(&self, v: Vec2D) -> (count: i32)
        requires
            self.sound(),
            self@.inside(v.0 as int, v.1 as int),
            !self@.on_border(v.0 as int, v.1 as int),
        ensures
            count == self@.floor_neighbors(v.0 as int, v.1 as int),
    {
        proof {
            self.lemma_sound();
            lemma_pixels_bound(self@.width, self@.height);
        }
        let all = Direction::iterator();
        let ghost g = self@;
        let ghost (x, y) = (v.0 as int, v.1 as int);
        let mut count: i32 = 0;
        let mut k: usize = 0;
        while k < 4
            invariant
                k <= 4,
                self.sound(),
                g == self@,
                x == v.0,
                y == v.1,
                g.inside(x, y),
                !g.on_border(x, y),
                g.width <= 0x4000_0000,
                g.height <= 0x4000_0000,
                all@ == Direction::all(),
                k == 0 ==> count == 0,
                k == 1 ==> count == g.floor_at(x, y - 1),
                k == 2 ==> count == g.floor_at(x, y - 1) + g.floor_at(x, y + 1),
                k == 3 ==> count == g.floor_at(x, y - 1) + g.floor_at(x, y + 1) + g.floor_at(x + 1, y),
                k == 4 ==> count == g.floor_neighbors(x, y),
            decreases 4 - k,
        {
            let d = all[k];
            if self.get_tile(ahead(v, d, 1)) == Tile::Floor {
                count += 1;
            }
            k += 1;
        }
        count
    }

    /// Whether one of the four neighbors of `v` is a door.
    pub fn has_door_neighbor(&self, v: Vec2D) -> (found: bool)
        requires
            self.sound(),
            self@.inside(v.0 as int, v.1 as int),
            !self@.on_border(v.0 as int, v.1 as int),
        ensures
            found == self@.door_neighbor(v.0 as int, v.1 as int),
    {
        proof {
            self.lemma_sound();
            lemma_pixels_bound(self@.width, self@.height);
        }
        let all = Direction::iterator();
        let ghost g = self@;
        let ghost (x, y) = (v.0 as int, v.1 as int);
        let mut k: usize = 0;
        while k < 4
            invariant
                k <= 4,
                self.sound(),
                g == self@,
                x == v.0,
                y == v.1,
                g.inside(x, y),
                !g.on_border(x, y),
                g.width <= 0x4000_0000,
                g.height <= 0x4000_0000,
                all@ == Direction::all(),
                k >= 1 ==> g.tile(x, y - 1) != Tile::Door,
                k >= 2 ==> g.tile(x, y + 1) != Tile::Door,
                k >= 3 ==> g.tile(x + 1, y) != Tile::Door,
                k >= 4 ==> g.tile(x - 1, y) != Tile::Door,
            decreases 4 - k,
        {
            let d = all[k];
            if self.get_tile(ahead(v, d, 1)) == Tile::Door {
                return true;
            }
            k += 1;
        }
        false
    }

    /// The first direction, in the order of their enumeration, in which the
    /// neighbor of `v` is floor.
    pub fn floor_direction(&self, v: Vec2D) -> (found: Option<Direction>)
        requires
            self.sound(),
            self@.inside(v.0 as int, v.1 as int),
            !self@.on_border(v.0 as int, v.1 as int),
        ensures
            found matches Some(d) ==> self@.tile(v.0 + d.dx(), v.1 + d.dy()) == Tile::Floor && forall|
                k: int,
            |
                0 <= k < 4 && Direction::all()[k] == d ==> forall|j: int|
                    0 <= j < k ==> self@.tile(
                        v.0 + (#[trigger] Direction::all()[j]).dx(),
                        v.1 + Direction::all()[j].dy(),
                    ) != Tile::Floor,
            found is None ==> self@.floor_neighbors(v.0 as int, v.1 as int) == 0,
    {
        proof {
            self.lemma_sound();
            lemma_pixels_bound(self@.width, self@.height);
        }
        let all = Direction::iterator();
        let ghost g = self@;
        let ghost (x, y) = (v.0 as int, v.1 as int);
        let mut k: usize = 0;
        while k < 4
            invariant
                k <= 4,
                self.sound(),
                g == self@,
                x == v.0,
                y == v.1,
                g.inside(x, y),
                !g.on_border(x, y),
                g.width <= 0x4000_0000,
                g.height <= 0x4000_0000,
                all@ == Direction::all(),
                forall|j: int|
                    0 <= j < k ==> g.tile(
                        x + (#[trigger] Direction::all()[j]).dx(),
                        y + Direction::all()[j].dy(),
                    ) != Tile::Floor,
            decreases 4 - k,
        {
            let d = all[k];
            if self.get_tile(ahead(v, d, 1)) == Tile::Floor {
                return Some(d);
            }
            k += 1;
        }
        proof {
            assert(g.tile(x + Direction::all()[0].dx(), y + Direction::all()[0].dy()) != Tile::Floor);
            assert(g.tile(x + Direction::all()[1].dx(), y + Direction::all()[1].dy()) != Tile::Floor);
            assert(g.tile(x + Direction::all()[2].dx(), y + Direction::all()[2].dy()) != Tile::Floor);
            assert(g.tile(x + Direction::all()[3].dx(), y + Direction::all()[3].dy()) != Tile::Floor);
        }
        None
    }

    /// The cells at which the pruner starts: the corridor cells with exactly
    /// one floor cell among their neighbors, row by row.
    pub fn dead_ends(&self, room_cells: &CellMask) -> (work: Vec<Vec2D>)
        requires
            self.wf(),
            room_cells.wf(),
            room_cells.spec_width() == self@.width,
            room_cells.spec_height() == self@.height,
            forall|a: int, b: int| #[trigger] room_cells.marked(a, b) == self@.in_room(a, b),
        ensures
            self@.listing(self@, work@),
            forall|x: int, y: int|
                self@.corridor(x, y) && self@.floor_neighbors(x, y) == 1 ==> listed(work@, x, y),
    {
        proof {
            self.lemma_sound();
            lemma_pixels_bound(self@.width, self@.height);
        }
        let ghost g = self@;
        let width = self.width();
        let height = self.height();
        let mut work: Vec<Vec2D> = Vec::new();
        let mut y: i32 = 0;
        while y < height
            invariant
                0 <= y <= height,
                width == g.width,
                height == g.height,
                g == self@,
                self.wf(),
                room_cells.wf(),
                room_cells.spec_width() == g.width,
                room_cells.spec_height() == g.height,
                forall|a: int, b: int| #[trigger] room_cells.marked(a, b) == g.in_room(a, b),
                g.listing(g, work@),
                forall|i: int| 0 <= i < work@.len() ==> (#[trigger] work@[i]).1 < y,
                forall|a: int, b: int|
                    g.corridor(a, b) && g.floor_neighbors(a, b) == 1 && b < y ==> listed(work@, a, b),
            decreases height - y,
        {
            let mut x: i32 = 0;
            while x < width
                invariant
                    0 <= y < height,
                    0 <= x <= width,
                    width == g.width,
                    height == g.height,
                    g == self@,
                    self.wf(),
                    room_cells.wf(),
                    room_cells.spec_width() == g.width,
                    room_cells.spec_height() == g.height,
                    forall|a: int, b: int| #[trigger] room_cells.marked(a, b) == g.in_room(a, b),
                    g.listing(g, work@),
                    forall|i: int|
                        0 <= i < work@.len() ==> (#[trigger] work@[i]).1 < y || (work@[i].1 == y
                            && work@[i].0 < x),
                    forall|a: int, b: int|
                        g.corridor(a, b) && g.floor_neighbors(a, b) == 1 && (b < y || (b == y && a
                            < x)) ==> listed(work@, a, b),
                decreases width - x,
            {
                let v = Vec2D(x, y);
                let ghost before = work@;
                if self.get_tile(v) == Tile::Floor && !room_cells.is_marked(v) {
                    assert(!g.on_border(x as int, y as int));
                    if self.count_floor_neighbors(v) == 1 {
                        work.push(v);
                    }
                }
                proof {
                    assert forall|i: int| 0 <= i < work@.len() implies {
                        let c = #[trigger] work@[i];
                        &&& g.corridor(c.0 as int, c.1 as int)
                        &&& g.floor_neighbors(c.0 as int, c.1 as int) <= 1
                        &&& g.floor_neighbors(c.0 as int, c.1 as int) >= 1
                        &&& (c.1 < y || (c.1 == y && c.0 < x + 1))
                    } by {
                        if i < before.len() {
                            assert(work@[i] == before[i]);
                        }
                    }
                    assert forall|i: int, j: int| 0 <= i < j < work@.len() implies #[trigger] work@[i]
                        != #[trigger] work@[j] by {
                        if j < before.len() {
                            assert(work@[i] == before[i] && work@[j] == before[j]);
                        } else {
                            assert(work@[i] == before[i]);
                        }
                    }
                    assert forall|a: int, b: int|
                        g.corridor(a, b) && g.floor_neighbors(a, b) == 1 && (b < y || (b == y && a
                            < x + 1)) implies listed(work@, a, b) by {
                        if a == x && b == y {
                            assert(work@[before.len() as int] == v);
                        } else {
                            assert(listed(before, a, b));
                            let k = choose|k: int|
                                0 <= k < before.len() && (#[trigger] before[k]).0 == a && before[k].1
                                    == b;
                            assert(work@[k] == before[k]);
                        }
                    }
                }
                x += 1;
            }
            y += 1;
        }
        proof {
            assert forall|a: int, b: int|
                g.corridor(a, b) && g.floor_neighbors(a, b) == 1 implies listed(work@, a, b) by {
                assert(g.inside(a, b));
            }
        }
        work
    }

    /// The dead-end pruner. It starts with the corridor cells that have
    /// exactly one floor cell among their neighbors. It takes one cell at a
    /// time, the one it listed last, and passes over it if a door is beside
    /// it. Otherwise the cell becomes wall, and the floor cell beside it, if
    /// it is left with exactly one floor cell beside itself, is listed in its
    /// turn. An animated dungeon marks a frame after each cell that is
    /// removed.
    ///
    /// What is left does not depend on the order in which the cells are
    /// taken: the corridors that are left are the largest set of corridor
    /// cells in which every cell has a door beside it, or was without a floor
    /// cell beside it all along, or keeps two floor cells beside it.
    pub fn remove_dead_ends(&mut self)
        requires
            old(self).wf(),
        ensures
            final(self).wf(),
            final(self).same_settings(old(self)),
            final(self).journal_extends(old(self)),
            final(self)@.pruned_from(old(self)@),
            final(self)@.pruned(),
            old(self)@.pruned() ==> forall|x: int, y: int| #[trigger]
                final(self)@.tile(x, y) == old(self)@.tile(x, y),
            final(self).frames_since(old(self)) == if old(self).animated() {
                old(self)@.floors() - final(self)@.floors()
            } else {
                0int
            },
            final(self).colors_kept(old(self)),
            old(self).plain() ==> final(self).plain(),
    {
        let room_cells = self.room_cells();
        let mut dead_ends = self.dead_ends(&room_cells);
        let ghost g0 = self@;
        proof {
            assert(g0.shrunk_from(g0));
            assert forall|x: int, y: int| #[trigger] g0.removable(g0, x, y) implies listed(
                dead_ends@,
                x,
                y,
            ) by {}
            assert forall|kept: Set<Cell>| #[trigger] g0.stable(kept) implies g0.holds(kept) by {}
        }
        while dead_ends.len() > 0
            invariant
                self.sound(),
                g0 == old(self)@,
                self@.pruning(g0, dead_ends@),
                self.same_settings(old(self)),
                self.journal_extends(old(self)),
                self.frames_since(old(self)) == if old(self).animated() {
                    g0.floors() - self@.floors()
                } else {
                    0int
                },
                self.colors_kept(old(self)),
            decreases self@.floors(), dead_ends@.len(),
        {
            let ghost work = dead_ends@;
            let ghost g = self@;
            let ghost earlier = *self;
            let cell = dead_ends[dead_ends.len() - 1];
            let _ = dead_ends.pop();
            proof {
                self.lemma_sound();
                lemma_pixels_bound(g.width, g.height);
                assert(work[work.len() - 1] == cell);
                assert(g.corridor(cell.0 as int, cell.1 as int));
                assert(g.inside(cell.0 as int, cell.1 as int));
                assert(!g.on_border(cell.0 as int, cell.1 as int));
            }
            // If we have a door as a neighbor, just skip filling this in
            if self.has_door_neighbor(cell) {
                proof {
                    lemma_pass(g, g0, work);
                }
            } else {
                proof {
                    lemma_offset(g.width, g.height, cell.0 as int, cell.1 as int);
                    lemma_count_update(
                        g.tiles,
                        offset(g.width, cell.0 as int, cell.1 as int),
                        Tile::Wall,
                        Tile::Floor,
                    );
                }
                self.fill_cell(cell);
                self.snapshot();
                let ghost h = self@;
                let ghost mut next: Option<Vec2D> = None;
                proof {
                    self.lemma_sound();
                    lemma_filled(g, h, cell.0 as int, cell.1 as int);
                    assert forall|x: int, y: int|
                        h.inside(x, y) && h.tile(x, y) == old(self)@.tile(x, y) implies #[trigger] self.color_at(
                        x,
                        y,
                    ) == old(self).color_at(x, y) by {
                        let was = earlier.color_at(x, y);
                        let tile_was = g.tile(x, y);
                        lemma_shrunk_at(g, g0, x, y);
                    }
                }
                match self.floor_direction(cell) {
                    Some(d) => {
                        let next_cell = ahead(cell, d, 1);
                        proof {
                            assert(g.tile(next_cell.0 as int, next_cell.1 as int) == Tile::Floor);
                            assert(g.inside(next_cell.0 as int, next_cell.1 as int));
                            assert(!g.on_border(next_cell.0 as int, next_cell.1 as int));
                        }
                        // If we're still in a single, long corridor keep removing
                        if self.count_floor_neighbors(next_cell) == 1 {
                            dead_ends.push(next_cell);
                            proof {
                                next = Some(next_cell);
                            }
                        } else {
                            proof {
                                assert forall|a: int, b: int|
                                    crate::forest::adjacent(
                                        (a, b),
                                        (cell.0 as int, cell.1 as int),
                                    ) && g.tile(a, b) == Tile::Floor implies #[trigger] h.floor_neighbors(
                                    a,
                                    b,
                                ) != 1 by {
                                    lemma_one_floor_neighbor(
                                        g,
                                        cell.0 as int,
                                        cell.1 as int,
                                        a,
                                        b,
                                        Some(next_cell),
                                    );
                                }
                            }
                        }
                    },
                    None => {
                        proof {
                            assert forall|a: int, b: int|
                                crate::forest::adjacent((a, b), (cell.0 as int, cell.1 as int))
                                    && g.tile(a, b) == Tile::Floor implies #[trigger] h.floor_neighbors(
                                a,
                                b,
                            ) != 1 by {
                                assert(h.floor_neighbors(cell.0 as int, cell.1 as int) == 0);
                                let t = h.tile(a, b);
                            }
                        }
                    },
                }
                proof {
                    lemma_fill(g, h, g0, work, next);
                }
            }
        }
        proof {
            let g = self@;
            assert forall|x: int, y: int| !#[trigger] g.removable(g0, x, y) by {
                if g.removable(g0, x, y) {
                    assert(listed(dead_ends@, x, y));
                }
            }
            lemma_nothing_removable(g, g0);
            if g0.pruned() {
                lemma_pruned_stays(g, g0);
            }
            if old(self).plain() {
                self.lemma_sound();
                assert forall|x: int, y: int| g.inside(x, y) implies #[trigger] self.color_at(x, y)
                    == match g.tile(x, y) {
                    Tile::Wall => crate::picture::DARK_COLOR,
                    Tile::Floor => crate::picture::LIGHT_COLOR,
                    Tile::Door => crate::picture::DOOR_COLOR,
                } by {
                    let was = old(self).color_at(x, y);
                    lemma_shrunk_at(g, g0, x, y);
                    let now = g.tile(x, y);
                }
            }
        }
    }
}

} // verus!
