//! The connector selector: it finds, for each room, the wall cells through
//! which the room can be joined to a floor cell beyond, opens one of them as
//! the door of the room, and now and then another.

use rand::rngs::StdRng;
use vstd::prelude::*;
use crate::dungeon::{lemma_same_rooms, Dungeon, DungeonError, Grid, Tile};
use crate::picture::{lemma_pixels_bound, LIGHT_COLOR};
use crate::geometry::{lemma_cell, Direction, Rect, Vec2D};
use crate::mask::CellMask;
use crate::maze::{ahead, lemma_wall_is_outside_rooms};
use crate::random::{random_choice, random_ratio};

verus! {

/// Out of how many connectors that are not the door of their room one more
/// is opened.
pub const BRAID_ODDS: u32 = 50;

/// The side of `room` on which the cell `(i, j)` lies, if it lies on the edge
/// of the room and not in a corner of it: the direction that points out of
/// the room there.
pub open spec fn edge_side(room: Rect, i: int, j: int) -> Option<Direction> {
    let Rect(x, y, w, h) = room;
    if x < i && i < x + w - 1 && j == y {
        Some(Direction::N)
    } else if x < i && i < x + w - 1 && j == y + h - 1 {
        Some(Direction::S)
    } else if i == x && y < j && j < y + h - 1 {
        Some(Direction::W)
    } else if i == x + w - 1 && y < j && j < y + h - 1 {
        Some(Direction::E)
    } else {
        None
    }
}

/// The cell `v` together with the direction that points out of `room`
/// there, if `v` lies on the edge of the room and not in a corner of it.
pub fn is_edge_and_not_corner(room: &Rect, v: &Vec2D) -> (side: Option<(Vec2D, Direction)>)
    requires
        room.wf(),
    ensures
        side == match edge_side(*room, v.0 as int, v.1 as int) {
            Some(d) => Some((*v, d)),
            None => None::<(Vec2D, Direction)>,
        },
{
    let Rect(x, y, w, h) = *room;
    let Vec2D(i, j) = *v;
    if x < i && i < x + w - 1 && j == y {
        Some((*v, Direction::N))
    } else if x < i && i < x + w - 1 && j == y + h - 1 {
        Some((*v, Direction::S))
    } else if i == x && y < j && j < y + h - 1 {
        Some((*v, Direction::W))
    } else if i == x + w - 1 && y < j && j < y + h - 1 {
        Some((*v, Direction::E))
    } else {
        None
    }
}

/// Whether `(x, y)` is one of the cells of the list.
pub open spec fn listed(cells: Seq<Vec2D>, x: int, y: int) -> bool {
    exists|k: int| 0 <= k < cells.len() && (#[trigger] cells[k]).0 == x && cells[k].1 == y
}

impl Rect {
    /// Whether `(a, b)` lies outside the rectangle and shares a side with a
    /// cell of it.
    pub open spec fn beside(self, a: int, b: int) -> bool {
        !self.covers(a, b) && (self.covers(a, b - 1) || self.covers(a, b + 1) || self.covers(
            a + 1,
            b,
        ) || self.covers(a - 1, b))
    }
}

impl Grid {
    /// The connector of `room` at its cell `(i, j)`, if there is one: the
    /// wall cell one step out of the room, where `(i, j)` lies on the edge
    /// of the room and not in a corner, the cell two steps out is floor, and
    /// the cell three steps out is on the grid.
    pub open spec fn connector_at(self, room: Rect, i: int, j: int) -> Option<Vec2D> {
        match edge_side(room, i, j) {
            Some(d) => if self.inside(i + 3 * d.dx(), j + 3 * d.dy()) && self.tile(
                i + 2 * d.dx(),
                j + 2 * d.dy(),
            ) == Tile::Floor && self.tile(i + d.dx(), j + d.dy()) == Tile::Wall {
                Some(Vec2D((i + d.dx()) as i32, (j + d.dy()) as i32))
            } else {
                None
            },
            None => None,
        }
    }

    /// Whether `(a, b)` is the connector of `room` at its `k`-th cell.
    pub open spec fn connects(self, room: Rect, k: int, a: int, b: int) -> bool {
        match self.connector_at(room, room.cell(k).0 as int, room.cell(k).1 as int) {
            Some(c) => c.0 == a && c.1 == b,
            None => false,
        }
    }

    /// The connectors of `room` at its first `n` cells, in the order of the
    /// cells.
    pub open spec fn connectors_among(self, room: Rect, n: int) -> Seq<Vec2D>
        decreases n,
    {
        if n <= 0 {
            Seq::empty()
        } else {
            let v = room.cell(n - 1);
            self.connectors_among(room, n - 1) + match self.connector_at(
                room,
                v.0 as int,
                v.1 as int,
            ) {
                Some(c) => seq![c],
                None => Seq::empty(),
            }
        }
    }

    /// The connectors of `room`, in the row-major order of the cells of the
    /// room at which they lie.
    pub open spec fn connectors(self, room: Rect) -> Seq<Vec2D> {
        self.connectors_among(room, room.area())
    }

    /// Whether `(a, b)` is a connector of the `k`-th room that is a connector
    /// of no room before it.
    pub open spec fn free_connector(self, k: int, a: int, b: int) -> bool {
        &&& 0 <= k < self.rooms.len()
        &&& listed(self.connectors(self.rooms[k]), a, b)
        &&& forall|j: int| 0 <= j < k ==> !listed(self.connectors(#[trigger] self.rooms[j]), a, b)
    }

    /// Whether `(a, b)` is a connector of one of the first `n` rooms.
    pub open spec fn claimed(self, n: int, a: int, b: int) -> bool {
        exists|j: int| 0 <= j < n && 0 <= j < self.rooms.len() && listed(
            self.connectors(#[trigger] self.rooms[j]),
            a,
            b,
        )
    }

    /// The `k`-th room is starved: each of its connectors is a connector of a
    /// room before it, or it has none.
    pub open spec fn starved(self, k: int) -> bool {
        forall|a: int, b: int|
            listed(self.connectors(self.rooms[k]), a, b) ==> #[trigger] self.claimed(k, a, b)
    }

    /// The `k`-th room is the first one that is starved.
    pub open spec fn first_starved(self, k: int) -> bool {
        &&& 0 <= k < self.rooms.len()
        &&& self.starved(k)
        &&& forall|j: int| 0 <= j < k ==> !#[trigger] self.starved(j)
    }

    /// The `k`-th room has a door: a cell outside the room that shares a side
    /// with a cell of it is a door.
    pub open spec fn has_door(self, k: int) -> bool {
        exists|a: int, b: int| #[trigger] self.rooms[k].beside(a, b) && self.tile(a, b) == Tile::Door
    }

    /// Whether a connector of the `k`-th room of `before` that no room before
    /// it had is a door of `self`.
    pub open spec fn door_opened(self, before: Grid, k: int) -> bool {
        exists|a: int, b: int| #[trigger]
            before.free_connector(k, a, b) && self.tile(a, b) == Tile::Door
    }

    /// Whether `self` came from `before` by opening doors in connectors.
    pub open spec fn doored_from(self, before: Grid) -> bool {
        &&& self.width == before.width
        &&& self.height == before.height
        &&& self.rooms == before.rooms
        &&& forall|a: int, b: int| #[trigger]
            self.tile(a, b) == before.tile(a, b) || (self.tile(a, b) == Tile::Door
                && before.claimed(before.rooms.len() as int, a, b))
    }
}

/// What is listed among the connectors at the first `n` cells of a room: the
/// connectors at those cells, and nothing else.
pub proof fn lemma_connectors_among(g: Grid, room: Rect, n: int, a: int, b: int)
    requires
        room.wf(),
        0 <= n <= room.area(),
    ensures
        listed(g.connectors_among(room, n), a, b) <==> exists|k: int|
            0 <= k < n && #[trigger] g.connects(room, k, a, b),
    decreases n,
{
    if n > 0 {
        lemma_connectors_among(g, room, n - 1, a, b);
        let rest = g.connectors_among(room, n - 1);
        let all = g.connectors_among(room, n);
        let v = room.cell(n - 1);
        let last = g.connector_at(room, v.0 as int, v.1 as int);
        if listed(all, a, b) {
            let i = choose|i: int| 0 <= i < all.len() && (#[trigger] all[i]).0 == a && all[i].1 == b;
            if i < rest.len() {
                assert(rest[i].0 == a && rest[i].1 == b);
                assert(listed(rest, a, b));
                let k = choose|k: int| 0 <= k < n - 1 && #[trigger] g.connects(room, k, a, b);
                assert(g.connects(room, k, a, b));
            } else {
                assert(last == Some(all[i]));
                assert(g.connects(room, n - 1, a, b));
            }
        }
        if exists|k: int| 0 <= k < n && #[trigger] g.connects(room, k, a, b) {
            let k = choose|k: int| 0 <= k < n && #[trigger] g.connects(room, k, a, b);
            if k < n - 1 {
                assert(g.connects(room, k, a, b));
                assert(listed(rest, a, b));
                let i = choose|i: int|
                    0 <= i < rest.len() && (#[trigger] rest[i]).0 == a && rest[i].1 == b;
                assert(all[i] == rest[i]);
            } else {
                assert(all[rest.len() as int] == last.unwrap());
            }
        }
    } else {
        assert(g.connectors_among(room, n).len() == 0);
    }
}

/// A connector of an admissible room of a well-formed grid is a wall cell
/// off the border of the grid, outside every room, that shares a side with a
/// cell of its room.
pub proof fn lemma_connector_is_beside(g: Grid, room: Rect, a: int, b: int)
    requires
        g.wf(),
        g.admissible(room),
        listed(g.connectors(room), a, b),
    ensures
        g.inside(a, b),
        !g.on_border(a, b),
        g.tile(a, b) == Tile::Wall,
        !g.in_room(a, b),
        room.beside(a, b),
{
    assert(room.area() >= 0) by (nonlinear_arith)
        requires
            room.area() == room.2 * room.3,
            room.2 > 0,
            room.3 > 0,
    ;
    lemma_connectors_among(g, room, room.area(), a, b);
    let k = choose|k: int| 0 <= k < room.area() && #[trigger] g.connects(room, k, a, b);
    lemma_cell(room, k);
    let v = room.cell(k);
    assert(room.covers(v.0 as int, v.1 as int));
    lemma_wall_is_outside_rooms(g, a, b);
}

impl Dungeon {
    /// The connector of `room` at its cell `v`, if there is one.
    pub fn connector_at(&self, room: &Rect, v: &Vec2D) -> (spot: Option<Vec2D>)
        requires
            self.wf(),
            self@.admissible(*room),
            room.spec_contains(*v),
        ensures
            spot == self@.connector_at(*room, v.0 as int, v.1 as int),
    {
        proof {
            self.lemma_sound();
            lemma_pixels_bound(self@.width, self@.height);
        }
        match is_edge_and_not_corner(room, v) {
            Some((v, d)) => {
                if self.in_bounds(ahead(v, d, 3)) && self.get_tile(ahead(v, d, 2)) == Tile::Floor
                    && self.get_tile(ahead(v, d, 1)) == Tile::Wall {
                    Some(ahead(v, d, 1))
                } else {
                    None
                }
            },
            None => None,
        }
    }

    /// The connectors of `room`, in the row-major order of the cells of the
    /// room at which they lie.
    pub fn connectors_of(&self, room: &Rect) -> (spots: Vec<Vec2D>)
        requires
            self.wf(),
            self@.admissible(*room),
        ensures
            spots@ == self@.connectors(*room),
    {
        let mut spots: Vec<Vec2D> = Vec::new();
        let mut walk = room.into_iter();
        loop
            invariant
                self.wf(),
                self@.admissible(*room),
                walk.wf(),
                walk.rect() == *room,
                spots@ == self@.connectors_among(*room, walk.index()),
            ensures
                spots@ == self@.connectors(*room),
            decreases walk.remaining().len(),
        {
            let ghost done = walk.index();
            match walk.next() {
                Some(v) => {
                    proof {
                        lemma_cell(*room, done);
                        assert(v == room.cell(done));
                    }
                    match self.connector_at(room, &v) {
                        Some(c) => {
                            spots.push(c);
                            assert(spots@ =~= self@.connectors_among(*room, done + 1));
                        },
                        None => {
                            assert(spots@ =~= self@.connectors_among(*room, done + 1));
                        },
                    }
                },
                None => {
                    break ;
                },
            }
        }
        spots
    }

    /// The connector selector. It first finds the connectors of every room.
    /// Then it takes the rooms in their order and joins each one through the
    /// connectors that no room before it has claimed. It stops at the first
    /// room that has none left: that room cannot be reached. An animated
    /// dungeon marks a frame after each room.
    pub fn find_connectors(&mut self, rng: &mut StdRng) -> (done: Result<(), DungeonError>)
        requires
            old(self).wf(),
        ensures
            final(self).wf(),
            done is Ok ==> final(self).plain(),
            final(self).same_settings(old(self)),
            final(self).journal_extends(old(self)),
            final(self)@.doored_from(old(self)@),
            done matches Err(e) ==> e == DungeonError::UnreachableRoom,
            done is Err <==> exists|k: int|
                0 <= k < old(self)@.rooms.len() && #[trigger] old(self)@.starved(k),
            done is Ok ==> forall|k: int|
                0 <= k < old(self)@.rooms.len() ==> #[trigger] final(self)@.door_opened(
                    old(self)@,
                    k,
                ),
            done is Ok ==> forall|k: int|
                0 <= k < old(self)@.rooms.len() ==> #[trigger] final(self)@.has_door(k),
            done is Ok ==> final(self).frames_since(old(self)) == if old(self).animated() {
                old(self)@.rooms.len() as int
            } else {
                0int
            },
            done is Err ==> exists|k: int| #[trigger]
                old(self)@.first_starved(k) && final(self).frames_since(old(self)) == if old(
                    self,
                ).animated() {
                    k
                } else {
                    0int
                },
    {
        let ghost g0 = self@;
        proof {
            self.lemma_sound();
            lemma_pixels_bound(g0.width, g0.height);
        }
        let count = self.rooms().len();
        let mut connectors: Vec<Vec<Vec2D>> = Vec::new();
        let mut n: usize = 0;
        while n < count
            invariant
                n <= count,
                count == g0.rooms.len(),
                self.wf(),
                self@ == g0,
                connectors@.len() == n,
                forall|j: int|
                    0 <= j < n ==> (#[trigger] connectors@[j])@ == g0.connectors(g0.rooms[j]),
            decreases count - n,
        {
            let room = self.rooms()[n];
            assert(g0.admissible(g0.rooms[n as int]));
            let spots = self.connectors_of(&room);
            connectors.push(spots);
            n += 1;
        }

        let mut claimed = CellMask::new(self.width(), self.height());
        let ghost mut doors: Seq<(int, int)> = Seq::empty();
        let mut k: usize = 0;
        while k < count
            invariant
                k <= count,
                count == g0.rooms.len(),
                g0 == old(self)@,
                g0.wf(),
                self.wf(),
                self.same_settings(old(self)),
                self.journal_extends(old(self)),
                self.frames_since(old(self)) == if old(self).animated() {
                    k as int
                } else {
                    0int
                },
                self.tinted(k as int),
                self@.rooms == g0.rooms,
                claimed.wf(),
                claimed.spec_width() == g0.width,
                claimed.spec_height() == g0.height,
                connectors@.len() == count,
                forall|j: int|
                    0 <= j < count ==> (#[trigger] connectors@[j])@ == g0.connectors(g0.rooms[j]),
                forall|a: int, b: int| #[trigger] claimed.marked(a, b) == g0.claimed(k as int, a, b),
                forall|a: int, b: int| #[trigger]
                    self@.tile(a, b) == g0.tile(a, b) || (self@.tile(a, b) == Tile::Door
                        && g0.claimed(k as int, a, b)),
                forall|j: int| 0 <= j < k ==> !#[trigger] g0.starved(j),
                doors.len() == k,
                forall|j: int|
                    0 <= j < k ==> g0.free_connector(j, (#[trigger] doors[j]).0, doors[j].1)
                        && self@.tile(doors[j].0, doors[j].1) == Tile::Door,
            decreases count - k,
        {
            let room = self.rooms()[k];
            let ghost before = self@;
            let ghost earlier = *self;
            let ghost marks = claimed;
            proof {
                let spots = connectors@[k as int]@;
                assert(g0.admissible(room));
                lemma_same_rooms(before, g0);
                assert forall|i: int| 0 <= i < spots.len() implies {
                    let c = #[trigger] spots[i];
                    &&& before.inside(c.0 as int, c.1 as int)
                    &&& !before.on_border(c.0 as int, c.1 as int)
                    &&& !before.in_room(c.0 as int, c.1 as int)
                } by {
                    let c = spots[i];
                    assert(listed(spots, c.0 as int, c.1 as int));
                    lemma_connector_is_beside(g0, room, c.0 as int, c.1 as int);
                }
                assert forall|a: int, b: int| room.covers(a, b) implies #[trigger] before.in_room(
                    a,
                    b,
                ) by {
                    assert(before.rooms[k as int].covers(a, b));
                }
                assert(room.covers(room.0 as int, room.1 as int));
            }
            match self.connect_room(&room, &connectors[k], &mut claimed, rng) {
                Ok(door) => {
                    proof {
                        let g = self@;
                        let (da, db) = (door.0 as int, door.1 as int);
                        lemma_free(g0, k as int, da, db);
                        lemma_same_rooms(g, before);
                        assert forall|x: int, y: int|
                            g.inside(x, y) && g.tile(x, y) == Tile::Floor && (!g.in_room(x, y)
                                || g.in_rooms_before(k + 1, x, y)) implies #[trigger] self.color_at(
                            x,
                            y,
                        ) == LIGHT_COLOR by {
                            let was = earlier.color_at(x, y);
                            let tile_was = before.tile(x, y);
                            if !room.covers(x, y) && g.in_rooms_before(k + 1, x, y) {
                                let j = choose|j: int|
                                    0 <= j < k + 1 && 0 <= j < g.rooms.len() && #[trigger] g.rooms[j].covers(
                                        x,
                                        y,
                                    );
                                assert(before.rooms[j].covers(x, y));
                                assert(before.in_rooms_before(k as int, x, y));
                            }
                        }
                        assert(!g0.starved(k as int)) by {
                            if g0.starved(k as int) {
                                assert(g0.claimed(k as int, da, db));
                            }
                        }
                        assert forall|a: int, b: int| #[trigger]
                            claimed.marked(a, b) == g0.claimed(k + 1, a, b) by {
                            lemma_claimed_step(g0, k as int, a, b);
                            let was = marks.marked(a, b);
                        }
                        assert forall|a: int, b: int| #[trigger]
                            g.tile(a, b) == g0.tile(a, b) || (g.tile(a, b) == Tile::Door
                                && g0.claimed(k + 1, a, b)) by {
                            lemma_claimed_step(g0, k as int, a, b);
                            let was = before.tile(a, b);
                        }
                        let ghost doors_before = doors;
                        doors = doors.push((da, db));
                        assert forall|j: int| 0 <= j < k + 1 implies g0.free_connector(
                            j,
                            (#[trigger] doors[j]).0,
                            doors[j].1,
                        ) && g.tile(doors[j].0, doors[j].1) == Tile::Door by {
                            if j < k {
                                assert(doors[j] == doors_before[j]);
                                let was = before.tile(doors[j].0, doors[j].1);
                                let now = g.tile(doors[j].0, doors[j].1);
                            }
                        }
                    }
                },
                Err(e) => {
                    proof {
                        assert(g0.starved(k as int)) by {
                            assert forall|a: int, b: int|
                                listed(
                                    g0.connectors(g0.rooms[k as int]),
                                    a,
                                    b,
                                ) implies #[trigger] g0.claimed(k as int, a, b) by {
                                let was = marks.marked(a, b);
                            }
                        }
                        assert(g0.first_starved(k as int));
                        assert forall|a: int, b: int| #[trigger]
                            self@.tile(a, b) == g0.tile(a, b) || (self@.tile(a, b) == Tile::Door
                                && g0.claimed(g0.rooms.len() as int, a, b)) by {
                            if g0.claimed(k as int, a, b) {
                                lemma_claimed_grows(g0, k as int, g0.rooms.len() as int, a, b);
                            }
                        }
                    }
                    return Err(e);
                },
            }
            k += 1;
        }
        proof {
            let g = self@;
            assert forall|j: int| 0 <= j < g0.rooms.len() implies #[trigger] g.door_opened(
                g0,
                j,
            ) by {
                assert(g0.free_connector(j, doors[j].0, doors[j].1));
            }
            assert forall|j: int| 0 <= j < g0.rooms.len() implies #[trigger] g.has_door(j) by {
                lemma_opened_door_is_beside(g0, g, j);
            }
            self.lemma_tinted_is_plain();
        }
        Ok(())
    }

    /// Where all floor shows the color of corridors, that of every room
    /// included, every cell shows the one color of what it is.
    pub proof fn lemma_tinted_is_plain(&self)
        requires
            self.sound(),
            self.tinted(self@.rooms.len() as int),
        ensures
            self.plain(),
    {
        self.lemma_sound();
        assert forall|x: int, y: int| self@.inside(x, y) implies #[trigger] self.color_at(x, y)
            == match self@.tile(x, y) {
            Tile::Wall => crate::picture::DARK_COLOR,
            Tile::Floor => LIGHT_COLOR,
            Tile::Door => crate::picture::DOOR_COLOR,
        } by {
            let here = self@.tile(x, y);
            if self@.in_room(x, y) {
                let k = choose|k: int|
                    0 <= k < self@.rooms.len() && #[trigger] self@.rooms[k].covers(x, y);
                assert(self@.in_rooms_before(self@.rooms.len() as int, x, y));
            }
        }
    }

    /// Opens the doors of one room. Of the free connectors `free` of the
    /// room, `door` becomes the door of the room, and each other one becomes
    /// a door as well if `extra` says so at its place in the list. All of them
    /// are claimed. The room itself is made floor again, in the color of
    /// corridors. An animated dungeon marks a frame.
    pub fn open_doors(
        &mut self,
        room: &Rect,
        free: &Vec<Vec2D>,
        door: Vec2D,
        extra: &Vec<bool>,
        claimed: &mut CellMask,
    )
        requires
            old(self).wf(),
            old(self)@.admissible(*room),
            forall|a: int, b: int| room.covers(a, b) ==> #[trigger] old(self)@.in_room(a, b),
            old(claimed).wf(),
            old(claimed).spec_width() == old(self)@.width,
            old(claimed).spec_height() == old(self)@.height,
            forall|i: int|
                0 <= i < free@.len() ==> {
                    let c = #[trigger] free@[i];
                    &&& old(self)@.inside(c.0 as int, c.1 as int)
                    &&& !old(self)@.on_border(c.0 as int, c.1 as int)
                    &&& !old(self)@.in_room(c.0 as int, c.1 as int)
                },
            free@.contains(door),
            extra@.len() == free@.len(),
        ensures
            final(self).wf(),
            final(self).same_settings(old(self)),
            final(self).journal_extends(old(self)),
            final(self)@.rooms == old(self)@.rooms,
            final(claimed).wf(),
            final(claimed).spec_width() == old(claimed).spec_width(),
            final(claimed).spec_height() == old(claimed).spec_height(),
            forall|a: int, b: int| #[trigger]
                final(claimed).marked(a, b) == (old(claimed).marked(a, b) || listed(free@, a, b)),
            forall|a: int, b: int| #[trigger]
                final(self)@.tile(a, b) == if opened(free@, door, extra@, a, b) {
                    Tile::Door
                } else {
                    old(self)@.tile(a, b)
                },
            forall|a: int, b: int|
                old(self)@.inside(a, b) ==> #[trigger] final(self).color_at(a, b) == if room.covers(
                    a,
                    b,
                ) {
                    LIGHT_COLOR
                } else if opened(free@, door, extra@, a, b) {
                    crate::picture::DOOR_COLOR
                } else {
                    old(self).color_at(a, b)
                },
            final(self).frames_since(old(self)) == if old(self).animated() {
                1int
            } else {
                0int
            },
    {
        let ghost g0 = self@;
        let ghost c0 = *claimed;
        proof {
            self.lemma_sound();
            let i = choose|i: int| 0 <= i < free@.len() && free@[i] == door;
            assert(free@[i] == door);
        }
        self.carve_door(door);
        let ghost g1 = self@;
        let ghost s1 = *self;
        self.draw_room(room, LIGHT_COLOR);
        let ghost g2 = self@;
        proof {
            self.lemma_sound();
            lemma_same_rooms(g2, g0);
            lemma_same_rooms(g1, g0);
            assert forall|a: int, b: int| #[trigger]
                g2.tile(a, b) == if a == door.0 && b == door.1 {
                    Tile::Door
                } else {
                    g0.tile(a, b)
                } by {
                let mid = g1.tile(a, b);
                if room.covers(a, b) {
                    assert(g0.in_room(a, b));
                    lemma_room_is_floor(g0, a, b);
                }
            }
            lemma_doors_keep_wf(g0, g2);
            assert forall|a: int, b: int| g0.inside(a, b) implies #[trigger] self.color_at(a, b)
                == if room.covers(a, b) {
                LIGHT_COLOR
            } else if a == door.0 && b == door.1 {
                crate::picture::DOOR_COLOR
            } else {
                old(self).color_at(a, b)
            } by {
                let mid = s1.color_at(a, b);
                if room.covers(a, b) {
                    assert(g0.in_room(a, b));
                }
            }
        }
        let mut i: usize = 0;
        while i < free.len()
            invariant
                i <= free.len(),
                extra@.len() == free@.len(),
                free@.contains(door),
                self.wf(),
                self.same_settings(old(self)),
                self.journal_extends(old(self)),
                self.frames_since(old(self)) == 0,
                self@.rooms == g0.rooms,
                g0 == old(self)@,
                g0.wf(),
                c0 == *old(claimed),
                claimed.wf(),
                claimed.spec_width() == c0.spec_width() == g0.width,
                claimed.spec_height() == c0.spec_height() == g0.height,
                forall|k: int|
                    0 <= k < free@.len() ==> {
                        let c = #[trigger] free@[k];
                        &&& g0.inside(c.0 as int, c.1 as int)
                        &&& !g0.on_border(c.0 as int, c.1 as int)
                        &&& !g0.in_room(c.0 as int, c.1 as int)
                    },
                forall|a: int, b: int| #[trigger]
                    claimed.marked(a, b) == (c0.marked(a, b) || listed(free@.take(i as int), a, b)),
                forall|a: int, b: int| #[trigger]
                    self@.tile(a, b) == if (a == door.0 && b == door.1) || braided(
                        free@,
                        door,
                        extra@,
                        i as int,
                        a,
                        b,
                    ) {
                        Tile::Door
                    } else {
                        g0.tile(a, b)
                    },
                forall|a: int, b: int| room.covers(a, b) ==> #[trigger] g0.in_room(a, b),
                forall|a: int, b: int|
                    g0.inside(a, b) ==> #[trigger] self.color_at(a, b) == if room.covers(a, b) {
                        LIGHT_COLOR
                    } else if (a == door.0 && b == door.1) || braided(
                        free@,
                        door,
                        extra@,
                        i as int,
                        a,
                        b,
                    ) {
                        crate::picture::DOOR_COLOR
                    } else {
                        old(self).color_at(a, b)
                    },
            decreases free.len() - i,
        {
            let c = free[i];
            let ghost before = self@;
            let ghost earlier = *self;
            let ghost marks = *claimed;
            // Open a passage that's to be culled
            if c != door && extra[i] {
                proof {
                    self.lemma_sound();
                }
                self.carve_door(c);
                proof {
                    self.lemma_sound();
                    lemma_same_rooms(self@, g0);
                    lemma_same_rooms(before, g0);
                }
            }
            claimed.mark(c);
            proof {
                let done = free@.take(i as int);
                let more = free@.take(i + 1);
                assert forall|a: int, b: int| #[trigger]
                    claimed.marked(a, b) == (c0.marked(a, b) || listed(more, a, b)) by {
                    let was = marks.marked(a, b);
                    if listed(done, a, b) {
                        let k = choose|k: int|
                            0 <= k < done.len() && (#[trigger] done[k]).0 == a && done[k].1 == b;
                        assert(more[k].0 == a && more[k].1 == b);
                    }
                    if a == c.0 && b == c.1 {
                        assert(more[i as int].0 == a && more[i as int].1 == b);
                    }
                    if listed(more, a, b) {
                        let k = choose|k: int|
                            0 <= k < more.len() && (#[trigger] more[k]).0 == a && more[k].1 == b;
                        if k < i {
                            assert(done[k].0 == a && done[k].1 == b);
                        }
                    }
                }
                assert forall|a: int, b: int|
                    braided(free@, door, extra@, i + 1, a, b) == (braided(
                        free@,
                        door,
                        extra@,
                        i as int,
                        a,
                        b,
                    ) || (a == c.0 && b == c.1 && c != door && extra@[i as int])) by {
                    lemma_braided_step(free@, door, extra@, i as int, a, b);
                }
                assert forall|a: int, b: int| #[trigger]
                    self@.tile(a, b) == if (a == door.0 && b == door.1) || braided(
                        free@,
                        door,
                        extra@,
                        i + 1,
                        a,
                        b,
                    ) {
                        Tile::Door
                    } else {
                        g0.tile(a, b)
                    } by {
                    let was = before.tile(a, b);
                }
                assert forall|a: int, b: int| g0.inside(a, b) implies #[trigger] self.color_at(a, b)
                    == if room.covers(a, b) {
                    LIGHT_COLOR
                } else if (a == door.0 && b == door.1) || braided(free@, door, extra@, i + 1, a, b) {
                    crate::picture::DOOR_COLOR
                } else {
                    old(self).color_at(a, b)
                } by {
                    let was = earlier.color_at(a, b);
                    if room.covers(a, b) {
                        assert(g0.in_room(a, b));
                    }
                }
                lemma_same_rooms(self@, g0);
                assert forall|a: int, b: int| #[trigger]
                    self@.tile(a, b) == g0.tile(a, b) || (self@.tile(a, b) == Tile::Door
                        && !g0.on_border(a, b) && !g0.in_room(a, b)) by {
                    if self@.tile(a, b) != g0.tile(a, b) {
                        if braided(free@, door, extra@, i + 1, a, b) {
                            let k = choose|k: int|
                                0 <= k < i + 1 && k < free@.len() && (#[trigger] free@[k]).0 == a
                                    && free@[k].1 == b && free@[k] != door && extra@[k];
                        } else {
                            let k = choose|k: int| 0 <= k < free@.len() && free@[k] == door;
                            assert(free@[k] == door);
                        }
                    }
                }
                lemma_doors_keep_wf(g0, self@);
            }
            i += 1;
        }
        self.snapshot();
        proof {
            assert(free@.take(i as int) =~= free@);
        }
    }

    /// Joins one room to what lies beyond it. Of the connectors `spots` of
    /// the room, those that no room before has claimed are free. One of
    /// them, drawn at random, becomes the door of the room; each other one
    /// becomes a door as well with a chance of one in `BRAID_ODDS`; all of
    /// them are claimed. The room itself is made floor again, in the color
    /// of corridors. Where no connector is free the room cannot be reached,
    /// and nothing changes.
    pub fn connect_room(
        &mut self,
        room: &Rect,
        spots: &Vec<Vec2D>,
        claimed: &mut CellMask,
        rng: &mut StdRng,
    ) -> (door: Result<Vec2D, DungeonError>)
        requires
            old(self).wf(),
            old(self)@.admissible(*room),
            forall|a: int, b: int| room.covers(a, b) ==> #[trigger] old(self)@.in_room(a, b),
            old(claimed).wf(),
            old(claimed).spec_width() == old(self)@.width,
            old(claimed).spec_height() == old(self)@.height,
            forall|i: int|
                0 <= i < spots@.len() ==> {
                    let c = #[trigger] spots@[i];
                    &&& old(self)@.inside(c.0 as int, c.1 as int)
                    &&& !old(self)@.on_border(c.0 as int, c.1 as int)
                    &&& !old(self)@.in_room(c.0 as int, c.1 as int)
                },
        ensures
            final(self).wf(),
            final(self).same_settings(old(self)),
            final(self).journal_extends(old(self)),
            final(self)@.rooms == old(self)@.rooms,
            final(claimed).wf(),
            final(claimed).spec_width() == old(claimed).spec_width(),
            final(claimed).spec_height() == old(claimed).spec_height(),
            door matches Err(e) ==> e == DungeonError::UnreachableRoom,
            door is Err <==> forall|a: int, b: int|
                listed(spots@, a, b) ==> #[trigger] old(claimed).marked(a, b),
            forall|a: int, b: int| #[trigger]
                final(claimed).marked(a, b) == (old(claimed).marked(a, b) || listed(spots@, a, b)),
            forall|a: int, b: int| #[trigger]
                final(self)@.tile(a, b) == old(self)@.tile(a, b) || (final(self)@.tile(a, b)
                    == Tile::Door && listed(spots@, a, b) && !old(claimed).marked(a, b)),
            door matches Ok(c) ==> listed(spots@, c.0 as int, c.1 as int) && !old(claimed).marked(
                c.0 as int,
                c.1 as int,
            ) && final(self)@.tile(c.0 as int, c.1 as int) == Tile::Door,
            door is Err ==> final(self)@ == old(self)@,
            forall|a: int, b: int|
                old(self)@.inside(a, b) ==> #[trigger] final(self).color_at(a, b) == if door is Ok
                    && room.covers(a, b) {
                    LIGHT_COLOR
                } else if final(self)@.tile(a, b) != old(self)@.tile(a, b) {
                    crate::picture::DOOR_COLOR
                } else {
                    old(self).color_at(a, b)
                },
            final(self).frames_since(old(self)) == if door is Ok && old(self).animated() {
                1int
            } else {
                0int
            },
    {
        let available = unclaimed(spots, claimed);
        let ghost g0 = self@;
        let ghost c0 = *claimed;
        let door = match random_choice(rng, &available) {
            Some(door) => door,
            None => {
                proof {
                    assert forall|a: int, b: int| listed(spots@, a, b) implies #[trigger] c0.marked(
                        a,
                        b,
                    ) by {
                        if !c0.marked(a, b) {
                            assert(listed(available@, a, b));
                        }
                    }
                }
                return Err(DungeonError::UnreachableRoom);
            },
        };
        let mut extra: Vec<bool> = Vec::new();
        let mut i: usize = 0;
        while i < available.len()
            invariant
                i <= available.len(),
                extra@.len() == i,
            decreases available.len() - i,
        {
            // Randomly open a passage that's to be culled
            let coin = available[i] != door && random_ratio(rng, 1, BRAID_ODDS);
            extra.push(coin);
            i += 1;
        }
        proof {
            let k = choose|k: int| 0 <= k < available@.len() && available@[k] == door;
            assert(available@[k] == door);
            assert(listed(available@, door.0 as int, door.1 as int));
            assert forall|k: int| 0 <= k < available@.len() implies {
                let c = #[trigger] available@[k];
                &&& g0.inside(c.0 as int, c.1 as int)
                &&& !g0.on_border(c.0 as int, c.1 as int)
                &&& !g0.in_room(c.0 as int, c.1 as int)
            } by {
                let c = available@[k];
                assert(spots@.contains(c));
                let n = choose|n: int| 0 <= n < spots@.len() && spots@[n] == c;
                assert(spots@[n] == c);
            }
        }
        self.open_doors(room, &available, door, &extra, claimed);
        proof {
            assert forall|a: int, b: int| opened(available@, door, extra@, a, b) implies listed(
                available@,
                a,
                b,
            ) by {
                lemma_opened_is_listed(available@, door, extra@, a, b);
            }
            assert forall|a: int, b: int| #[trigger]
                self@.tile(a, b) == g0.tile(a, b) || (self@.tile(a, b) == Tile::Door && listed(
                    spots@,
                    a,
                    b,
                ) && !c0.marked(a, b)) by {
                if opened(available@, door, extra@, a, b) {
                    assert(listed(available@, a, b));
                }
            }
            assert forall|a: int, b: int| g0.inside(a, b) implies #[trigger] self.color_at(a, b)
                == if room.covers(a, b) {
                LIGHT_COLOR
            } else if self@.tile(a, b) != g0.tile(a, b) {
                crate::picture::DOOR_COLOR
            } else {
                old(self).color_at(a, b)
            } by {
                let now = self@.tile(a, b);
                let was = g0.tile(a, b);
                old(self).lemma_sound();
            }
        }
        Ok(door)
    }
}

/// Whether one of the first `n` cells of the list is `(a, b)`, is not the
/// door of the room, and is to be opened as well.
pub open spec fn braided(free: Seq<Vec2D>, door: Vec2D, extra: Seq<bool>, n: int, a: int, b: int) -> bool {
    exists|k: int|
        0 <= k < n && k < free.len() && (#[trigger] free[k]).0 == a && free[k].1 == b && free[k]
            != door && extra[k]
}

/// Whether `(a, b)` is the door of the room or one of the cells of the list
/// that are to be opened as well.
pub open spec fn opened(free: Seq<Vec2D>, door: Vec2D, extra: Seq<bool>, a: int, b: int) -> bool {
    (a == door.0 && b == door.1) || braided(free, door, extra, free.len() as int, a, b)
}

/// What is braided among the first `n + 1` cells of the list: what is
/// braided among the first `n`, and the cell after them if it is to be opened.
pub proof fn lemma_braided_step(free: Seq<Vec2D>, door: Vec2D, extra: Seq<bool>, n: int, a: int, b: int)
    requires
        0 <= n < free.len(),
    ensures
        braided(free, door, extra, n + 1, a, b) == (braided(free, door, extra, n, a, b) || (a
            == free[n].0 && b == free[n].1 && free[n] != door && extra[n])),
{
    if braided(free, door, extra, n + 1, a, b) {
        let k = choose|k: int|
            0 <= k < n + 1 && k < free.len() && (#[trigger] free[k]).0 == a && free[k].1 == b
                && free[k] != door && extra[k];
        if k < n {
            assert(braided(free, door, extra, n, a, b));
        }
    }
    if braided(free, door, extra, n, a, b) {
        let k = choose|k: int|
            0 <= k < n && k < free.len() && (#[trigger] free[k]).0 == a && free[k].1 == b && free[k]
                != door && extra[k];
        assert(free[k].0 == a);
    }
    if a == free[n].0 && b == free[n].1 && free[n] != door && extra[n] {
        assert(free[n].0 == a);
    }
}

/// Every cell that is opened is one of the cells of the list, if the door is
/// one.
pub proof fn lemma_opened_is_listed(free: Seq<Vec2D>, door: Vec2D, extra: Seq<bool>, a: int, b: int)
    requires
        free.contains(door),
        opened(free, door, extra, a, b),
    ensures
        listed(free, a, b),
{
    if a == door.0 && b == door.1 {
        let k = choose|k: int| 0 <= k < free.len() && free[k] == door;
        assert(free[k].0 == a && free[k].1 == b);
    } else {
        let k = choose|k: int|
            0 <= k < free.len() && k < free.len() && (#[trigger] free[k]).0 == a && free[k].1 == b
                && free[k] != door && extra[k];
        assert(free[k].0 == a && free[k].1 == b);
    }
}

/// The connectors among `spots` that are not in the set `claimed`, in their
/// order.
pub fn unclaimed(spots: &Vec<Vec2D>, claimed: &CellMask) -> (free: Vec<Vec2D>)
    requires
        claimed.wf(),
        forall|i: int|
            0 <= i < spots@.len() ==> claimed.inside(
                (#[trigger] spots@[i]).0 as int,
                spots@[i].1 as int,
            ),
    ensures
        free@ == spots@.filter(|c: Vec2D| !claimed.marked(c.0 as int, c.1 as int)),
        forall|a: int, b: int| listed(free@, a, b) <==> listed(spots@, a, b) && !claimed.marked(a, b),
        forall|k: int| 0 <= k < free@.len() ==> spots@.contains(#[trigger] free@[k]),
{
    let mut free: Vec<Vec2D> = Vec::new();
    let ghost keep = |c: Vec2D| !claimed.marked(c.0 as int, c.1 as int);
    let mut i: usize = 0;
    while i < spots.len()
        invariant
            i <= spots.len(),
            claimed.wf(),
            keep == |c: Vec2D| !claimed.marked(c.0 as int, c.1 as int),
            forall|k: int|
                0 <= k < spots@.len() ==> claimed.inside(
                    (#[trigger] spots@[k]).0 as int,
                    spots@[k].1 as int,
                ),
            free@ == spots@.take(i as int).filter(keep),
            forall|a: int, b: int|
                listed(free@, a, b) <==> listed(spots@.take(i as int), a, b) && !claimed.marked(a, b),
            forall|k: int| 0 <= k < free@.len() ==> spots@.contains(#[trigger] free@[k]),
        decreases spots.len() - i,
    {
        let c = spots[i];
        let ghost before = free@;
        let ghost done = spots@.take(i as int);
        let ghost more = spots@.take(i + 1);
        proof {
            assert(more.drop_last() =~= done);
            assert(more.last() == c);
            reveal(Seq::filter);
        }
        if !claimed.is_marked(c) {
            free.push(c);
        }
        proof {
            assert(free@ =~= more.filter(keep));
            assert forall|a: int, b: int|
                listed(free@, a, b) <==> listed(more, a, b) && !claimed.marked(a, b) by {
                if listed(before, a, b) {
                    let k = choose|k: int|
                        0 <= k < before.len() && (#[trigger] before[k]).0 == a && before[k].1 == b;
                    assert(free@[k].0 == a && free@[k].1 == b);
                }
                if listed(done, a, b) {
                    let k = choose|k: int|
                        0 <= k < done.len() && (#[trigger] done[k]).0 == a && done[k].1 == b;
                    assert(more[k].0 == a && more[k].1 == b);
                }
                if a == c.0 && b == c.1 {
                    assert(more[i as int].0 == a && more[i as int].1 == b);
                    if !claimed.marked(a, b) {
                        assert(free@[before.len() as int].0 == a);
                    }
                }
                if listed(more, a, b) {
                    let k = choose|k: int|
                        0 <= k < more.len() && (#[trigger] more[k]).0 == a && more[k].1 == b;
                    if k < i {
                        assert(done[k].0 == a && done[k].1 == b);
                    }
                }
                if listed(free@, a, b) {
                    let k = choose|k: int|
                        0 <= k < free@.len() && (#[trigger] free@[k]).0 == a && free@[k].1 == b;
                    if k < before.len() {
                        assert(before[k].0 == a && before[k].1 == b);
                    }
                }
            }
            assert forall|k: int| 0 <= k < free@.len() implies spots@.contains(
                #[trigger] free@[k],
            ) by {
                if k < before.len() {
                    assert(free@[k] == before[k]);
                } else {
                    assert(spots@[i as int] == c);
                }
            }
        }
        i += 1;
    }
    proof {
        assert(spots@.take(i as int) =~= spots@);
    }
    free
}

/// Every cell of a room of a well-formed grid is floor.
pub proof fn lemma_room_is_floor(g: Grid, a: int, b: int)
    requires
        g.wf(),
        g.in_room(a, b),
    ensures
        g.tile(a, b) == Tile::Floor,
{
    let k = choose|k: int| 0 <= k < g.rooms.len() && #[trigger] g.rooms[k].covers(a, b);
}

/// Turning cells into doors that lie off the border and outside every room
/// keeps the grid well formed.
pub proof fn lemma_doors_keep_wf(g0: Grid, g: Grid)
    requires
        g0.wf(),
        g.sized(),
        g.width == g0.width,
        g.height == g0.height,
        g.rooms == g0.rooms,
        forall|a: int, b: int| #[trigger]
            g.tile(a, b) == g0.tile(a, b) || (g.tile(a, b) == Tile::Door && !g0.on_border(a, b)
                && !g0.in_room(a, b)),
    ensures
        g.wf(),
{
    assert forall|a: int, b: int| g.on_border(a, b) implies #[trigger] g.tile(a, b)
        == Tile::Wall by {
        assert(g0.on_border(a, b));
        let was = g0.tile(a, b);
    }
    assert forall|k: int, a: int, b: int|
        0 <= k < g.rooms.len() && #[trigger] g.rooms[k].covers(a, b) implies g.tile(a, b)
        == Tile::Floor by {
        assert(g0.rooms[k].covers(a, b));
        let was = g0.tile(a, b);
    }
}

/// The connectors of the first `k + 1` rooms are those of the first `k`
/// rooms and those of the room after them.
pub proof fn lemma_claimed_step(g: Grid, k: int, a: int, b: int)
    requires
        0 <= k < g.rooms.len(),
    ensures
        g.claimed(k + 1, a, b) == (g.claimed(k, a, b) || listed(g.connectors(g.rooms[k]), a, b)),
{
    if g.claimed(k + 1, a, b) {
        let j = choose|j: int|
            0 <= j < k + 1 && 0 <= j < g.rooms.len() && listed(
                g.connectors(#[trigger] g.rooms[j]),
                a,
                b,
            );
        if j < k {
            assert(listed(g.connectors(g.rooms[j]), a, b));
        }
    }
    if g.claimed(k, a, b) {
        let j = choose|j: int|
            0 <= j < k && 0 <= j < g.rooms.len() && listed(
                g.connectors(#[trigger] g.rooms[j]),
                a,
                b,
            );
        assert(listed(g.connectors(g.rooms[j]), a, b));
    }
    if listed(g.connectors(g.rooms[k]), a, b) {
        let r = g.rooms[k];
    }
}

/// A connector of one of the first `k` rooms is one of the first `n` rooms
/// for every `n` from `k` on.
pub proof fn lemma_claimed_grows(g: Grid, k: int, n: int, a: int, b: int)
    requires
        k <= n,
        g.claimed(k, a, b),
    ensures
        g.claimed(n, a, b),
{
    let j = choose|j: int|
        0 <= j < k && 0 <= j < g.rooms.len() && listed(g.connectors(#[trigger] g.rooms[j]), a, b);
    assert(listed(g.connectors(g.rooms[j]), a, b));
}

/// A connector of the `k`-th room that none of the rooms before it has is
/// free for it.
pub proof fn lemma_free(g: Grid, k: int, a: int, b: int)
    requires
        0 <= k < g.rooms.len(),
        listed(g.connectors(g.rooms[k]), a, b),
        !g.claimed(k, a, b),
    ensures
        g.free_connector(k, a, b),
{
    assert forall|j: int| 0 <= j < k implies !listed(g.connectors(#[trigger] g.rooms[j]), a, b) by {
        if listed(g.connectors(g.rooms[j]), a, b) {
            assert(g.claimed(k, a, b));
        }
    }
}

/// A room one of whose connectors was opened has a door: a door outside the
/// room that shares a side with a cell of it.
pub proof fn lemma_opened_door_is_beside(g0: Grid, g: Grid, k: int)
    requires
        g0.wf(),
        g.rooms == g0.rooms,
        0 <= k < g0.rooms.len(),
        g.door_opened(g0, k),
    ensures
        g.has_door(k),
{
    let (a, b) = choose|a: int, b: int| #[trigger]
        g0.free_connector(k, a, b) && g.tile(a, b) == Tile::Door;
    assert(g0.admissible(g0.rooms[k]));
    lemma_connector_is_beside(g0, g0.rooms[k], a, b);
    assert(g.rooms[k].beside(a, b));
}

} // verus!
