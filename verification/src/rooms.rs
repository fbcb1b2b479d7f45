//! The room placer: it draws rectangles at random and keeps each one that is
//! separated from all the rooms kept before.

use rand::rngs::StdRng;
use vstd::prelude::*;
use crate::dungeon::{lemma_same_rooms, Dungeon, Grid, Tile};
use crate::maze::lemma_bare_is_settled;
use crate::picture::{lemma_pixels_bound, light};
use crate::geometry::{lemma_cell, lemma_position, lemma_separated_apart, lemma_separated_symmetric, Rect};
use crate::ppm::Color;
use crate::random::{random_range, random_ratio};

verus! {

/// The sides of the room that the three draws stand for: a square of side
/// `2 * base + 1`, made `2 * stretch` longer along the x axis if `wide` and
/// along the y axis if not.
pub open spec fn shape_of(base: int, stretch: int, wide: bool) -> (int, int) {
    let size = 2 * base + 1;
    if wide {
        (size + 2 * stretch, size)
    } else {
        (size, size + 2 * stretch)
    }
}

/// Whether a room has sides that three draws can stand for.
pub open spec fn drawn(room: Rect) -> bool {
    exists|base: int, stretch: int, wide: bool|
        2 <= base <= 3 && 0 <= stretch <= base && #[trigger] shape_of(base, stretch, wide) == (
            room.2 as int,
            room.3 as int,
        )
}

/// The sides of the room that the three draws stand for.
pub fn room_shape(base: i32, stretch: i32, wide: bool) -> (shape: (i32, i32))
    requires
        2 <= base <= 3,
        0 <= stretch <= base,
    ensures
        (shape.0 as int, shape.1 as int) == shape_of(base as int, stretch as int, wide),
{
    let size = base * 2 + 1;
    let rectangularity = stretch * 2;
    if wide {
        (size + rectangularity, size)
    } else {
        (size, size + rectangularity)
    }
}

/// At how many odd coordinates a room with a side of `side` cells can have
/// its corner on a grid with a side of `span` cells: the room has to keep off
/// the outermost cells.
pub open spec fn corners(span: int, side: int) -> int {
    if span - side < 2 {
        0
    } else {
        (span - side) / 2
    }
}

/// The room with the given sides whose corner is the one in the column
/// `column` and the row `row` of the corners at odd coordinates, counted
/// from zero.
pub fn room_at(shape: (i32, i32), column: i32, row: i32) -> (room: Rect)
    requires
        0 <= column <= 0x3fff_ffff,
        0 <= row <= 0x3fff_ffff,
    ensures
        room == Rect((2 * column + 1) as i32, (2 * row + 1) as i32, shape.0, shape.1),
{
    Rect(column * 2 + 1, row * 2 + 1, shape.0, shape.1)
}

/// Draws a color that is kind of light.
pub fn light_color(rng: &mut StdRng) -> (color: Color)
    ensures
        light(color),
{
    let r = random_range(rng, 125, 256);
    let g = random_range(rng, 125, 256);
    let b = random_range(rng, 125, 256);
    (r as u32, g as u32, b as u32)
}

impl Dungeon {
    /// Whether `room` is separated from every room of the dungeon.
    pub fn fits(&self, room: &Rect) -> (free: bool)
        requires
            self.wf(),
            self@.admissible(*room),
        ensures
            free == forall|k: int|
                0 <= k < self@.rooms.len() ==> (#[trigger] self@.rooms[k]).separated(*room),
    {
        let rooms = self.rooms();
        let mut k: usize = 0;
        while k < rooms.len()
            invariant
                k <= rooms.len(),
                rooms@ == self@.rooms,
                self.wf(),
                self@.admissible(*room),
                forall|j: int| 0 <= j < k ==> (#[trigger] rooms@[j]).separated(*room),
            decreases rooms.len() - k,
        {
            assert(self@.admissible(rooms@[k as int]));
            proof {
                self.lemma_sound();
                lemma_pixels_bound(self@.width, self@.height);
            }
            let apart = match rooms[k].distance_to(room) {
                Some(d) => d > 0,
                None => false,
            };
            if !apart {
                return false;
            }
            k += 1;
        }
        true
    }

    /// Makes every cell of `rect` floor and pictures it in `color`.
    pub(crate) fn draw_room(&mut self, rect: &Rect, color: Color)
        requires
            old(self).sound(),
            light(color),
            color == crate::picture::LIGHT_COLOR || forall|a: int, b: int|
                rect.covers(a, b) ==> #[trigger] old(self)@.in_room(a, b),
            rect.wf(),
            0 <= rect.0,
            0 <= rect.1,
            rect.0 + rect.2 <= old(self)@.width,
            rect.1 + rect.3 <= old(self)@.height,
        ensures
            final(self).sound(),
            final(self).same_settings(old(self)),
            final(self).journal_extends(old(self)),
            final(self).frames_since(old(self)) == 0,
            final(self)@.rooms == old(self)@.rooms,
            forall|a: int, b: int| #[trigger]
                final(self)@.tile(a, b) == if rect.covers(a, b) {
                    Tile::Floor
                } else {
                    old(self)@.tile(a, b)
                },
            forall|a: int, b: int|
                old(self)@.inside(a, b) ==> #[trigger] final(self).color_at(a, b) == if rect.covers(
                    a,
                    b,
                ) {
                    color
                } else {
                    old(self).color_at(a, b)
                },
    {
        let mut walk = rect.into_iter();
        loop
            invariant
                walk.wf(),
                walk.rect() == *rect,
                light(color),
                color == crate::picture::LIGHT_COLOR || forall|a: int, b: int|
                    rect.covers(a, b) ==> #[trigger] old(self)@.in_room(a, b),
                self.sound(),
                self.same_settings(old(self)),
                self.journal_extends(old(self)),
                self.frames_since(old(self)) == 0,
                self@.rooms == old(self)@.rooms,
                0 <= rect.0,
                0 <= rect.1,
                rect.0 + rect.2 <= old(self)@.width,
                rect.1 + rect.3 <= old(self)@.height,
                forall|a: int, b: int| #[trigger]
                    self@.tile(a, b) == if rect.covers(a, b) && rect.position(a, b) < walk.index() {
                        Tile::Floor
                    } else {
                        old(self)@.tile(a, b)
                    },
                forall|a: int, b: int|
                    old(self)@.inside(a, b) ==> #[trigger] self.color_at(a, b) == if rect.covers(a, b)
                        && rect.position(a, b) < walk.index() {
                        color
                    } else {
                        old(self).color_at(a, b)
                    },
            ensures
                self.sound(),
                self.same_settings(old(self)),
                self.journal_extends(old(self)),
                self.frames_since(old(self)) == 0,
                self@.rooms == old(self)@.rooms,
                forall|a: int, b: int| #[trigger]
                    self@.tile(a, b) == if rect.covers(a, b) {
                        Tile::Floor
                    } else {
                        old(self)@.tile(a, b)
                    },
                forall|a: int, b: int|
                    old(self)@.inside(a, b) ==> #[trigger] self.color_at(a, b) == if rect.covers(
                        a,
                        b,
                    ) {
                        color
                    } else {
                        old(self).color_at(a, b)
                    },
            decreases walk.remaining().len(),
        {
            let ghost done = walk.index();
            let ghost before = self@;
            let ghost earlier = *self;
            match walk.next() {
                Some(point) => {
                    proof {
                        lemma_cell(*rect, done);
                        lemma_same_rooms(self@, old(self)@);
                        assert(rect.covers(point.0 as int, point.1 as int));
                    }
                    self.carve_cell(point, color, Tile::Floor);
                    proof {
                        assert forall|a: int, b: int| old(self)@.inside(a, b) implies #[trigger] self.color_at(
                            a,
                            b,
                        ) == if rect.covers(a, b) && rect.position(a, b) < walk.index() {
                            color
                        } else {
                            old(self).color_at(a, b)
                        } by {
                            let was = earlier.color_at(a, b);
                            if rect.covers(a, b) {
                                lemma_position(*rect, a, b);
                            }
                        }
                        assert forall|a: int, b: int| #[trigger]
                            self@.tile(a, b) == if rect.covers(a, b) && rect.position(a, b)
                                < walk.index() {
                                Tile::Floor
                            } else {
                                old(self)@.tile(a, b)
                            } by {
                            let was = before.tile(a, b);
                            if rect.covers(a, b) {
                                lemma_position(*rect, a, b);
                            }
                        }
                    }
                },
                None => {
                    proof {
                        assert(walk.remaining().len() == 0);
                        assert forall|a: int, b: int| rect.covers(a, b) implies rect.position(a, b)
                            < done by {
                            lemma_position(*rect, a, b);
                        }
                    }
                    break ;
                },
            }
        }
    }

    /// Accepts `room`, pictured in `color`, if it is separated from every
    /// room accepted before, and says whether it did. An accepted room is
    /// all floor and comes last in the list of rooms. An animated dungeon
    /// marks a frame after each room it accepts.
    pub fn try_place(&mut self, room: Rect, color: Color) -> (accepted: bool)
        requires
            old(self).wf(),
            old(self)@.bare(),
            old(self)@.admissible(room),
            light(color),
        ensures
            final(self).wf(),
            final(self)@.bare(),
            final(self).same_settings(old(self)),
            final(self).journal_extends(old(self)),
            final(self).frames_since(old(self)) == if accepted && old(self).animated() {
                1int
            } else {
                0int
            },
            accepted == forall|k: int|
                0 <= k < old(self)@.rooms.len() ==> (#[trigger] old(self)@.rooms[k]).separated(room),
            accepted ==> final(self)@.rooms == old(self)@.rooms.push(room),
            accepted ==> forall|a: int, b: int| #[trigger]
                final(self)@.tile(a, b) == if room.covers(a, b) {
                    Tile::Floor
                } else {
                    old(self)@.tile(a, b)
                },
            !accepted ==> final(self)@ == old(self)@ && final(self).picture() == old(
                self,
            ).picture() && final(self).log() == old(self).log(),
    {
        if !self.fits(&room) {
            return false;
        }
        self.accept(room, color);
        true
    }

    /// Takes `room`, pictured in `color`, into the dungeon.
    fn accept(&mut self, room: Rect, color: Color)
        requires
            old(self).wf(),
            old(self)@.bare(),
            old(self)@.admissible(room),
            light(color),
            forall|k: int|
                0 <= k < old(self)@.rooms.len() ==> (#[trigger] old(self)@.rooms[k]).separated(room),
        ensures
            final(self).wf(),
            final(self)@.bare(),
            final(self).same_settings(old(self)),
            final(self).journal_extends(old(self)),
            final(self).frames_since(old(self)) == if old(self).animated() {
                1int
            } else {
                0int
            },
            final(self)@.rooms == old(self)@.rooms.push(room),
            forall|a: int, b: int| #[trigger]
                final(self)@.tile(a, b) == if room.covers(a, b) {
                    Tile::Floor
                } else {
                    old(self)@.tile(a, b)
                },
    {
        proof {
            self.lemma_sound();
        }
        self.add_room(room);
        let ghost listed = self@;
        proof {
            assert(listed.rooms[listed.rooms.len() - 1] == room);
            assert forall|a: int, b: int| room.covers(a, b) implies #[trigger] listed.in_room(
                a,
                b,
            ) by {
                assert(listed.rooms[listed.rooms.len() - 1].covers(a, b));
            }
            assert forall|x: int, y: int| #[trigger] listed.tile(x, y) == old(self)@.tile(x, y) by {}
        }
        self.draw_room(&room, color);
        self.snapshot();
        proof {
            self.lemma_sound();
            let g = self@;
            let g0 = old(self)@;
            assert(g.rooms == g0.rooms.push(room));
            assert forall|x: int, y: int| #[trigger]
                g.tile(x, y) == if room.covers(x, y) {
                    Tile::Floor
                } else {
                    g0.tile(x, y)
                } by {
                let mid = listed.tile(x, y);
            }
            assert forall|k: int, x: int, y: int|
                0 <= k < g.rooms.len() && #[trigger] g.rooms[k].covers(x, y) implies g.tile(x, y)
                == Tile::Floor by {
                if k < g0.rooms.len() {
                    assert(g0.rooms[k].covers(x, y));
                }
            }
            assert forall|j: int, k: int| 0 <= j < k < g.rooms.len() implies (
            #[trigger] g.rooms[j]).separated(#[trigger] g.rooms[k]) by {
                if k < g0.rooms.len() {
                    assert(g0.rooms[j].separated(g0.rooms[k]));
                } else {
                    assert(g0.rooms[j].separated(room));
                }
            }
            assert forall|x: int, y: int| !g.in_room(x, y) implies #[trigger] g.tile(x, y)
                == Tile::Wall by {
                assert(g.rooms[g0.rooms.len() as int] == room);
                assert(!room.covers(x, y));
                if g0.in_room(x, y) {
                    let k = choose|k: int|
                        0 <= k < g0.rooms.len() && #[trigger] g0.rooms[k].covers(x, y);
                    assert(g.rooms[k].covers(x, y));
                }
            }
            assert forall|x: int, y: int| g.on_border(x, y) implies #[trigger] g.tile(x, y)
                == Tile::Wall by {
                assert(g0.on_border(x, y));
            }
        }
    }

    /// In how many columns and rows a room with sides `shape` can have its
    /// corner, if in any.
    pub fn origins(&self, shape: (i32, i32)) -> (choice: Option<(i32, i32)>)
        requires
            self.sound(),
            shape.0 >= 0,
            shape.1 >= 0,
        ensures
            choice is Some <==> corners(self@.width, shape.0 as int) > 0 && corners(
                self@.height,
                shape.1 as int,
            ) > 0,
            choice matches Some(n) ==> n.0 == corners(self@.width, shape.0 as int) && n.1
                == corners(self@.height, shape.1 as int),
    {
        proof {
            self.lemma_sound();
        }
        if self.width() - shape.0 < 2 || self.height() - shape.1 < 2 {
            None
        } else {
            Some(((self.width() - shape.0) / 2, (self.height() - shape.1) / 2))
        }
    }

    /// Draws one candidate room: a square of side five or seven, stretched
    /// along one axis by an even number of cells, with its corner at odd
    /// coordinates drawn from all those at which the room is admissible.
    /// Where there are none, because the grid is too small for the room
    /// that was drawn, there is no candidate.
    pub fn gen_rectangle(&self, rng: &mut StdRng) -> (candidate: Option<Rect>)
        requires
            self.sound(),
        ensures
            candidate matches Some(room) ==> self@.admissible(room) && drawn(room),
            self@.width >= 15 && self@.height >= 15 ==> candidate is Some,
            self@.width < 7 || self@.height < 7 ==> candidate is None,
    {
        proof {
            self.lemma_sound();
            lemma_pixels_bound(self@.width, self@.height);
        }
        let base = random_range(rng, 2, 4);
        let size = base * 2 + 1;
        let stretch = random_range(rng, 0, 1 + size / 2);
        let wide = random_ratio(rng, 1, 2);
        let shape = room_shape(base, stretch, wide);
        assert(shape_of(base as int, stretch as int, wide) == (shape.0 as int, shape.1 as int));
        match self.origins(shape) {
            Some((columns, rows)) => {
                let column = random_range(rng, 0, columns);
                let row = random_range(rng, 0, rows);
                Some(room_at(shape, column, row))
            },
            None => None,
        }
    }

    /// The room placer. As often as the budget says, it draws a candidate
    /// and accepts it, in a light color drawn for it, if it is separated
    /// from every room accepted before.
    pub fn draw_rooms(&mut self, rng: &mut StdRng)
        requires
            old(self).wf(),
            old(self)@.bare(),
        ensures
            final(self).wf(),
            final(self)@.bare(),
            final(self)@.settled(),
            final(self).same_settings(old(self)),
            final(self).journal_extends(old(self)),
            old(self)@.rooms.is_prefix_of(final(self)@.rooms),
            final(self)@.rooms.len() <= old(self)@.rooms.len() + old(self).budget(),
            forall|k: int|
                old(self)@.rooms.len() <= k < final(self)@.rooms.len() ==> drawn(
                    #[trigger] final(self)@.rooms[k],
                ),
            old(self)@.rooms.len() == 0 && old(self)@.width >= 15 && old(self)@.height >= 15
                ==> final(self)@.rooms.len() >= 1,
            old(self)@.width < 7 || old(self)@.height < 7 ==> final(self)@.rooms == old(self)@.rooms,
            final(self).frames_since(old(self)) == if old(self).animated() {
                final(self)@.rooms.len() - old(self)@.rooms.len()
            } else {
                0int
            },
    {
        let attempts = self.attempts();
        proof {
            self.lemma_sound();
        }
        let mut n: i32 = 0;
        while n < attempts
            invariant
                0 <= n <= attempts,
                attempts == old(self).budget(),
                self.wf(),
                self@.bare(),
                self.same_settings(old(self)),
                self.journal_extends(old(self)),
                old(self)@.rooms.is_prefix_of(self@.rooms),
                self@.rooms.len() <= old(self)@.rooms.len() + n,
                forall|k: int|
                    old(self)@.rooms.len() <= k < self@.rooms.len() ==> drawn(#[trigger] self@.rooms[k]),
                n >= 1 && old(self)@.rooms.len() == 0 && old(self)@.width >= 15 && old(self)@.height
                    >= 15 ==> self@.rooms.len() >= 1,
                old(self)@.width < 7 || old(self)@.height < 7 ==> self@.rooms == old(self)@.rooms,
                self.frames_since(old(self)) == if old(self).animated() {
                    self@.rooms.len() - old(self)@.rooms.len()
                } else {
                    0int
                },
            decreases attempts - n,
        {
            match self.gen_rectangle(rng) {
                Some(room) => {
                    if self.fits(&room) {
                        let color = light_color(rng);
                        self.accept(room, color);
                    }
                },
                None => {},
            }
            n += 1;
        }
        proof {
            lemma_bare_is_settled(self@);
        }
    }
}

/// Any two rooms of a well-formed grid are separated, in whatever order
/// they were accepted: they neither overlap nor touch, so that a cell of the
/// one and a cell of the other are at least two columns or two rows apart.
pub proof fn lemma_rooms_apart(g: Grid, j: int, k: int, a: int, b: int, c: int, d: int)
    requires
        g.wf(),
        0 <= j < g.rooms.len(),
        0 <= k < g.rooms.len(),
        j != k,
        g.rooms[j].covers(a, b),
        g.rooms[k].covers(c, d),
    ensures
        g.rooms[j].separated(g.rooms[k]),
        c - a >= 2 || a - c >= 2 || d - b >= 2 || b - d >= 2,
{
    if j < k {
        assert(g.rooms[j].separated(g.rooms[k]));
    } else {
        assert(g.rooms[k].separated(g.rooms[j]));
        lemma_separated_symmetric(g.rooms[k], g.rooms[j]);
    }
    lemma_separated_apart(g.rooms[j], g.rooms[k], a, b, c, d);
}

} // verus!
