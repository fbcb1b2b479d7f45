//! The dungeon: a grid of tiles with its list of rooms, the picture that is
//! drawn of it, and the operations that change one cell at a time.
//!
//! The stages of the generation are written against the contracts of this
//! module alone. They speak of a dungeon through its view, the [`Grid`].

use vstd::prelude::*;
use crate::geometry::{Rect, Vec2D};
use crate::picture::{count_frames, lemma_paint_rendered, lemma_pixels_bound, lemma_rendered_pixel, lemma_unpainted_rendered, light, odd, paint, paint_cell, painted, pictured, pixels_for, rendered, unpainted, valid_size, Event, CELL_SIZE, DARK_COLOR, DOOR_COLOR, LIGHT_COLOR};
use crate::ppm::{lemma_offset, offset, Color, PPM};

verus! {

/// What a cell of the grid is.
#[derive(Debug, Clone, Copy, PartialEq, Eq, Structural)]
pub enum Tile {
    /// A cell of a room or of a corridor.
    Floor,
    /// What every cell is before it is carved.
    Wall,
    /// A cell that joins a room to what lies beyond it.
    Door,
}

/// Why a dungeon could not be made.
#[derive(Debug, Clone, Copy, PartialEq, Eq, Structural)]
pub enum DungeonError {
    /// A size is even or not positive, the budget of attempts is not
    /// positive, or the picture would have more pixels than an `i32` counts.
    Configuration,
    /// A room has no place left for a door.
    UnreachableRoom,
}

/// The mathematical model of a dungeon: its size, its tiles row by row, and
/// its rooms in the order in which they were accepted.
pub struct Grid {
    pub width: int,
    pub height: int,
    pub tiles: Seq<Tile>,
    pub rooms: Seq<Rect>,
}

impl Grid {
    /// Whether `(x, y)` is a cell of the grid.
    pub open spec fn inside(self, x: int, y: int) -> bool {
        0 <= x < self.width && 0 <= y < self.height
    }

    /// The tile at `(x, y)`. Beyond the grid there is nothing but wall.
    pub open spec fn tile(self, x: int, y: int) -> Tile {
        if self.inside(x, y) {
            self.tiles[offset(self.width, x, y)]
        } else {
            Tile::Wall
        }
    }

    /// Whether `(x, y)` is a cell of some room.
    pub open spec fn in_room(self, x: int, y: int) -> bool {
        exists|k: int| 0 <= k < self.rooms.len() && #[trigger] self.rooms[k].covers(x, y)
    }

    /// Whether `(x, y)` is a cell of one of the first `k` rooms.
    pub open spec fn in_rooms_before(self, k: int, x: int, y: int) -> bool {
        exists|j: int| 0 <= j < k && 0 <= j < self.rooms.len() && #[trigger] self.rooms[j].covers(x, y)
    }

    /// A corridor cell is a floor cell outside every room.
    pub open spec fn corridor(self, x: int, y: int) -> bool {
        self.tile(x, y) == Tile::Floor && !self.in_room(x, y)
    }

    /// The grid with the tile at `(x, y)` replaced.
    pub open spec fn with_tile(self, x: int, y: int, tile: Tile) -> Grid {
        Grid { tiles: self.tiles.update(offset(self.width, x, y), tile), ..self }
    }

    /// The grid with one more room at the end of its list.
    pub open spec fn with_room(self, room: Rect) -> Grid {
        Grid { rooms: self.rooms.push(room), ..self }
    }

    /// Both sides are odd `i32` values and there is one tile for each cell.
    pub open spec fn sized(self) -> bool {
        &&& 0 < self.width <= i32::MAX
        &&& 0 < self.height <= i32::MAX
        &&& odd(self.width)
        &&& odd(self.height)
        &&& self.tiles.len() == self.width * self.height
    }

    /// A rectangle can be a room when its corner is at odd coordinates, its
    /// sides are odd and at least three, and it keeps off the outermost
    /// cells of the grid.
    pub open spec fn admissible(self, room: Rect) -> bool {
        &&& odd(room.0 as int)
        &&& odd(room.1 as int)
        &&& odd(room.2 as int)
        &&& odd(room.3 as int)
        &&& room.2 >= 3
        &&& room.3 >= 3
        &&& 1 <= room.0
        &&& 1 <= room.1
        &&& room.0 + room.2 <= self.width - 1
        &&& room.1 + room.3 <= self.height - 1
    }

    /// Whether `(x, y)` is one of the outermost cells of the grid.
    pub open spec fn on_border(self, x: int, y: int) -> bool {
        self.inside(x, y) && (x == 0 || y == 0 || x == self.width - 1 || y == self.height - 1)
    }

    /// What holds of a dungeon at all times: the outermost cells are wall,
    /// every room is admissible and all floor, and any two rooms are
    /// separated.
    pub open spec fn wf(self) -> bool {
        &&& self.sized()
        &&& forall|x: int, y: int| self.on_border(x, y) ==> #[trigger] self.tile(x, y) == Tile::Wall
        &&& forall|k: int| 0 <= k < self.rooms.len() ==> self.admissible(#[trigger] self.rooms[k])
        &&& forall|j: int, k: int|
            0 <= j < k < self.rooms.len() ==> (#[trigger] self.rooms[j]).separated(
                #[trigger] self.rooms[k],
            )
        &&& forall|k: int, x: int, y: int|
            0 <= k < self.rooms.len() && #[trigger] self.rooms[k].covers(x, y) ==> self.tile(x, y)
                == Tile::Floor
    }

    /// Nothing has been carved yet but the rooms.
    pub open spec fn bare(self) -> bool {
        forall|x: int, y: int| !self.in_room(x, y) ==> #[trigger] self.tile(x, y) == Tile::Wall
    }

    /// There is no room and every tile is wall.
    pub open spec fn blank(self) -> bool {
        self.rooms.len() == 0 && forall|x: int, y: int| #[trigger] self.tile(x, y) == Tile::Wall
    }

    /// There is no door.
    pub open spec fn doorless(self) -> bool {
        forall|x: int, y: int| #[trigger] self.tile(x, y) != Tile::Door
    }

    /// The number of floor cells among the four neighbors of `(x, y)`.
    pub open spec fn floor_neighbors(self, x: int, y: int) -> int {
        self.floor_at(x, y - 1) + self.floor_at(x, y + 1) + self.floor_at(x + 1, y) + self.floor_at(
            x - 1,
            y,
        )
    }

    /// One if `(x, y)` is floor, else zero.
    pub open spec fn floor_at(self, x: int, y: int) -> int {
        if self.tile(x, y) == Tile::Floor {
            1
        } else {
            0
        }
    }

    /// Whether one of the four neighbors of `(x, y)` is a door.
    pub open spec fn door_neighbor(self, x: int, y: int) -> bool {
        ||| self.tile(x, y - 1) == Tile::Door
        ||| self.tile(x, y + 1) == Tile::Door
        ||| self.tile(x + 1, y) == Tile::Door
        ||| self.tile(x - 1, y) == Tile::Door
    }
}

/// How many of the tiles are of the given kind.
pub open spec fn count_of(tiles: Seq<Tile>, kind: Tile) -> nat
    decreases tiles.len(),
{
    if tiles.len() == 0 {
        0
    } else {
        count_of(tiles.drop_last(), kind) + if tiles.last() == kind {
            1nat
        } else {
            0nat
        }
    }
}

/// One if the tile is of the given kind, else zero.
pub open spec fn one_if(tile: Tile, kind: Tile) -> int {
    if tile == kind {
        1
    } else {
        0
    }
}

/// Replacing a tile takes one from the count of its kind and adds one to the
/// count of the kind of the tile that replaces it.
pub proof fn lemma_count_update(tiles: Seq<Tile>, i: int, tile: Tile, kind: Tile)
    requires
        0 <= i < tiles.len(),
    ensures
        count_of(tiles.update(i, tile), kind) + one_if(tiles[i], kind) == count_of(tiles, kind)
            + one_if(tile, kind),
    decreases tiles.len(),
{
    let after = tiles.update(i, tile);
    if i == tiles.len() - 1 {
        assert(after.drop_last() =~= tiles.drop_last());
    } else {
        assert(after.drop_last() =~= tiles.drop_last().update(i, tile));
        lemma_count_update(tiles.drop_last(), i, tile, kind);
    }
}

/// Replacing one tile changes the tile at that cell and at no other.
pub proof fn lemma_with_tile(g: Grid, x: int, y: int, tile: Tile)
    requires
        g.sized(),
        g.inside(x, y),
    ensures
        g.with_tile(x, y, tile).sized(),
        forall|a: int, b: int| #[trigger]
            g.with_tile(x, y, tile).tile(a, b) == if a == x && b == y {
                tile
            } else {
                g.tile(a, b)
            },
{
    let h = g.with_tile(x, y, tile);
    lemma_offset(g.width, g.height, x, y);
    assert forall|a: int, b: int| #[trigger] h.tile(a, b) == if a == x && b == y {
        tile
    } else {
        g.tile(a, b)
    } by {
        if g.inside(a, b) {
            lemma_offset(g.width, g.height, a, b);
        }
    }
}

/// Grids with the same rooms have the same cells in rooms.
pub proof fn lemma_same_rooms(g: Grid, h: Grid)
    requires
        g.rooms == h.rooms,
    ensures
        forall|a: int, b: int| #[trigger] g.in_room(a, b) == h.in_room(a, b),
{
    assert forall|a: int, b: int| #[trigger] g.in_room(a, b) == h.in_room(a, b) by {
        if g.in_room(a, b) {
            let k = choose|k: int| 0 <= k < g.rooms.len() && #[trigger] g.rooms[k].covers(a, b);
            assert(h.rooms[k].covers(a, b));
        }
        if h.in_room(a, b) {
            let k = choose|k: int| 0 <= k < h.rooms.len() && #[trigger] h.rooms[k].covers(a, b);
            assert(g.rooms[k].covers(a, b));
        }
    }
}

/// Whether a cell that is a `tile` can be pictured in `color`: walls are
/// dark, doors have the color of doors, and floor is light.
pub open spec fn shows(tile: Tile, color: Color) -> bool {
    match tile {
        Tile::Wall => color == DARK_COLOR,
        Tile::Door => color == DOOR_COLOR,
        Tile::Floor => light(color),
    }
}

/// A dungeon in the making.
pub struct Dungeon {
    image: PPM,
    bounds: Rect,
    cells: Vec<Tile>,
    rooms: Vec<Rect>,
    attempts: i32,
    animate: bool,
    journal: Vec<Event>,
    colors: Ghost<Seq<Color>>,
}

impl View for Dungeon {
    type V = Grid;

    /// The grid of the dungeon: its size, its tiles and its rooms.
    closed spec fn view(&self) -> Grid {
        Grid {
            width: self.bounds.2 as int,
            height: self.bounds.3 as int,
            tiles: self.cells@,
            rooms: self.rooms@,
        }
    }
}

impl Dungeon {
    /// The picture of the dungeon.
    pub closed spec fn picture(&self) -> PPM {
        self.image
    }

    /// The colors in which the cells are pictured, row by row.
    pub closed spec fn colors(&self) -> Seq<Color> {
        self.colors@
    }

    /// The journal: empty unless the dungeon is animated.
    pub closed spec fn log(&self) -> Seq<Event> {
        self.journal@
    }

    /// Whether the dungeon keeps a journal.
    pub closed spec fn animated(&self) -> bool {
        self.animate
    }

    /// How many rooms the placer tries to place.
    pub closed spec fn budget(&self) -> int {
        self.attempts as int
    }

    /// The color in which the cell `(x, y)` is pictured.
    pub open spec fn color_at(&self, x: int, y: int) -> Color {
        self.colors()[offset(self@.width, x, y)]
    }

    /// All floor is pictured in the color of corridors but the floor of the
    /// rooms from the `k`-th on.
    pub open spec fn tinted(&self, k: int) -> bool {
        forall|x: int, y: int|
            self@.inside(x, y) && self@.tile(x, y) == Tile::Floor && (!self@.in_room(x, y)
                || self@.in_rooms_before(k, x, y)) ==> #[trigger] self.color_at(x, y)
                == LIGHT_COLOR
    }

    /// Every cell is pictured in the one color of what it is: walls dark,
    /// floor in the color of corridors, doors in the color of doors.
    pub open spec fn plain(&self) -> bool {
        forall|x: int, y: int|
            self@.inside(x, y) ==> #[trigger] self.color_at(x, y) == match self@.tile(x, y) {
                Tile::Wall => DARK_COLOR,
                Tile::Floor => LIGHT_COLOR,
                Tile::Door => DOOR_COLOR,
            }
    }

    /// Whether every cell that is what it was in `earlier` is pictured in the
    /// color it had there.
    pub open spec fn colors_kept(&self, earlier: &Dungeon) -> bool {
        forall|x: int, y: int|
            self@.inside(x, y) && self@.tile(x, y) == earlier@.tile(x, y) ==> #[trigger] self.color_at(
                x,
                y,
            ) == earlier.color_at(x, y)
    }

    /// The parts of the dungeon fit together: the grid has a valid size,
    /// each cell has a color that shows what it is, corridors have the color
    /// of corridors, the picture is the grid rendered in these colors, and
    /// the journal of an animated dungeon holds every painting that led to
    /// the picture.
    pub closed spec fn sound(&self) -> bool {
        &&& self.bounds.0 == 0
        &&& self.bounds.1 == 0
        &&& self@.sized()
        &&& valid_size(self@.width, self@.height)
        &&& self.attempts > 0
        &&& self.image.wf()
        &&& self.image.spec_width() == pixels_for(self@.width)
        &&& self.image.spec_height() == pixels_for(self@.height)
        &&& self.colors@.len() == self.cells@.len()
        &&& forall|k: int| 0 <= k < self.cells@.len() ==> shows(#[trigger] self.cells@[k], self.colors@[k])
        &&& self.tinted(0)
        &&& self.image@ == rendered(self@.width, self@.height, self.colors@)
        &&& self.animate ==> self.image@ == painted(self@.width, self@.height, self.journal@)
        &&& !self.animate ==> self.journal@.len() == 0
        &&& forall|k: int|
            0 <= k < self.journal@.len() ==> (#[trigger] self.journal@[k] matches Event::Paint(v, _)
                ==> self@.inside(v.0 as int, v.1 as int))
    }

    /// The dungeon is sound and its grid is well formed.
    pub open spec fn wf(&self) -> bool {
        self.sound() && self@.wf()
    }

    /// Whether `other` differs from `self` in nothing but tiles, rooms,
    /// picture and journal.
    pub open spec fn same_settings(&self, other: &Dungeon) -> bool {
        &&& self@.width == other@.width
        &&& self@.height == other@.height
        &&& self.budget() == other.budget()
        &&& self.animated() == other.animated()
    }

    /// Whether the journal of `self` starts with the journal of `earlier`.
    pub open spec fn journal_extends(&self, earlier: &Dungeon) -> bool {
        earlier.log().is_prefix_of(self.log())
    }

    /// How many frames the journal of `self` marks that the journal of
    /// `earlier` did not mark.
    pub open spec fn frames_since(&self, earlier: &Dungeon) -> int {
        count_frames(self.log()) - count_frames(earlier.log())
    }

    /// What soundness says: the sizes are valid, each cell is pictured in a
    /// color that shows what it is, corridors in the color of corridors, the
    /// picture is the grid rendered in these colors, and the journal is empty
    /// unless the dungeon is animated.
    /// To paint what the journal of an animated dungeon holds, in its order,
    /// gives the picture.
    pub proof fn lemma_sound(&self)
        requires
            self.sound(),
        ensures
            self@.sized(),
            valid_size(self@.width, self@.height),
            self.budget() > 0,
            self.picture().wf(),
            self.picture().spec_width() == pixels_for(self@.width),
            self.picture().spec_height() == pixels_for(self@.height),
            self.colors().len() == self@.width * self@.height,
            forall|x: int, y: int|
                self@.inside(x, y) ==> shows(#[trigger] self@.tile(x, y), self.color_at(x, y)),
            self.tinted(0),
            self.picture()@ == rendered(self@.width, self@.height, self.colors()),
            self.animated() ==> self.picture()@ == painted(self@.width, self@.height, self.log()),
            !self.animated() ==> self.log().len() == 0,
            forall|k: int|
                0 <= k < self.log().len() ==> (#[trigger] self.log()[k] matches Event::Paint(v, _)
                    ==> self@.inside(v.0 as int, v.1 as int)),
    {
        assert forall|x: int, y: int| self@.inside(x, y) implies shows(
            #[trigger] self@.tile(x, y),
            self.color_at(x, y),
        ) by {
            lemma_offset(self@.width, self@.height, x, y);
        }
    }

    /// What a pixel of the picture shows: the last column and the last row
    /// are dark, and every other pixel shows the cell to whose footprint it
    /// belongs, pictured in the color of that cell.
    pub proof fn lemma_picture(&self, i: int, j: int)
        requires
            self.sound(),
            self.picture().has(i, j),
        ensures
            self.picture().pixel(i, j) == if i == self@.width * CELL_SIZE || j == self@.height
                * CELL_SIZE {
                DARK_COLOR
            } else {
                pictured(
                    i / (CELL_SIZE as int),
                    j / (CELL_SIZE as int),
                    self.color_at(i / (CELL_SIZE as int), j / (CELL_SIZE as int)),
                    i,
                    j,
                )
            },
            !(i == self@.width * CELL_SIZE || j == self@.height * CELL_SIZE) ==> self@.inside(
                i / (CELL_SIZE as int),
                j / (CELL_SIZE as int),
            ),
    {
        lemma_rendered_pixel(self@.width, self@.height, self.colors(), i, j);
    }

    /// A blank dungeon of the given size: every cell is wall, there is no
    /// room, the picture is dark and the journal is empty. Sizes that are
    /// not valid and a budget that is not positive are refused.
    pub fn new(width: i32, height: i32, attempts: i32, animate: bool) -> (made: Result<
        Dungeon,
        DungeonError,
    >)
        ensures
            made is Ok <==> valid_size(width as int, height as int) && attempts > 0,
            made matches Err(e) ==> e == DungeonError::Configuration,
            made matches Ok(d) ==> {
                &&& d.wf()
                &&& d@.blank()
                &&& d@.width == width
                &&& d@.height == height
                &&& d.budget() == attempts
                &&& d.animated() == animate
                &&& d.log().len() == 0
                &&& d.picture()@ == unpainted(width as int, height as int)
            },
    {
        if width <= 0 || height <= 0 || attempts <= 0 {
            return Err(DungeonError::Configuration);
        }
        if width % 2 == 0 || height % 2 == 0 {
            return Err(DungeonError::Configuration);
        }
        let limit: i32 = (i32::MAX - 1) / CELL_SIZE;
        if width > limit || height > limit {
            proof {
                lemma_too_large(width as int, height as int);
            }
            return Err(DungeonError::Configuration);
        }
        let pixel_width: i32 = width * CELL_SIZE + 1;
        let pixel_height: i32 = height * CELL_SIZE + 1;
        assert(0 < pixel_width * pixel_height <= 0x4000_0000_0000_0000) by (nonlinear_arith)
            requires
                0 < pixel_width <= 0x8000_0000,
                0 < pixel_height <= 0x8000_0000,
        ;
        if pixel_width as i64 * pixel_height as i64 > i32::MAX as i64 {
            return Err(DungeonError::Configuration);
        }
        assert(0 < width * height <= pixel_width * pixel_height) by (nonlinear_arith)
            requires
                0 < width <= pixel_width,
                0 < height <= pixel_height,
        ;
        let image = PPM::new(pixel_width, pixel_height, DARK_COLOR);
        let count = (width * height) as usize;
        let mut cells: Vec<Tile> = Vec::new();
        let mut k: usize = 0;
        while k < count
            invariant
                k <= count,
                cells@.len() == k,
                forall|n: int| 0 <= n < k ==> cells@[n] == Tile::Wall,
            decreases count - k,
        {
            cells.push(Tile::Wall);
            k += 1;
        }
        let ghost colors = Seq::new(count as nat, |k: int| DARK_COLOR);
        let made = Dungeon {
            image,
            bounds: Rect(0, 0, width, height),
            cells,
            rooms: Vec::new(),
            attempts,
            animate,
            journal: Vec::new(),
            colors: Ghost(colors),
        };
        proof {
            assert forall|x: int, y: int| #[trigger] made@.tile(x, y) == Tile::Wall by {
                if made@.inside(x, y) {
                    lemma_offset(width as int, height as int, x, y);
                }
            }
            assert(made.image@ =~= unpainted(width as int, height as int));
            lemma_unpainted_rendered(width as int, height as int, colors);
            assert(made.tinted(0));
        }
        Ok(made)
    }

    /// The width of the grid, in cells.
    pub fn width(&self) -> (width: i32)
        ensures
            width == self@.width,
    {
        self.bounds.2
    }

    /// The height of the grid, in cells.
    pub fn height(&self) -> (height: i32)
        ensures
            height == self@.height,
    {
        self.bounds.3
    }

    /// How many rooms the placer tries to place.
    pub fn attempts(&self) -> (attempts: i32)
        ensures
            attempts == self.budget(),
    {
        self.attempts
    }

    /// Whether the dungeon keeps a journal.
    pub fn animate(&self) -> (animate: bool)
        ensures
            animate == self.animated(),
    {
        self.animate
    }

    /// The rooms, in the order in which they were accepted.
    pub fn rooms(&self) -> (rooms: &Vec<Rect>)
        ensures
            rooms@ == self@.rooms,
    {
        &self.rooms
    }

    /// The picture of the dungeon as it stands.
    pub fn image(&self) -> (image: &PPM)
        ensures
            *image == self.picture(),
    {
        &self.image
    }

    /// The journal of the dungeon as it stands.
    pub fn journal(&self) -> (journal: &Vec<Event>)
        ensures
            journal@ == self.log(),
    {
        &self.journal
    }

    /// Whether `v` is a cell of the grid.
    pub fn in_bounds(&self, v: Vec2D) -> (inside: bool)
        requires
            self.sound(),
        ensures
            inside == self@.inside(v.0 as int, v.1 as int),
    {
        self.bounds.contains(v)
    }

    /// The tile at the cell `v`.
    pub fn get_tile(&self, v: Vec2D) -> (tile: Tile)
        requires
            self.sound(),
            self@.inside(v.0 as int, v.1 as int),
        ensures
            tile == self@.tile(v.0 as int, v.1 as int),
    {
        let Vec2D(x, y) = v;
        proof {
            lemma_offset(self@.width, self@.height, x as int, y as int);
            lemma_pixels_bound(self@.width, self@.height);
        }
        self.cells[(y * self.bounds.width() + x) as usize]
    }

    /// Paints on `canvas` what the entry `k` of the journal holds, and says
    /// whether the entry marks a frame. A canvas that shows what the entries
    /// before `k` painted shows afterwards what the entries up to `k`
    /// painted.
    pub fn replay(&self, canvas: &mut PPM, k: usize) -> (frame: bool)
        requires
            self.sound(),
            k < self.log().len(),
            old(canvas).wf(),
            old(canvas).spec_width() == pixels_for(self@.width),
            old(canvas).spec_height() == pixels_for(self@.height),
        ensures
            final(canvas).wf(),
            final(canvas).spec_width() == old(canvas).spec_width(),
            final(canvas).spec_height() == old(canvas).spec_height(),
            frame == (self.log()[k as int] is Frame),
            final(canvas)@ == match self.log()[k as int] {
                Event::Paint(v, color) => paint(
                    old(canvas)@,
                    pixels_for(self@.width),
                    v.0 as int,
                    v.1 as int,
                    color,
                ),
                Event::Frame => old(canvas)@,
            },
            old(canvas)@ == painted(self@.width, self@.height, self.log().take(k as int))
                ==> final(canvas)@ == painted(self@.width, self@.height, self.log().take(k + 1)),
    {
        proof {
            let done = self.log().take(k + 1);
            assert(done.drop_last() =~= self.log().take(k as int));
            assert(done.last() == self.log()[k as int]);
        }
        match self.journal[k] {
            Event::Paint(v, color) => {
                paint_cell(canvas, v, color);
                false
            },
            Event::Frame => true,
        }
    }

    /// Makes the cell `v` a `tile` and pictures it in `color`: a border in a
    /// darker shade along the top and the left of its footprint, the color
    /// itself on the rest. An animated dungeon notes the painting in its
    /// journal.
    pub(crate) fn carve_cell(&mut self, v: Vec2D, color: Color, tile: Tile)
        requires
            old(self).sound(),
            old(self)@.inside(v.0 as int, v.1 as int),
            shows(tile, color),
            tile == Tile::Floor && color != LIGHT_COLOR ==> old(self)@.in_room(v.0 as int, v.1 as int),
        ensures
            final(self).sound(),
            final(self).same_settings(old(self)),
            final(self)@ == old(self)@.with_tile(v.0 as int, v.1 as int, tile),
            final(self)@.rooms == old(self)@.rooms,
            forall|a: int, b: int| #[trigger]
                final(self)@.tile(a, b) == if a == v.0 && b == v.1 {
                    tile
                } else {
                    old(self)@.tile(a, b)
                },
            final(self).colors() == old(self).colors().update(
                offset(old(self)@.width, v.0 as int, v.1 as int),
                color,
            ),
            forall|a: int, b: int|
                old(self)@.inside(a, b) ==> #[trigger] final(self).color_at(a, b) == if a == v.0 && b
                    == v.1 {
                    color
                } else {
                    old(self).color_at(a, b)
                },
            final(self).picture()@ == paint(
                old(self).picture()@,
                pixels_for(old(self)@.width),
                v.0 as int,
                v.1 as int,
                color,
            ),
            final(self).log() == if old(self).animated() {
                old(self).log().push(Event::Paint(v, color))
            } else {
                old(self).log()
            },
            final(self).journal_extends(old(self)),
            final(self).frames_since(old(self)) == 0,
    {
        let Vec2D(x, y) = v;
        let ghost g0 = self@;
        let ghost at = offset(g0.width, x as int, y as int);
        proof {
            lemma_with_tile(g0, x as int, y as int, tile);
            lemma_pixels_bound(g0.width, g0.height);
            lemma_offset(g0.width, g0.height, x as int, y as int);
            lemma_paint_rendered(g0.width, g0.height, self.colors@, x as int, y as int, color);
        }
        let width = self.bounds.width();
        self.cells.set((y * width + x) as usize, tile);
        paint_cell(&mut self.image, v, color);
        proof {
            self.colors@ = self.colors@.update(at, color);
        }
        if self.animate {
            self.journal.push(Event::Paint(v, color));
            proof {
                let log = self.journal@;
                assert(log.drop_last() =~= old(self).journal@);
                assert(log.last() == Event::Paint(v, color));
                assert forall|k: int| 0 <= k < log.len() implies (#[trigger] log[k] matches Event::Paint(
                    w,
                    _,
                ) ==> self@.inside(w.0 as int, w.1 as int)) by {
                    if k < log.len() - 1 {
                        assert(log[k] == old(self).journal@[k]);
                    }
                }
            }
        }
        proof {
            assert forall|a: int, b: int| g0.inside(a, b) implies #[trigger] self.color_at(a, b)
                == if a == v.0 && b == v.1 {
                color
            } else {
                old(self).color_at(a, b)
            } by {
                lemma_offset(g0.width, g0.height, a, b);
            }
            assert forall|a: int, b: int|
                self@.inside(a, b) && self@.tile(a, b) == Tile::Floor && (!self@.in_room(a, b)
                    || self@.in_rooms_before(0, a, b)) implies #[trigger] self.color_at(a, b)
                == LIGHT_COLOR by {
                assert(!self@.in_rooms_before(0, a, b));
                lemma_same_rooms(self@, g0);
                let was = old(self).color_at(a, b);
                let tile_was = g0.tile(a, b);
            }
        }
    }

    /// Turns the cell `v` back into wall.
    pub(crate) fn fill_cell(&mut self, v: Vec2D)
        requires
            old(self).sound(),
            old(self)@.inside(v.0 as int, v.1 as int),
        ensures
            final(self).sound(),
            final(self).same_settings(old(self)),
            final(self)@ == old(self)@.with_tile(v.0 as int, v.1 as int, Tile::Wall),
            final(self)@.rooms == old(self)@.rooms,
            forall|a: int, b: int| #[trigger]
                final(self)@.tile(a, b) == if a == v.0 && b == v.1 {
                    Tile::Wall
                } else {
                    old(self)@.tile(a, b)
                },
            forall|a: int, b: int|
                old(self)@.inside(a, b) ==> #[trigger] final(self).color_at(a, b) == if a == v.0 && b
                    == v.1 {
                    DARK_COLOR
                } else {
                    old(self).color_at(a, b)
                },
            final(self).journal_extends(old(self)),
            final(self).frames_since(old(self)) == 0,
    {
        self.carve_cell(v, DARK_COLOR, Tile::Wall);
    }

    /// Makes the cell `v` corridor floor.
    pub(crate) fn carve_floor(&mut self, v: Vec2D)
        requires
            old(self).sound(),
            old(self)@.inside(v.0 as int, v.1 as int),
        ensures
            final(self).sound(),
            final(self).same_settings(old(self)),
            final(self)@ == old(self)@.with_tile(v.0 as int, v.1 as int, Tile::Floor),
            final(self)@.rooms == old(self)@.rooms,
            forall|a: int, b: int| #[trigger]
                final(self)@.tile(a, b) == if a == v.0 && b == v.1 {
                    Tile::Floor
                } else {
                    old(self)@.tile(a, b)
                },
            forall|a: int, b: int|
                old(self)@.inside(a, b) ==> #[trigger] final(self).color_at(a, b) == if a == v.0 && b
                    == v.1 {
                    LIGHT_COLOR
                } else {
                    old(self).color_at(a, b)
                },
            final(self).journal_extends(old(self)),
            final(self).frames_since(old(self)) == 0,
    {
        self.carve_cell(v, LIGHT_COLOR, Tile::Floor);
    }

    /// Makes the cell `v` a door.
    pub(crate) fn carve_door(&mut self, v: Vec2D)
        requires
            old(self).sound(),
            old(self)@.inside(v.0 as int, v.1 as int),
        ensures
            final(self).sound(),
            final(self).same_settings(old(self)),
            final(self)@ == old(self)@.with_tile(v.0 as int, v.1 as int, Tile::Door),
            final(self)@.rooms == old(self)@.rooms,
            forall|a: int, b: int| #[trigger]
                final(self)@.tile(a, b) == if a == v.0 && b == v.1 {
                    Tile::Door
                } else {
                    old(self)@.tile(a, b)
                },
            forall|a: int, b: int|
                old(self)@.inside(a, b) ==> #[trigger] final(self).color_at(a, b) == if a == v.0 && b
                    == v.1 {
                    DOOR_COLOR
                } else {
                    old(self).color_at(a, b)
                },
            final(self).journal_extends(old(self)),
            final(self).frames_since(old(self)) == 0,
    {
        self.carve_cell(v, DOOR_COLOR, Tile::Door);
    }

    /// Adds `room` to the end of the list of rooms.
    pub(crate) fn add_room(&mut self, room: Rect)
        requires
            old(self).sound(),
        ensures
            final(self).sound(),
            final(self).same_settings(old(self)),
            final(self)@ == old(self)@.with_room(room),
            final(self).picture() == old(self).picture(),
            final(self).colors() == old(self).colors(),
            forall|x: int, y: int| #[trigger] final(self).color_at(x, y) == old(self).color_at(x, y),
            final(self).log() == old(self).log(),
    {
        self.rooms.push(room);
        proof {
            let g0 = old(self)@;
            assert forall|a: int, b: int|
                self@.inside(a, b) && self@.tile(a, b) == Tile::Floor && (!self@.in_room(a, b)
                    || self@.in_rooms_before(0, a, b)) implies #[trigger] self.color_at(a, b)
                == LIGHT_COLOR by {
                assert(!self@.in_rooms_before(0, a, b));
                if g0.in_room(a, b) {
                    let k = choose|k: int|
                        0 <= k < g0.rooms.len() && #[trigger] g0.rooms[k].covers(a, b);
                    assert(self@.rooms[k].covers(a, b));
                }
                let was = old(self).color_at(a, b);
                let tile_was = g0.tile(a, b);
            }
        }
    }

    /// Marks a frame of the animation: an animated dungeon notes in its
    /// journal that the picture as it stands is to be shown.
    pub(crate) fn snapshot(&mut self)
        requires
            old(self).sound(),
        ensures
            final(self).sound(),
            final(self).same_settings(old(self)),
            final(self)@ == old(self)@,
            final(self).picture() == old(self).picture(),
            final(self).colors() == old(self).colors(),
            forall|x: int, y: int| #[trigger] final(self).color_at(x, y) == old(self).color_at(x, y),
            final(self).log() == if old(self).animated() {
                old(self).log().push(Event::Frame)
            } else {
                old(self).log()
            },
            final(self).journal_extends(old(self)),
            final(self).frames_since(old(self)) == if old(self).animated() {
                1int
            } else {
                0int
            },
    {
        proof {
            assert forall|a: int, b: int| #[trigger] self.color_at(a, b) == old(self).color_at(a, b) by {}
        }
        if self.animate {
            self.journal.push(Event::Frame);
            proof {
                let log = self.journal@;
                assert(log.drop_last() =~= old(self).journal@);
                assert forall|a: int, b: int|
                    self@.inside(a, b) && self@.tile(a, b) == Tile::Floor && (!self@.in_room(a, b)
                        || self@.in_rooms_before(0, a, b)) implies #[trigger] self.color_at(a, b)
                    == LIGHT_COLOR by {
                    let was = old(self).color_at(a, b);
                }
                assert forall|k: int| 0 <= k < log.len() implies (#[trigger] log[k] matches Event::Paint(
                    w,
                    _,
                ) ==> self@.inside(w.0 as int, w.1 as int)) by {
                    if k < log.len() - 1 {
                        assert(log[k] == old(self).journal@[k]);
                    }
                }
            }
        }
    }
}

/// A grid that is too wide or too high for its picture to have an `i32`
/// number of columns or rows has no valid size.
proof fn lemma_too_large(width: int, height: int)
    requires
        width > 0,
        height > 0,
        width > (i32::MAX - 1) / (CELL_SIZE as int) || height > (i32::MAX - 1) / (
        CELL_SIZE as int),
    ensures
        !valid_size(width, height),
{
    let pw = pixels_for(width);
    let ph = pixels_for(height);
    assert(pw * ph > i32::MAX) by (nonlinear_arith)
        requires
            pw > 0,
            ph > 0,
            pw > i32::MAX || ph > i32::MAX,
    ;
}

} // verus!
