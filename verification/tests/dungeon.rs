use dungeon_generator::connectors::is_edge_and_not_corner;
use dungeon_generator::picture::{paint_cell, CELL_SIZE, DARK_COLOR, DOOR_COLOR, LIGHT_COLOR};
use dungeon_generator::mask::CellMask;
use dungeon_generator::maze::{ahead, has_direction, straight_on, winds};
use dungeon_generator::ppm::darker;
use dungeon_generator::rooms::{light_color, room_at, room_shape};
use dungeon_generator::{Direction, Dungeon, DungeonError, Event, Rect, Tile, Vec2D, PPM};
use rand::rngs::StdRng;
use rand::SeedableRng;

fn rng(seed: u64) -> StdRng {
    StdRng::seed_from_u64(seed)
}

fn blank(width: i32, height: i32) -> Dungeon {
    match Dungeon::new(width, height, 50, false) {
        Ok(d) => d,
        Err(e) => panic!("no dungeon of {} by {}: {:?}", width, height, e),
    }
}

fn tiles(d: &Dungeon) -> Vec<Tile> {
    let mut all = Vec::new();
    for y in 0..d.height() {
        for x in 0..d.width() {
            all.push(d.get_tile(Vec2D(x, y)));
        }
    }
    all
}

fn tile(d: &Dungeon, x: i32, y: i32) -> Tile {
    if 0 <= x && x < d.width() && 0 <= y && y < d.height() {
        d.get_tile(Vec2D(x, y))
    } else {
        Tile::Wall
    }
}

fn in_room(d: &Dungeon, x: i32, y: i32) -> bool {
    d.rooms().iter().any(|r| r.contains(Vec2D(x, y)))
}

fn neighbors(x: i32, y: i32) -> [(i32, i32); 4] {
    [(x, y - 1), (x, y + 1), (x + 1, y), (x - 1, y)]
}

fn count(d: &Dungeon, x: i32, y: i32, kind: Tile) -> usize {
    neighbors(x, y).iter().filter(|&&(a, b)| tile(d, a, b) == kind).count()
}

/// The number of corridor cells, of pairs of corridor cells that share a
/// side, and of connected groups of corridor cells.
fn corridor_graph(d: &Dungeon) -> (usize, usize, usize) {
    let (w, h) = (d.width(), d.height());
    let is_corridor = |x: i32, y: i32| tile(d, x, y) == Tile::Floor && !in_room(d, x, y);
    let mut group: Vec<usize> = (0..(w * h) as usize).collect();
    fn find(group: &mut Vec<usize>, mut i: usize) -> usize {
        while group[i] != i {
            group[i] = group[group[i]];
            i = group[i];
        }
        i
    }
    let (mut cells, mut edges) = (0, 0);
    for y in 0..h {
        for x in 0..w {
            if !is_corridor(x, y) {
                continue;
            }
            cells += 1;
            for (a, b) in [(x + 1, y), (x, y + 1)] {
                if is_corridor(a, b) {
                    edges += 1;
                    let p = find(&mut group, (y * w + x) as usize);
                    let q = find(&mut group, (b * w + a) as usize);
                    group[p] = q;
                }
            }
        }
    }
    let mut groups = 0;
    for y in 0..h {
        for x in 0..w {
            if is_corridor(x, y) && find(&mut group, (y * w + x) as usize) == (y * w + x) as usize {
                groups += 1;
            }
        }
    }
    (cells, edges, groups)
}

fn assert_rooms_separated(d: &Dungeon) {
    let rooms = d.rooms();
    for i in 0..rooms.len() {
        for j in 0..rooms.len() {
            if i != j {
                let gap = rooms[i].distance_to(&rooms[j]);
                assert!(matches!(gap, Some(g) if g >= 1), "{:?} {:?}", rooms[i], rooms[j]);
                for p in rooms[i].points() {
                    for (a, b) in neighbors(p.0, p.1) {
                        assert!(!rooms[j].contains(Vec2D(a, b)));
                    }
                    assert!(!rooms[j].contains(p));
                }
            }
        }
    }
}

fn assert_rooms_admissible(d: &Dungeon) {
    for r in d.rooms() {
        assert!(r.x() % 2 == 1 && r.y() % 2 == 1 && r.width() % 2 == 1 && r.height() % 2 == 1);
        assert!(r.x() >= 1 && r.y() >= 1);
        assert!(r.x() + r.width() <= d.width() - 1 && r.y() + r.height() <= d.height() - 1);
        for p in r.points() {
            assert_eq!(d.get_tile(p), Tile::Floor);
        }
    }
}

fn assert_finished(d: &Dungeon) {
    assert_rooms_separated(d);
    assert_rooms_admissible(d);
    for y in 0..d.height() {
        for x in 0..d.width() {
            let here = tile(d, x, y);
            let border = x == 0 || y == 0 || x == d.width() - 1 || y == d.height() - 1;
            if border {
                assert_eq!(here, Tile::Wall);
            }
            if here == Tile::Door {
                assert!(!in_room(d, x, y));
                assert!(neighbors(x, y).iter().any(|&(a, b)| in_room(d, a, b)));
                assert!(count(d, x, y, Tile::Floor) + count(d, x, y, Tile::Door) >= 1);
                let at_room_edge = neighbors(x, y).iter().any(|&(a, b)| in_room(d, a, b));
                assert!(count(d, x, y, Tile::Wall) >= 1 || at_room_edge);
            }
            if here == Tile::Floor && !in_room(d, x, y) {
                let floors = count(d, x, y, Tile::Floor);
                let doors = count(d, x, y, Tile::Door);
                assert!(floors != 1 || doors >= 1, "dead end at {} {}", x, y);
            }
        }
    }
    for r in d.rooms() {
        let mut doors = 0;
        for p in r.points() {
            for (a, b) in neighbors(p.0, p.1) {
                if !r.contains(Vec2D(a, b)) && tile(d, a, b) == Tile::Door {
                    doors += 1;
                }
            }
        }
        assert!(doors >= 1, "room {:?} has no door", r);
    }
    let (cells, edges, groups) = corridor_graph(d);
    assert_eq!(edges + groups, cells);
}

#[test]
fn new_makes_a_blank_dungeon() {
    let d = blank(11, 9);
    assert_eq!((d.width(), d.height(), d.attempts(), d.animate()), (11, 9, 50, false));
    assert!(d.rooms().is_empty());
    assert!(d.journal().is_empty());
    assert!(tiles(&d).iter().all(|&t| t == Tile::Wall));
    assert_eq!(d.image().width(), 11 * CELL_SIZE + 1);
    assert_eq!(d.image().height(), 9 * CELL_SIZE + 1);
    assert_eq!(d.image().get(&Vec2D(0, 0)), DARK_COLOR);
    assert_eq!(d.image().get(&Vec2D(11 * CELL_SIZE, 9 * CELL_SIZE)), DARK_COLOR);
}

#[test]
fn new_refuses_even_sizes() {
    assert!(matches!(Dungeon::new(10, 9, 50, false), Err(DungeonError::Configuration)));
    assert!(matches!(Dungeon::new(11, 8, 50, false), Err(DungeonError::Configuration)));
    assert!(matches!(Dungeon::new(0, 9, 50, false), Err(DungeonError::Configuration)));
}

#[test]
fn new_refuses_sizes_and_budgets_that_are_not_positive() {
    assert!(matches!(Dungeon::new(-11, 9, 50, false), Err(DungeonError::Configuration)));
    assert!(matches!(Dungeon::new(11, -9, 50, false), Err(DungeonError::Configuration)));
    assert!(matches!(Dungeon::new(11, 9, 0, false), Err(DungeonError::Configuration)));
    assert!(matches!(Dungeon::new(11, 9, -1, false), Err(DungeonError::Configuration)));
}

#[test]
fn new_refuses_a_picture_with_too_many_pixels() {
    // 6621 * 7 + 1 = 46348, and 46348 * 46348 is more than i32::MAX.
    assert!(matches!(Dungeon::new(6621, 6621, 1, false), Err(DungeonError::Configuration)));
    assert!(matches!(Dungeon::new(i32::MAX, 1, 1, false), Err(DungeonError::Configuration)));
    assert!(matches!(Dungeon::new(1, i32::MAX, 1, false), Err(DungeonError::Configuration)));
    // 306783377 * 7 + 1 = 2147483640, one row of cells: 2147483640 * 8 is too many.
    assert!(matches!(Dungeon::new(306783377, 1, 1, false), Err(DungeonError::Configuration)));
    // 1 by 1 is the smallest dungeon.
    assert!(Dungeon::new(1, 1, 1, false).is_ok());
}

#[test]
fn room_shapes() {
    assert_eq!(room_shape(2, 0, true), (5, 5));
    assert_eq!(room_shape(2, 2, true), (9, 5));
    assert_eq!(room_shape(2, 1, false), (5, 7));
    assert_eq!(room_shape(3, 0, false), (7, 7));
    assert_eq!(room_shape(3, 3, true), (13, 7));
    assert_eq!(room_shape(3, 3, false), (7, 13));
}

#[test]
fn light_colors_are_light_and_vary() {
    let mut rng = rng(1);
    let mut seen = Vec::new();
    for _ in 0..50 {
        let (r, g, b) = light_color(&mut rng);
        for c in [r, g, b] {
            assert!(125 <= c && c <= 255);
            if !seen.contains(&c) {
                seen.push(c);
            }
        }
    }
    assert!(seen.len() > 20);
}

#[test]
fn try_place_accepts_separated_rooms_only() {
    let mut d = blank(21, 21);
    assert!(d.try_place(Rect(1, 1, 5, 5), (200, 200, 200)));
    // overlapping
    assert!(!d.try_place(Rect(3, 3, 5, 5), (200, 200, 200)));
    // one wall cell apart
    assert!(d.try_place(Rect(7, 1, 5, 5), (200, 200, 200)));
    // apart on the right side only
    assert!(d.try_place(Rect(13, 3, 7, 5), (200, 200, 200)));
    assert_eq!(d.rooms(), &vec![Rect(1, 1, 5, 5), Rect(7, 1, 5, 5), Rect(13, 3, 7, 5)]);
    assert_rooms_separated(&d);
    assert_rooms_admissible(&d);
    for y in 0..21 {
        for x in 0..21 {
            let expected = if in_room(&d, x, y) { Tile::Floor } else { Tile::Wall };
            assert_eq!(d.get_tile(Vec2D(x, y)), expected);
        }
    }
}

#[test]
fn a_rejected_room_changes_nothing() {
    let mut d = blank(21, 21);
    assert!(d.try_place(Rect(1, 1, 5, 5), (200, 200, 200)));
    let before = tiles(&d);
    let picture = d.image().encode();
    assert!(!d.try_place(Rect(5, 5, 5, 5), (130, 130, 130)));
    assert_eq!(tiles(&d), before);
    assert_eq!(d.image().encode(), picture);
    assert_eq!(d.rooms().len(), 1);
}

#[test]
fn a_room_is_pictured_in_its_color() {
    let mut d = blank(11, 9);
    let color = (200, 150, 130);
    assert!(d.try_place(Rect(1, 1, 5, 5), color));
    let s = CELL_SIZE;
    // the border of the cell (1, 1) is darker, its inside has the color
    assert_eq!(d.image().get(&Vec2D(s, s)), darker(color, 70));
    assert_eq!(d.image().get(&Vec2D(s + 3, s)), (140, 105, 91));
    assert_eq!(d.image().get(&Vec2D(s, s + 3)), (140, 105, 91));
    assert_eq!(d.image().get(&Vec2D(s + 1, s + 1)), color);
    assert_eq!(d.image().get(&Vec2D(2 * s - 1, 2 * s - 1)), color);
    // the cell (0, 0) and the cell (6, 1) are untouched
    assert_eq!(d.image().get(&Vec2D(s - 1, s - 1)), DARK_COLOR);
    assert_eq!(d.image().get(&Vec2D(6 * s, s)), DARK_COLOR);
}

#[test]
fn gen_rectangle_draws_admissible_rooms_of_all_shapes() {
    let d = blank(31, 25);
    let mut rng = rng(3);
    let mut widths = Vec::new();
    let mut corners = Vec::new();
    for _ in 0..300 {
        let room = d.gen_rectangle(&mut rng).unwrap();
        assert!(room.x() % 2 == 1 && room.y() % 2 == 1);
        assert!(room.width() % 2 == 1 && room.height() % 2 == 1);
        assert!(5 <= room.width() && room.width() <= 13);
        assert!(5 <= room.height() && room.height() <= 13);
        assert!(room.width() <= 7 || room.height() <= 7);
        assert!(room.x() >= 1 && room.x() + room.width() <= 30);
        assert!(room.y() >= 1 && room.y() + room.height() <= 24);
        if !widths.contains(&room.width()) {
            widths.push(room.width());
        }
        if !corners.contains(&(room.x(), room.y())) {
            corners.push((room.x(), room.y()));
        }
    }
    widths.sort();
    assert_eq!(widths, vec![5, 7, 9, 11, 13]);
    assert!(corners.len() > 20);
}

#[test]
fn gen_rectangle_on_a_small_grid_gives_what_fits_or_nothing() {
    let d = blank(7, 7);
    let mut rng = rng(5);
    let mut some = 0;
    for _ in 0..100 {
        match d.gen_rectangle(&mut rng) {
            Some(room) => {
                assert_eq!(room, Rect(1, 1, 5, 5));
                some += 1;
            }
            None => {}
        }
    }
    assert!(some > 0 && some < 100);
    let d = blank(5, 5);
    for _ in 0..100 {
        assert_eq!(d.gen_rectangle(&mut rng), None);
    }
}

#[test]
fn draw_rooms_keeps_rooms_separated() {
    for seed in 0..20 {
        let mut d = match Dungeon::new(41, 31, 200, false) {
            Ok(d) => d,
            Err(_) => unreachable!(),
        };
        d.draw_rooms(&mut rng(seed));
        assert!(d.rooms().len() >= 2);
        assert!(d.rooms().len() <= 200);
        assert_rooms_separated(&d);
        assert_rooms_admissible(&d);
        for y in 0..d.height() {
            for x in 0..d.width() {
                assert_eq!(tile(&d, x, y) == Tile::Floor, in_room(&d, x, y));
            }
        }
    }
}

#[test]
fn steps_ahead() {
    assert_eq!(ahead(Vec2D(5, 5), Direction::N, 1), Vec2D(5, 4));
    assert_eq!(ahead(Vec2D(5, 5), Direction::S, 2), Vec2D(5, 7));
    assert_eq!(ahead(Vec2D(5, 5), Direction::E, 3), Vec2D(8, 5));
    assert_eq!(ahead(Vec2D(5, 5), Direction::W, 0), Vec2D(5, 5));
    assert_eq!(ahead(Vec2D(1, 0), Direction::W, 3), Vec2D(-2, 0));
}

#[test]
fn straight_on_needs_an_open_last_direction() {
    let open = vec![Direction::S, Direction::W];
    assert!(has_direction(&open, Direction::W));
    assert!(!has_direction(&open, Direction::N));
    assert_eq!(straight_on(Some(Direction::S), &open), Some(Direction::S));
    assert_eq!(straight_on(Some(Direction::E), &open), None);
    assert_eq!(straight_on(None, &open), None);
    assert_eq!(straight_on(Some(Direction::S), &Vec::new()), None);
}

#[test]
fn open_directions_look_two_and_three_steps_ahead() {
    let mut d = blank(7, 5);
    d.carve_start(Vec2D(1, 1));
    // north and west leave the grid, south has no margin: 1 + 3 = 4 is the last row
    assert!(!d.can_cell_be_carved(&Vec2D(1, 1), &Direction::N));
    assert!(!d.can_cell_be_carved(&Vec2D(1, 1), &Direction::W));
    assert!(d.can_cell_be_carved(&Vec2D(1, 1), &Direction::S));
    assert!(d.can_cell_be_carved(&Vec2D(1, 1), &Direction::E));
    assert_eq!(d.open_directions(&Vec2D(1, 1)), vec![Direction::S, Direction::E]);
    let target = d.carve_passage(Vec2D(1, 1), Direction::E);
    assert_eq!(target, Vec2D(3, 1));
    assert_eq!(d.open_directions(&Vec2D(3, 1)), vec![Direction::S, Direction::E]);
    assert_eq!(d.open_directions(&Vec2D(1, 1)), vec![Direction::S]);
    let d = blank(3, 3);
    assert_eq!(d.open_directions(&Vec2D(1, 1)), Vec::new());
}

#[test]
fn carve_passage_carves_two_cells() {
    let mut d = blank(7, 7);
    d.carve_start(Vec2D(3, 3));
    let target = d.carve_passage(Vec2D(3, 3), Direction::S);
    assert_eq!(target, Vec2D(3, 5));
    for y in 0..7 {
        for x in 0..7 {
            let expected = if x == 3 && 3 <= y && y <= 5 { Tile::Floor } else { Tile::Wall };
            assert_eq!(d.get_tile(Vec2D(x, y)), expected);
        }
    }
    assert_eq!(d.image().get(&Vec2D(3 * CELL_SIZE + 1, 4 * CELL_SIZE + 1)), LIGHT_COLOR);
}

#[test]
fn fill_maze_fills_the_lattice_without_cycles() {
    for seed in 0..20 {
        let mut d = blank(31, 21);
        let mut rng = rng(seed);
        d.draw_rooms(&mut rng);
        let rooms = d.rooms().clone();
        d.fill_maze(&mut rng);
        assert_eq!(d.rooms(), &rooms);
        for y in 0..d.height() {
            for x in 0..d.width() {
                let here = tile(&d, x, y);
                assert_ne!(here, Tile::Door);
                if x % 2 == 1 && y % 2 == 1 {
                    assert_eq!(here, Tile::Floor);
                }
                if x % 2 == 0 && y % 2 == 0 && !in_room(&d, x, y) {
                    assert_eq!(here, Tile::Wall);
                }
                if x == 0 || y == 0 || x == d.width() - 1 || y == d.height() - 1 {
                    assert_eq!(here, Tile::Wall);
                }
                if here == Tile::Floor && !in_room(&d, x, y) {
                    for (a, b) in neighbors(x, y) {
                        assert!(!in_room(&d, a, b));
                    }
                }
            }
        }
        // a forest has as many cells as it has edges and trees together
        let (cells, edges, groups) = corridor_graph(&d);
        assert!(cells > 0);
        assert_eq!(edges + groups, cells);
    }
}

#[test]
fn a_maze_without_rooms_is_one_tree() {
    let mut d = blank(15, 11);
    d.fill_maze(&mut rng(11));
    let (cells, edges, groups) = corridor_graph(&d);
    assert_eq!(groups, 1);
    // 7 by 5 lattice cells and one cell for each of the 34 passages
    assert_eq!(cells, 35 + 34);
    assert_eq!(edges, 68);
}

#[test]
fn corridors_run_straight_where_they_can() {
    // Nothing winds: from the first cell the corridor goes on in the
    // direction it took until it can go no further.
    let mut d = blank(15, 11);
    d.do_fill_maze(Vec2D(1, 1), &mut rng(2));
    let east = (1..14).all(|x| tile(&d, x, 1) == Tile::Floor);
    let south = (1..10).all(|y| tile(&d, 1, y) == Tile::Floor);
    assert!(east || south);
}

#[test]
fn different_seeds_give_different_mazes() {
    // Corridors rarely wind, so that many seeds give the same maze; but the
    // first step alone is drawn from two directions.
    let mut seen: Vec<Vec<Tile>> = Vec::new();
    for seed in 0..40 {
        let mut d = blank(15, 11);
        d.fill_maze(&mut rng(seed));
        let all = tiles(&d);
        if !seen.contains(&all) {
            seen.push(all);
        }
    }
    assert!(seen.len() >= 2);
}

#[test]
fn the_same_seed_gives_the_same_dungeon() {
    let mut a = blank(31, 21);
    let mut b = blank(31, 21);
    let ra = a.generate(&mut rng(42));
    let rb = b.generate(&mut rng(42));
    assert_eq!(ra, rb);
    assert_eq!(tiles(&a), tiles(&b));
    assert_eq!(a.rooms(), b.rooms());
    assert_eq!(a.image().encode(), b.image().encode());
}

#[test]
fn edges_and_corners() {
    let room = Rect(1, 1, 5, 3);
    let side = |x, y| is_edge_and_not_corner(&room, &Vec2D(x, y));
    assert_eq!(side(1, 1), None);
    assert_eq!(side(5, 1), None);
    assert_eq!(side(1, 3), None);
    assert_eq!(side(5, 3), None);
    assert_eq!(side(2, 1), Some((Vec2D(2, 1), Direction::N)));
    assert_eq!(side(4, 1), Some((Vec2D(4, 1), Direction::N)));
    assert_eq!(side(3, 3), Some((Vec2D(3, 3), Direction::S)));
    assert_eq!(side(1, 2), Some((Vec2D(1, 2), Direction::W)));
    assert_eq!(side(5, 2), Some((Vec2D(5, 2), Direction::E)));
    assert_eq!(side(3, 2), None);
    assert_eq!(side(0, 2), None);
}

#[test]
fn connectors_lie_between_a_room_and_floor() {
    let mut d = blank(11, 9);
    assert!(d.try_place(Rect(1, 1, 5, 5), (200, 200, 200)));
    assert_eq!(d.connectors_of(&Rect(1, 1, 5, 5)), Vec::new());
    d.carve_start(Vec2D(7, 1));
    d.carve_passage(Vec2D(7, 1), Direction::S);
    d.carve_passage(Vec2D(7, 3), Direction::S);
    d.carve_passage(Vec2D(7, 5), Direction::S);
    d.carve_passage(Vec2D(7, 7), Direction::W);
    // The corridor runs down the column 7 and along the row 7 to the column 5.
    // On the east side the cells (6, 2), (6, 3), (6, 4) connect, on the south
    // side only (5, 6) is beside the corner, which does not count, so no cell
    // of the row 6 connects but those under the cells 2 to 4 that see floor
    // two steps out: none, since the corridor ends at the column 5.
    assert_eq!(
        d.connectors_of(&Rect(1, 1, 5, 5)),
        vec![Vec2D(6, 2), Vec2D(6, 3), Vec2D(6, 4)]
    );
    d.carve_passage(Vec2D(5, 7), Direction::W);
    assert_eq!(
        d.connectors_of(&Rect(1, 1, 5, 5)),
        vec![Vec2D(6, 2), Vec2D(6, 3), Vec2D(6, 4), Vec2D(3, 6), Vec2D(4, 6)]
    );
}

#[test]
fn a_connector_needs_the_grid_three_steps_out() {
    // The room is one cell off the east border: two steps out is column 8,
    // the border itself, which is never floor; nothing connects there.
    let mut d = blank(9, 9);
    assert!(d.try_place(Rect(3, 1, 5, 5), (200, 200, 200)));
    d.fill_maze(&mut rng(0));
    let spots = d.connectors_of(&Rect(3, 1, 5, 5));
    assert!(!spots.is_empty());
    for c in spots.iter() {
        assert!(c.0 == 2 || c.1 == 6, "{:?}", c);
        assert_eq!(d.get_tile(*c), Tile::Wall);
    }
}

#[test]
fn connect_room_opens_a_free_connector_and_claims_all() {
    let mut opened: Vec<Vec2D> = Vec::new();
    for seed in 0..40 {
        let mut d = blank(11, 9);
        assert!(d.try_place(Rect(1, 1, 5, 5), (200, 200, 200)));
        d.fill_maze(&mut rng(seed));
        let room = Rect(1, 1, 5, 5);
        let spots = d.connectors_of(&room);
        assert!(spots.len() >= 2);
        let mut claimed = CellMask::new(11, 9);
        claimed.mark(spots[0]);
        let before = tiles(&d);
        let door = d.connect_room(&room, &spots, &mut claimed, &mut rng(seed)).unwrap();
        assert!(spots[1..].contains(&door));
        assert_eq!(d.get_tile(door), Tile::Door);
        assert_eq!(d.get_tile(spots[0]), Tile::Wall);
        for c in spots.iter() {
            assert!(claimed.is_marked(*c));
        }
        let after = tiles(&d);
        for y in 0..9 {
            for x in 0..11 {
                let k = (y * 11 + x) as usize;
                if after[k] != before[k] {
                    assert_eq!(after[k], Tile::Door);
                    assert!(spots[1..].contains(&Vec2D(x, y)));
                }
            }
        }
        // the room was drawn again in the color of corridors
        assert_eq!(d.image().get(&Vec2D(CELL_SIZE + 1, CELL_SIZE + 1)), LIGHT_COLOR);
        assert_eq!(d.image().get(&Vec2D(door.0 * CELL_SIZE + 1, door.1 * CELL_SIZE + 1)), DOOR_COLOR);
        if !opened.contains(&door) {
            opened.push(door);
        }
    }
    assert!(opened.len() >= 3);
}

#[test]
fn connect_room_fails_when_every_connector_is_claimed() {
    let mut d = blank(11, 9);
    assert!(d.try_place(Rect(1, 1, 5, 5), (200, 200, 200)));
    d.fill_maze(&mut rng(9));
    let room = Rect(1, 1, 5, 5);
    let spots = d.connectors_of(&room);
    let mut claimed = CellMask::new(11, 9);
    for c in spots.iter() {
        claimed.mark(*c);
    }
    let before = tiles(&d);
    let done = d.connect_room(&room, &spots, &mut claimed, &mut rng(9));
    assert_eq!(done, Err(DungeonError::UnreachableRoom));
    assert_eq!(tiles(&d), before);
}

#[test]
fn a_room_that_fills_the_grid_cannot_be_reached() {
    let mut d = blank(11, 9);
    assert!(d.try_place(Rect(1, 1, 9, 7), (200, 200, 200)));
    let mut rng = rng(4);
    d.fill_maze(&mut rng);
    assert_eq!(d.connectors_of(&Rect(1, 1, 9, 7)), Vec::new());
    assert_eq!(d.find_connectors(&mut rng), Err(DungeonError::UnreachableRoom));
}

#[test]
fn a_room_whose_connectors_an_earlier_room_claimed_cannot_be_reached() {
    // Two rooms fill a grid of 15 by 9 but for the wall between them: each
    // is the only floor the other sees, through the same five wall cells.
    let mut d = blank(15, 9);
    assert!(d.try_place(Rect(1, 1, 7, 7), (200, 200, 200)));
    assert!(d.try_place(Rect(9, 1, 5, 7), (200, 200, 200)));
    let mut rng = rng(4);
    d.fill_maze(&mut rng);
    let column: Vec<Vec2D> = (2..7).map(|y| Vec2D(8, y)).collect();
    assert_eq!(d.connectors_of(&Rect(1, 1, 7, 7)), column);
    assert_eq!(d.connectors_of(&Rect(9, 1, 5, 7)), column);
    assert_eq!(d.find_connectors(&mut rng), Err(DungeonError::UnreachableRoom));
    // the first room got its door before the second one failed
    let doors = column.iter().filter(|c| d.get_tile(**c) == Tile::Door).count();
    assert!(doors >= 1);
}

#[test]
fn find_connectors_gives_every_room_a_door() {
    let mut reached = 0;
    for seed in 0..30 {
        let mut d = blank(41, 31);
        let mut rng = rng(seed);
        d.draw_rooms(&mut rng);
        d.fill_maze(&mut rng);
        let before = tiles(&d);
        match d.find_connectors(&mut rng) {
            Ok(()) => {
                reached += 1;
                for r in d.rooms() {
                    let doors: usize = r
                        .points()
                        .iter()
                        .map(|p| {
                            neighbors(p.0, p.1)
                                .iter()
                                .filter(|&&(a, b)| {
                                    !r.contains(Vec2D(a, b)) && tile(&d, a, b) == Tile::Door
                                })
                                .count()
                        })
                        .sum();
                    assert!(doors >= 1);
                }
            }
            Err(e) => assert_eq!(e, DungeonError::UnreachableRoom),
        }
        let after = tiles(&d);
        for k in 0..before.len() {
            if after[k] != before[k] {
                assert_eq!(before[k], Tile::Wall);
                assert_eq!(after[k], Tile::Door);
            }
        }
    }
    assert!(reached > 0);
}

#[test]
fn pruning_removes_a_corridor_without_a_door() {
    let mut d = blank(9, 9);
    d.carve_start(Vec2D(1, 1));
    d.carve_passage(Vec2D(1, 1), Direction::E);
    d.carve_passage(Vec2D(3, 1), Direction::S);
    d.carve_passage(Vec2D(3, 3), Direction::E);
    d.remove_dead_ends();
    assert!(tiles(&d).iter().all(|&t| t == Tile::Wall));
    assert_eq!(d.image().get(&Vec2D(CELL_SIZE + 1, CELL_SIZE + 1)), DARK_COLOR);
}

#[test]
fn pruning_keeps_a_lone_cell() {
    // A corridor cell that never had a floor cell beside it is no dead end.
    let mut d = blank(5, 5);
    d.carve_start(Vec2D(1, 1));
    d.remove_dead_ends();
    assert_eq!(d.get_tile(Vec2D(1, 1)), Tile::Floor);
}

#[test]
fn pruning_removes_a_winding_corridor() {
    let mut d = blank(7, 7);
    d.carve_start(Vec2D(1, 1));
    d.carve_passage(Vec2D(1, 1), Direction::E);
    d.carve_passage(Vec2D(3, 1), Direction::E);
    d.carve_passage(Vec2D(5, 1), Direction::S);
    d.carve_passage(Vec2D(5, 3), Direction::W);
    d.carve_passage(Vec2D(3, 3), Direction::W);
    d.carve_passage(Vec2D(1, 3), Direction::S);
    // The corridor is a path with two ends: all of it goes.
    d.remove_dead_ends();
    assert!(tiles(&d).iter().all(|&t| t == Tile::Wall));
}

#[test]
fn pruning_stops_at_the_cell_beside_a_door() {
    let mut d = blank(13, 9);
    assert!(d.try_place(Rect(1, 1, 5, 5), (200, 200, 200)));
    d.carve_start(Vec2D(7, 3));
    d.carve_passage(Vec2D(7, 3), Direction::E);
    d.carve_passage(Vec2D(9, 3), Direction::S);
    d.carve_passage(Vec2D(7, 3), Direction::N);
    let room = Rect(1, 1, 5, 5);
    let spots = vec![Vec2D(6, 3)];
    assert!(d.connectors_of(&room).contains(&Vec2D(6, 3)));
    let mut claimed = CellMask::new(13, 9);
    let door = d.connect_room(&room, &spots, &mut claimed, &mut rng(0));
    assert_eq!(door, Ok(Vec2D(6, 3)));
    d.remove_dead_ends();
    for y in 0..9 {
        for x in 0..13 {
            let expected = if room.contains(Vec2D(x, y)) || (x, y) == (7, 3) {
                Tile::Floor
            } else if (x, y) == (6, 3) {
                Tile::Door
            } else {
                Tile::Wall
            };
            assert_eq!(d.get_tile(Vec2D(x, y)), expected, "at {} {}", x, y);
        }
    }
}

#[test]
fn pruning_twice_changes_nothing_more() {
    for seed in 0..20 {
        let mut d = blank(31, 21);
        if d.generate(&mut rng(seed)).is_ok() {
            let once = tiles(&d);
            let picture = d.image().encode();
            d.remove_dead_ends();
            assert_eq!(tiles(&d), once);
            assert_eq!(d.image().encode(), picture);
            assert!(d.dead_ends(&d.room_cells()).iter().all(|&c| d.has_door_neighbor(c)));
        }
    }
}

#[test]
fn neighbor_counts() {
    let mut d = blank(7, 7);
    d.carve_start(Vec2D(3, 3));
    d.carve_passage(Vec2D(3, 3), Direction::N);
    d.carve_passage(Vec2D(3, 3), Direction::E);
    assert_eq!(d.count_floor_neighbors(Vec2D(3, 3)), 2);
    assert_eq!(d.count_floor_neighbors(Vec2D(3, 2)), 2);
    assert_eq!(d.count_floor_neighbors(Vec2D(3, 1)), 1);
    assert_eq!(d.count_floor_neighbors(Vec2D(2, 2)), 1);
    assert_eq!(d.count_floor_neighbors(Vec2D(1, 1)), 0);
    assert_eq!(d.floor_direction(Vec2D(3, 3)), Some(Direction::N));
    assert_eq!(d.floor_direction(Vec2D(3, 1)), Some(Direction::S));
    assert_eq!(d.floor_direction(Vec2D(4, 4)), Some(Direction::N));
    assert_eq!(d.floor_direction(Vec2D(2, 3)), Some(Direction::E));
    assert_eq!(d.floor_direction(Vec2D(1, 1)), None);
    assert!(!d.has_door_neighbor(Vec2D(3, 3)));
    assert_eq!(d.dead_ends(&d.room_cells()), vec![Vec2D(3, 1), Vec2D(5, 3)]);
}

#[test]
fn room_cells_are_marked() {
    let mut d = blank(21, 21);
    assert!(d.try_place(Rect(1, 1, 5, 5), (200, 200, 200)));
    assert!(d.try_place(Rect(7, 3, 5, 7), (200, 200, 200)));
    let cells = d.room_cells();
    for y in 0..21 {
        for x in 0..21 {
            assert_eq!(cells.is_marked(Vec2D(x, y)), in_room(&d, x, y));
        }
    }
}

#[test]
fn generate_small_grid() {
    // 11 by 9 cells, 50 attempts, not animated
    for seed in 0..100 {
        let mut d = blank(11, 9);
        let done = d.generate(&mut rng(seed));
        assert_eq!(d.image().width(), 11 * CELL_SIZE + 1);
        assert_eq!(d.image().height(), 9 * CELL_SIZE + 1);
        assert!(d.journal().is_empty());
        assert_rooms_separated(&d);
        assert_rooms_admissible(&d);
        match done {
            Ok(()) => {
                assert_finished(&d);
                for y in 0..9 {
                    for x in 0..11 {
                        if tile(&d, x, y) == Tile::Floor && !in_room(&d, x, y) {
                            let open = count(&d, x, y, Tile::Floor) + count(&d, x, y, Tile::Door);
                            assert!(open >= 1, "lone corridor cell at {} {}", x, y);
                        }
                    }
                }
            }
            Err(e) => {
                assert_eq!(e, DungeonError::UnreachableRoom);
                assert_eq!(d.rooms(), &vec![Rect(1, 1, 9, 7)]);
            }
        }
    }
}

#[test]
fn generate_large_grid() {
    let mut finished = 0;
    for seed in 0..10 {
        let mut d = match Dungeon::new(121, 91, 200, false) {
            Ok(d) => d,
            Err(_) => unreachable!(),
        };
        match d.generate(&mut rng(seed)) {
            Ok(()) => {
                finished += 1;
                assert!(d.rooms().len() > 10);
                assert_finished(&d);
            }
            Err(e) => assert_eq!(e, DungeonError::UnreachableRoom),
        }
    }
    assert!(finished > 0);
}

#[test]
fn the_picture_shows_the_tiles() {
    let mut d = blank(31, 21);
    if d.generate(&mut rng(1)).is_ok() {
        for y in 0..21 {
            for x in 0..31 {
                let inside = d.image().get(&Vec2D(x * CELL_SIZE + 1, y * CELL_SIZE + 1));
                let border = d.image().get(&Vec2D(x * CELL_SIZE, y * CELL_SIZE));
                let expected = match d.get_tile(Vec2D(x, y)) {
                    Tile::Wall => DARK_COLOR,
                    Tile::Floor => LIGHT_COLOR,
                    Tile::Door => DOOR_COLOR,
                };
                assert_eq!(inside, expected);
                assert_eq!(border, darker(expected, 70));
            }
        }
    }
}

#[test]
fn an_animated_dungeon_keeps_a_journal() {
    let mut d = match Dungeon::new(11, 9, 50, true) {
        Ok(d) => d,
        Err(_) => unreachable!(),
    };
    assert!(d.try_place(Rect(1, 1, 5, 5), (200, 150, 130)));
    let journal = d.journal().clone();
    assert_eq!(journal.len(), 26);
    assert_eq!(journal[0], Event::Paint(Vec2D(1, 1), (200, 150, 130)));
    assert_eq!(journal[1], Event::Paint(Vec2D(2, 1), (200, 150, 130)));
    assert_eq!(journal[24], Event::Paint(Vec2D(5, 5), (200, 150, 130)));
    assert_eq!(journal[25], Event::Frame);
    d.carve_start(Vec2D(7, 1));
    d.carve_passage(Vec2D(7, 1), Direction::S);
    assert_eq!(d.journal().len(), 29);
    assert_eq!(d.journal()[26], Event::Paint(Vec2D(7, 1), LIGHT_COLOR));
    assert_eq!(d.journal()[28], Event::Paint(Vec2D(7, 3), LIGHT_COLOR));
}

fn frames(d: &Dungeon) -> usize {
    d.journal().iter().filter(|e| **e == Event::Frame).count()
}

fn animated(width: i32, height: i32) -> Dungeon {
    match Dungeon::new(width, height, 50, true) {
        Ok(d) => d,
        Err(e) => panic!("no dungeon of {} by {}: {:?}", width, height, e),
    }
}

#[test]
fn paint_cell_draws_a_border_and_an_inside() {
    let mut image = PPM::new(15, 15, (1, 1, 1));
    paint_cell(&mut image, Vec2D(1, 0), (100, 200, 250));
    for j in 0..15 {
        for i in 0..15 {
            let expected = if 7 <= i && i < 14 && j < 7 {
                if i == 7 || j == 0 {
                    (70, 140, 175)
                } else {
                    (100, 200, 250)
                }
            } else {
                (1, 1, 1)
            };
            assert_eq!(image.get(&Vec2D(i, j)), expected, "at {} {}", i, j);
        }
    }
}

#[test]
fn replaying_the_journal_gives_the_picture() {
    for seed in 0..5 {
        let mut d = animated(21, 15);
        let done = d.generate(&mut rng(seed));
        let mut canvas = PPM::new(d.image().width(), d.image().height(), DARK_COLOR);
        let mut shown = 0;
        for k in 0..d.journal().len() {
            if d.replay(&mut canvas, k) {
                shown += 1;
            }
        }
        assert_eq!(canvas.encode(), d.image().encode());
        assert_eq!(shown, frames(&d));
        assert!(shown > 0);
        // the journal does not change what is generated
        let mut plain = blank(21, 15);
        assert_eq!(plain.generate(&mut rng(seed)), done);
        assert_eq!(tiles(&plain), tiles(&d));
        assert_eq!(plain.image().encode(), d.image().encode());
        assert!(plain.journal().is_empty());
    }
}

#[test]
fn one_frame_for_each_room_each_carved_lattice_cell_and_each_pruned_cell() {
    for seed in 0..10 {
        let mut d = animated(31, 21);
        let mut rng = rng(seed);
        d.draw_rooms(&mut rng);
        assert_eq!(frames(&d), d.rooms().len());
        let lattice_walls = |d: &Dungeon| {
            let mut n = 0;
            for y in 0..d.height() {
                for x in 0..d.width() {
                    if x % 2 == 1 && y % 2 == 1 && d.get_tile(Vec2D(x, y)) == Tile::Wall {
                        n += 1;
                    }
                }
            }
            n
        };
        let floors = |d: &Dungeon| tiles(d).iter().filter(|&&t| t == Tile::Floor).count();
        let before = frames(&d);
        let to_carve = lattice_walls(&d);
        d.fill_maze(&mut rng);
        assert_eq!(lattice_walls(&d), 0);
        assert_eq!(frames(&d) - before, to_carve);
        let before = frames(&d);
        if d.find_connectors(&mut rng).is_ok() {
            assert_eq!(frames(&d) - before, d.rooms().len());
            let before = frames(&d);
            let floors_before = floors(&d);
            d.remove_dead_ends();
            assert_eq!(frames(&d) - before, floors_before - floors(&d));
        } else {
            assert!(frames(&d) - before < d.rooms().len());
        }
    }
}

#[test]
fn rooms_from_draws() {
    assert_eq!(room_at((5, 7), 0, 0), Rect(1, 1, 5, 7));
    assert_eq!(room_at((9, 5), 3, 1), Rect(7, 3, 9, 5));
    let d = blank(11, 9);
    // a room of 5 by 5 can have its corner in three columns and two rows
    assert_eq!(d.origins((5, 5)), Some((3, 2)));
    assert_eq!(d.origins((9, 7)), Some((1, 1)));
    assert_eq!(d.origins((11, 5)), None);
    assert_eq!(d.origins((9, 9)), None);
    assert_eq!(d.origins((5, 13)), None);
}

#[test]
fn rooms_are_drawn_wide_and_tall() {
    let d = blank(31, 25);
    let mut rng = rng(8);
    let (mut wide, mut tall) = (0, 0);
    for _ in 0..200 {
        let room = d.gen_rectangle(&mut rng).unwrap();
        if room.width() > room.height() {
            wide += 1;
        }
        if room.height() > room.width() {
            tall += 1;
        }
    }
    assert!(wide > 20 && tall > 20);
}

#[test]
fn corridors_never_wind() {
    assert!(winds(0));
    assert!(!winds(1));
    assert!(!winds(99));
}

#[test]
fn open_doors_opens_what_it_is_told() {
    let mut d = animated(13, 9);
    assert!(d.try_place(Rect(1, 1, 5, 5), (200, 200, 200)));
    d.carve_start(Vec2D(7, 1));
    d.carve_passage(Vec2D(7, 1), Direction::S);
    d.carve_passage(Vec2D(7, 3), Direction::S);
    let room = Rect(1, 1, 5, 5);
    let free = d.connectors_of(&room);
    assert_eq!(free, vec![Vec2D(6, 2), Vec2D(6, 3), Vec2D(6, 4)]);
    let mut claimed = CellMask::new(13, 9);
    let before = tiles(&d);
    let marks = frames(&d);
    d.open_doors(&room, &free, Vec2D(6, 3), &vec![false, false, true], &mut claimed);
    for y in 0..9 {
        for x in 0..13 {
            let k = (y * 13 + x) as usize;
            let expected = if (x, y) == (6, 3) || (x, y) == (6, 4) { Tile::Door } else { before[k] };
            assert_eq!(d.get_tile(Vec2D(x, y)), expected, "at {} {}", x, y);
            assert_eq!(claimed.is_marked(Vec2D(x, y)), x == 6 && 2 <= y && y <= 4);
        }
    }
    assert_eq!(frames(&d), marks + 1);
    assert_eq!(d.image().get(&Vec2D(3 * CELL_SIZE + 1, 3 * CELL_SIZE + 1)), LIGHT_COLOR);
    assert_eq!(d.image().get(&Vec2D(6 * CELL_SIZE + 1, 4 * CELL_SIZE + 1)), DOOR_COLOR);
    assert_eq!(d.image().get(&Vec2D(6 * CELL_SIZE + 1, 2 * CELL_SIZE + 1)), DARK_COLOR);
}

#[test]
fn the_sign_for_the_door_itself_does_not_count() {
    let mut d = blank(13, 9);
    assert!(d.try_place(Rect(1, 1, 5, 5), (200, 200, 200)));
    d.carve_start(Vec2D(7, 3));
    let room = Rect(1, 1, 5, 5);
    let free = vec![Vec2D(6, 3)];
    let mut claimed = CellMask::new(13, 9);
    d.open_doors(&room, &free, Vec2D(6, 3), &vec![false], &mut claimed);
    assert_eq!(d.get_tile(Vec2D(6, 3)), Tile::Door);
}

#[test]
fn now_and_then_a_second_door_opens() {
    let (mut doors, mut rooms, mut spots) = (0, 0, 0);
    for seed in 0..40 {
        let mut d = blank(41, 31);
        let mut rng = rng(seed);
        d.draw_rooms(&mut rng);
        d.fill_maze(&mut rng);
        let found: usize = d.rooms().iter().map(|r| d.connectors_of(r).len()).sum();
        if d.find_connectors(&mut rng).is_ok() {
            rooms += d.rooms().len();
            spots += found;
            doors += tiles(&d).iter().filter(|&&t| t == Tile::Door).count();
        }
    }
    assert!(rooms > 0);
    assert!(doors > rooms);
    assert!(doors < spots / 4);
}

/// The number of groups into which the cells with odd coordinates outside
/// the rooms fall, where two of them belong together if they are two steps
/// apart.
fn lattice_groups(d: &Dungeon) -> usize {
    let (w, h) = (d.width(), d.height());
    let free = |x: i32, y: i32| {
        0 < x && x < w && 0 < y && y < h && x % 2 == 1 && y % 2 == 1 && !in_room(d, x, y)
    };
    let mut group: Vec<usize> = (0..(w * h) as usize).collect();
    fn find(group: &mut Vec<usize>, mut i: usize) -> usize {
        while group[i] != i {
            group[i] = group[group[i]];
            i = group[i];
        }
        i
    }
    for y in 0..h {
        for x in 0..w {
            if free(x, y) {
                for (a, b) in [(x + 2, y), (x, y + 2)] {
                    if free(a, b) {
                        let p = find(&mut group, (y * w + x) as usize);
                        let q = find(&mut group, (b * w + a) as usize);
                        group[p] = q;
                    }
                }
            }
        }
    }
    let mut groups = 0;
    for y in 0..h {
        for x in 0..w {
            if free(x, y) && find(&mut group, (y * w + x) as usize) == (y * w + x) as usize {
                groups += 1;
            }
        }
    }
    groups
}

#[test]
fn the_maze_spans_the_lattice() {
    for seed in 0..30 {
        let mut d = blank(41, 31);
        let mut rng = rng(seed);
        d.draw_rooms(&mut rng);
        let expected = lattice_groups(&d);
        d.fill_maze(&mut rng);
        let (_, _, groups) = corridor_graph(&d);
        assert_eq!(groups, expected);
    }
}

#[test]
fn a_grid_too_small_for_rooms_is_generated_without_any() {
    for seed in 0..10 {
        let mut d = blank(5, 5);
        assert_eq!(d.generate(&mut rng(seed)), Ok(()));
        assert!(d.rooms().is_empty());
        // the maze had no door to lead to and is pruned away
        assert!(tiles(&d).iter().all(|&t| t == Tile::Wall));
        let mut d = blank(21, 5);
        assert_eq!(d.generate(&mut rng(seed)), Ok(()));
        assert!(d.rooms().is_empty());
        let mut d = blank(3, 3);
        assert_eq!(d.generate(&mut rng(seed)), Ok(()));
        assert_eq!(d.get_tile(Vec2D(1, 1)), Tile::Floor);
        let mut d = blank(1, 1);
        assert_eq!(d.generate(&mut rng(seed)), Ok(()));
        assert_eq!(d.get_tile(Vec2D(0, 0)), Tile::Wall);
    }
}

#[test]
fn a_large_grid_gets_a_room() {
    for seed in 0..10 {
        let mut d = match Dungeon::new(15, 15, 1, false) {
            Ok(d) => d,
            Err(_) => unreachable!(),
        };
        d.draw_rooms(&mut rng(seed));
        assert_eq!(d.rooms().len(), 1);
    }
}

#[test]
fn pruning_keeps_a_corridor_between_two_doors() {
    let mut d = blank(13, 9);
    assert!(d.try_place(Rect(1, 1, 5, 5), (200, 200, 200)));
    d.carve_start(Vec2D(7, 1));
    d.carve_passage(Vec2D(7, 1), Direction::S);
    d.carve_passage(Vec2D(7, 3), Direction::S);
    let room = Rect(1, 1, 5, 5);
    let free = d.connectors_of(&room);
    let mut claimed = CellMask::new(13, 9);
    d.open_doors(&room, &free, Vec2D(6, 2), &vec![false, false, true], &mut claimed);
    d.remove_dead_ends();
    for y in 0..9 {
        for x in 0..13 {
            let expected = if room.contains(Vec2D(x, y)) || (x == 7 && 2 <= y && y <= 4) {
                Tile::Floor
            } else if (x, y) == (6, 2) || (x, y) == (6, 4) {
                Tile::Door
            } else {
                Tile::Wall
            };
            assert_eq!(d.get_tile(Vec2D(x, y)), expected, "at {} {}", x, y);
        }
    }
}
