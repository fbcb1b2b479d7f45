//! The whole generation: rooms, maze, doors, pruning.

use rand::rngs::StdRng;
use vstd::prelude::*;
use crate::connectors::{lemma_connector_is_beside, listed};
use crate::dungeon::{lemma_same_rooms, Dungeon, DungeonError, Grid, Tile};
use crate::forest::{lemma_subset_is_forest, Cell};
use crate::maze::lemma_carvable;
use crate::prune::lemma_shrunk_at;

verus! {

impl Grid {
    /// Every door lies outside the rooms and shares a side with a cell of a
    /// room.
    pub open spec fn doors_at_rooms(self) -> bool {
        forall|a: int, b: int| #[trigger]
            self.tile(a, b) == Tile::Door ==> !self.in_room(a, b) && exists|k: int|
                0 <= k < self.rooms.len() && (#[trigger] self.rooms[k]).beside(a, b)
    }

    /// What holds of a dungeon that was generated: it is well formed, so
    /// that any two rooms are separated, every room has a door, every door
    /// lies at a room, the corridors are a forest, and there is no dead end.
    pub open spec fn finished(self) -> bool {
        &&& self.wf()
        &&& forall|k: int| 0 <= k < self.rooms.len() ==> #[trigger] self.has_door(k)
        &&& self.doors_at_rooms()
        &&& self.forest()
        &&& self.pruned()
    }
}

/// Opening doors in connectors of a grid without doors puts every door at a
/// room, and leaves the corridors as they are.
pub proof fn lemma_doors_at_rooms(m: Grid, c: Grid)
    requires
        m.wf(),
        m.doorless(),
        c.doored_from(m),
    ensures
        c.doors_at_rooms(),
        c.corridors() == m.corridors(),
{
    lemma_same_rooms(c, m);
    assert forall|a: int, b: int| #[trigger] c.tile(a, b) == Tile::Door implies !c.in_room(a, b)
        && exists|k: int| 0 <= k < c.rooms.len() && (#[trigger] c.rooms[k]).beside(a, b) by {
        let was = m.tile(a, b);
        assert(m.claimed(m.rooms.len() as int, a, b));
        let j = choose|j: int|
            0 <= j < m.rooms.len() && 0 <= j < m.rooms.len() && listed(
                m.connectors(#[trigger] m.rooms[j]),
                a,
                b,
            );
        assert(m.admissible(m.rooms[j]));
        lemma_connector_is_beside(m, m.rooms[j], a, b);
        assert(c.rooms[j].beside(a, b));
    }
    assert(c.corridors() =~= m.corridors()) by {
        assert forall|e: Cell| c.corridors().contains(e) == m.corridors().contains(e) by {
            let now = c.tile(e.0, e.1);
            if now != m.tile(e.0, e.1) {
                assert(m.claimed(m.rooms.len() as int, e.0, e.1));
                let j = choose|j: int|
                    0 <= j < m.rooms.len() && 0 <= j < m.rooms.len() && listed(
                        m.connectors(#[trigger] m.rooms[j]),
                        e.0,
                        e.1,
                    );
                assert(m.admissible(m.rooms[j]));
                lemma_connector_is_beside(m, m.rooms[j], e.0, e.1);
            }
        }
    }
}

/// Pruning keeps the doors: every room that had a door has it still, every
/// door is where it was, and the corridors that are left are a forest if
/// they were one.
pub proof fn lemma_pruning_keeps_doors(c: Grid, f: Grid)
    requires
        f.shrunk_from(c),
        c.doors_at_rooms(),
        c.forest(),
    ensures
        forall|k: int| 0 <= k < c.rooms.len() && #[trigger] c.has_door(k) ==> f.has_door(k),
        f.doors_at_rooms(),
        f.forest(),
{
    lemma_same_rooms(f, c);
    assert forall|k: int| 0 <= k < c.rooms.len() && #[trigger] c.has_door(k) implies f.has_door(
        k,
    ) by {
        let (a, b) = choose|a: int, b: int| #[trigger]
            c.rooms[k].beside(a, b) && c.tile(a, b) == Tile::Door;
        lemma_shrunk_at(f, c, a, b);
        assert(f.rooms[k].beside(a, b));
    }
    assert forall|a: int, b: int| #[trigger] f.tile(a, b) == Tile::Door implies !f.in_room(a, b)
        && exists|k: int| 0 <= k < f.rooms.len() && (#[trigger] f.rooms[k]).beside(a, b) by {
        lemma_shrunk_at(f, c, a, b);
        let was = c.tile(a, b);
        let k = choose|k: int| 0 <= k < c.rooms.len() && (#[trigger] c.rooms[k]).beside(a, b);
        assert(f.rooms[k].beside(a, b));
    }
    assert forall|e: Cell| f.corridors().contains(e) implies c.corridors().contains(e) by {
        lemma_shrunk_at(f, c, e.0, e.1);
    }
    lemma_subset_is_forest(c.corridors(), f.corridors());
}

impl Dungeon {
    /// Generates the dungeon in four stages: the rooms are placed, the maze
    /// is carved around them, every room is joined to what lies beyond it,
    /// and the dead ends are pruned. The generation fails, and leaves the
    /// dungeon unfinished, if a room cannot be reached.
    pub fn generate(&mut self, rng: &mut StdRng) -> (done: Result<(), DungeonError>)
        requires
            old(self).wf(),
            old(self)@.bare(),
        ensures
            final(self).wf(),
            final(self).same_settings(old(self)),
            final(self).journal_extends(old(self)),
            old(self)@.rooms.is_prefix_of(final(self)@.rooms),
            final(self)@.rooms.len() <= old(self)@.rooms.len() + old(self).budget(),
            old(self)@.rooms.len() == 0 && old(self)@.width >= 15 && old(self)@.height >= 15
                ==> final(self)@.rooms.len() >= 1,
            old(self)@.rooms.len() == 0 && (old(self)@.width < 7 || old(self)@.height < 7)
                ==> done is Ok,
            done matches Err(e) ==> e == DungeonError::UnreachableRoom,
            done is Ok ==> final(self)@.finished(),
            done is Ok ==> final(self).plain(),
    {
        self.draw_rooms(rng);
        self.fill_maze(rng);
        let ghost maze = self@;
        proof {
            lemma_carvable(maze);
        }
        match self.find_connectors(rng) {
            Ok(()) => {},
            Err(e) => {
                return Err(e);
            },
        }
        let ghost doored = self@;
        proof {
            lemma_doors_at_rooms(maze, doored);
        }
        self.remove_dead_ends();
        proof {
            lemma_pruning_keeps_doors(doored, self@);
            assert forall|k: int| 0 <= k < self@.rooms.len() implies #[trigger] self@.has_door(
                k,
            ) by {
                assert(doored.has_door(k));
            }
        }
        Ok(())
    }
}

} // verus!
