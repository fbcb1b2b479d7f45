//! Procedural dungeon generation on a rectangular grid of tiles, verified
//! with Verus.
//!
//! A [`Dungeon`] is generated in four stages. The room placer
//! ([`rooms`]) draws rectangles at random and keeps those that are separated
//! from all it kept before. The maze carver ([`maze`]) fills the space
//! around the rooms with corridors that form a spanning forest of the cells
//! with odd coordinates. The connector selector ([`connectors`]) gives
//! every room a door, and now and then a second one. The dead-end pruner
//! ([`prune`]) removes the corridors that lead nowhere.
//!
//! The contracts speak of a dungeon through its [`Grid`], the mathematical
//! model of its tiles and rooms. What the stages promise of every outcome,
//! whatever the random source yields, is proved; the random source itself
//! ([`random`]) is trusted to give what the `rand` crate documents.
//!
//! A dungeon keeps a picture of itself ([`picture`], [`ppm`]), and, if it is
//! animated, a journal from which every frame of its generation can be
//! painted again.

pub mod connectors;
pub mod dungeon;
pub mod forest;
pub mod generate;
pub mod geometry;
pub mod mask;
pub mod maze;
pub mod picture;
pub mod ppm;
pub mod prune;
pub mod random;
pub mod rooms;

pub use dungeon::{Dungeon, DungeonError, Grid, Tile};
pub use geometry::{Direction, Rect, RectIntoIterator, Vec2D};
pub use picture::Event;
pub use ppm::{Color, PPM};
