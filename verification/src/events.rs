//! Event data model: enemy kinds, score events, and the score table.
//!
//! Timestamps and positions are carried as IEEE-754 single-precision bit
//! patterns (`u32`), so that the encoding is bit-exact and the whole data
//! model is made of plain values.

use vstd::prelude::*;

verus! {

/// The closed set of enemy kinds a score event can refer to.
#[derive(PartialEq, Eq, Clone, Copy, Debug)]
pub enum Enemy {
    Cruiser,
    Spaceship,
    Asteroid,
}

/// One scoring occurrence: a timestamp, the enemy kind, and a 2D position.
///
/// `time` and the two coordinates in `pos` hold the bit patterns of
/// single-precision floating-point numbers; the codec never interprets them.
#[derive(PartialEq, Eq, Clone, Copy, Debug)]
pub struct ScoreEvent {
    pub time: u32,
    pub enemy: Enemy,
    pub pos: (u32, u32),
}

/// The point value of each enemy kind.
pub open spec fn score_of(e: Enemy) -> u32 {
    match e {
        Enemy::Cruiser => 500,
        Enemy::Spaceship => 200,
        Enemy::Asteroid => 10,
    }
}

impl ScoreEvent {
    /// Pure lookup of the point value of this event's enemy kind.
    pub fn get_score(&self) -> (r: u32)
        ensures
            r == score_of(self.enemy),
    {
        match self.enemy {
            Enemy::Cruiser => 500,
            Enemy::Spaceship => 200,
            Enemy::Asteroid => 10,
        }
    }
}

} // verus!
