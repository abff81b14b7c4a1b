//! What an agent is made of.

use std::collections::VecDeque;
use vstd::prelude::*;
use crate::geometry::Pos;

verus! {

/// What an animal is doing.
#[derive(Clone, Copy, Debug, PartialEq, Eq, Structural, Hash)]
pub enum AnimalState {
    Idle,
    Moving,
    Eating,
}

/// Where an animal looks.
#[derive(Clone, Copy, Debug, PartialEq, Eq, Structural, Hash)]
pub enum AnimalDirection {
    Up,
    Down,
    Right,
    Left,
}

/// Marks a tree.
#[derive(Clone, Copy, Debug, PartialEq, Eq, Structural)]
pub struct Tree;

/// Which picture of a sheet stands for an entity.
#[derive(Clone, Copy, Debug, PartialEq, Eq, Structural)]
pub struct RelativeTextureIndex(pub usize);

/// Marks an animal.
#[derive(Clone, Copy, Debug, PartialEq, Eq, Structural)]
pub struct Animal;

#[derive(Clone, Copy, Debug, PartialEq, Eq, Structural)]
pub enum AnimalType {
    Bunny,
}

/// The positions that an agent has yet to reach, the next one first.
#[derive(Clone, Debug)]
pub struct Path(pub VecDeque<Pos>);

impl View for Path {
    type V = Seq<Pos>;

    open spec fn view(&self) -> Seq<Pos> {
        self.0@
    }
}

} // verus!
