//! Tiles, directions and keys.
use vstd::prelude::*;

verus! {

/// A direction in which all tiles of the grid are pushed.
#[derive(Clone, Copy, PartialEq, Eq, Debug)]
pub enum Direction {
    Up,
    Down,
    Left,
    Right,
}

/// The step of one cell in a direction, as (column, row).
pub open spec fn offset_of(d: Direction) -> (int, int) {
    match d {
        Direction::Up => (0, -1),
        Direction::Down => (0, 1),
        Direction::Left => (-1, 0),
        Direction::Right => (1, 0),
    }
}

impl Direction {
    pub fn offset(self) -> (r: (i32, i32))
        ensures
            (r.0 as int, r.1 as int) == offset_of(self),
    {
        match self {
            Direction::Up => (0, -1),
            Direction::Down => (0, 1),
            Direction::Left => (-1, 0),
            Direction::Right => (1, 0),
        }
    }
}

/// A key that the player pressed.
#[derive(Clone, Copy, PartialEq, Eq, Hash, Debug)]
pub enum Key {
    Right,
    Left,
    Up,
    Down,
    Char(char),
}

impl Key {
    /// The direction that an arrow key stands for.
    pub fn direction(self) -> (r: Option<Direction>)
        ensures
            r == key_direction(self),
    {
        match self {
            Key::Up => Some(Direction::Up),
            Key::Down => Some(Direction::Down),
            Key::Left => Some(Direction::Left),
            Key::Right => Some(Direction::Right),
            Key::Char(_) => None,
        }
    }

    /// Whether this is the key that ends the game.
    pub fn is_quit(self) -> (r: bool)
        ensures
            r == (self == Key::Char('q')),
    {
        match self {
            Key::Char(c) => c == 'q',
            _ => false,
        }
    }
}

pub open spec fn key_direction(k: Key) -> Option<Direction> {
    match k {
        Key::Up => Some(Direction::Up),
        Key::Down => Some(Direction::Down),
        Key::Left => Some(Direction::Left),
        Key::Right => Some(Direction::Right),
        Key::Char(_) => None,
    }
}

/// One cell of the grid. A value of 0 is an empty cell.
#[derive(Clone, Copy)]
pub struct Tile {
    pub value: usize,
    /// The value before the latest `set`.
    pub value_old: usize,
    /// Set once the tile was made by a merge in the current sweep.
    pub merge_blocked: bool,
    /// The tile changed, but the old value is shown until the animation ends.
    pub pending: bool,
}

impl Tile {
    pub open spec fn new_spec() -> Tile {
        Tile { value: 0, value_old: 0, merge_blocked: false, pending: false }
    }

    pub fn new() -> (r: Tile)
        ensures
            r == Tile::new_spec(),
    {
        Tile { value: 0, value_old: 0, merge_blocked: false, pending: false }
    }

    pub fn from_value(value: usize) -> (r: Tile)
        ensures
            r.value == value,
            r.value_old == 0,
            !r.merge_blocked,
            !r.pending,
    {
        Tile { value: value, value_old: 0, merge_blocked: false, pending: false }
    }

    pub fn set(&mut self, val: usize)
        ensures
            *final(self) == (Tile { value: val, value_old: old(self).value, ..*old(self) }),
    {
        self.value_old = self.value;
        self.value = val;
    }

    /// The value to show: the old one while the change is pending.
    pub fn get(&self) -> (r: usize)
        ensures
            r == self.shown(),
    {
        if self.pending {
            self.value_old
        } else {
            self.value
        }
    }

    pub open spec fn shown(self) -> usize {
        if self.pending {
            self.value_old
        } else {
            self.value
        }
    }

    pub fn is_empty(&self) -> (r: bool)
        ensures
            r == (self.value == 0),
    {
        self.value == 0
    }

    pub fn blocked(&mut self, b: bool)
        ensures
            *final(self) == (Tile { merge_blocked: b, ..*old(self) }),
    {
        self.merge_blocked = b;
    }

    pub fn is_blocked(&self) -> (r: bool)
        ensures
            r == self.merge_blocked,
    {
        self.merge_blocked
    }

    pub fn set_pending(&mut self, pending: bool)
        ensures
            *final(self) == (Tile { pending: pending, ..*old(self) }),
    {
        self.pending = pending;
    }
}

/// Tiles are equal when their values are.
impl PartialEq for Tile {
    fn eq(&self, other: &Tile) -> (r: bool) {
        self.value == other.value
    }
}

impl vstd::std_specs::cmp::PartialEqSpecImpl for Tile {
    open spec fn obeys_eq_spec() -> bool {
        true
    }

    open spec fn eq_spec(&self, other: &Tile) -> bool {
        self.value == other.value
    }
}

} // verus!
