//! Shared enums used across the layout pipeline: scan directions for the
//! crossing optimizer and the drawing orientation.

use vstd::prelude::*;

verus! {

/// The direction of a neighbor-row scan in the crossing optimizer.
#[derive(Debug, Clone, Copy)]
pub enum Direction {
    Up,
    Down,
    Both,
    Neither,
}

impl Direction {
    /// True when the scan looks at the row below.
    pub open spec fn spec_is_down(&self) -> bool {
        match self {
            Direction::Neither | Direction::Up => false,
            Direction::Both | Direction::Down => true,
        }
    }

    /// True when the scan looks at the row above.
    pub open spec fn spec_is_up(&self) -> bool {
        match self {
            Direction::Both | Direction::Up => true,
            Direction::Neither | Direction::Down => false,
        }
    }

    pub fn is_down(&self) -> (r: bool)
        ensures
            r == self.spec_is_down(),
    {
        match self {
            Direction::Neither | Direction::Up => false,
            Direction::Both | Direction::Down => true,
        }
    }

    pub fn is_up(&self) -> (r: bool)
        ensures
            r == self.spec_is_up(),
    {
        match self {
            Direction::Both | Direction::Up => true,
            Direction::Neither | Direction::Down => false,
        }
    }
}

/// The growth direction of the drawing.
#[derive(Debug, Clone, Copy)]
pub enum Orientation {
    TopToBottom,
    LeftToRight,
}

impl Orientation {
    /// What `flip` returns: the other orientation.
    pub open spec fn spec_flip(&self) -> Orientation {
        match self {
            Orientation::TopToBottom => Orientation::LeftToRight,
            Orientation::LeftToRight => Orientation::TopToBottom,
        }
    }

    pub fn is_top_to_bottom(&self) -> (r: bool)
        ensures
            r == (*self matches Orientation::TopToBottom),
    {
        if let Orientation::TopToBottom = self {
            return true;
        }
        false
    }

    pub fn is_left_right(&self) -> (r: bool)
        ensures
            r == (*self matches Orientation::LeftToRight),
    {
        if let Orientation::TopToBottom = self {
            return false;
        }
        true
    }

    pub fn flip(&self) -> (r: Orientation)
        ensures
            r == self.spec_flip(),
    {
        if let Orientation::TopToBottom = self {
            return Orientation::LeftToRight;
        }
        Orientation::TopToBottom
    }
}

/// Flipping the orientation twice gives back the original orientation.
/// This is the orientation half of the transpose round-trip law: a drawing
/// that is transposed and transposed again ends in its original orientation.
pub proof fn lemma_flip_involution(o: Orientation)
    ensures
        o.spec_flip().spec_flip() == o,
{
}

} // verus!
