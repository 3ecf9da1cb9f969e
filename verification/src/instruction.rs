//! Movement commands for the head of the rope.

use vstd::prelude::*;
use crate::position::{Point, Pos};

verus! {

/// A command: a direction, and how many unit steps the head takes in it.
#[derive(Clone, Copy, Debug, PartialEq, Eq, Structural)]
pub enum Instruction {
    /// `y` grows.
    Up(u32),
    /// `y` shrinks.
    Down(u32),
    /// `x` shrinks.
    Left(u32),
    /// `x` grows.
    Right(u32),
}

impl Instruction {
    /// The number of unit steps of this command.
    pub open spec fn count(self) -> nat {
        match self {
            Instruction::Up(k) => k as nat,
            Instruction::Down(k) => k as nat,
            Instruction::Left(k) => k as nat,
            Instruction::Right(k) => k as nat,
        }
    }

    /// The vector that `n` unit steps in this command's direction cover.
    pub open spec fn travel(self, n: nat) -> Point {
        match self {
            Instruction::Up(_) => Point { x: 0, y: n as int },
            Instruction::Down(_) => Point { x: 0, y: -(n as int) },
            Instruction::Left(_) => Point { x: -(n as int), y: 0 },
            Instruction::Right(_) => Point { x: n as int, y: 0 },
        }
    }

    /// The vector of one unit step.
    pub open spec fn unit(self) -> Point {
        self.travel(1)
    }

    /// The vector from where the head starts to where the command leaves it.
    pub open spec fn displacement(self) -> Point {
        self.travel(self.count())
    }

    /// The command that undoes this one: as many steps, the other way.
    pub open spec fn opposite(self) -> Instruction {
        match self {
            Instruction::Up(k) => Instruction::Down(k),
            Instruction::Down(k) => Instruction::Up(k),
            Instruction::Left(k) => Instruction::Right(k),
            Instruction::Right(k) => Instruction::Left(k),
        }
    }

    /// Whether a head at `head` can carry the command out with machine
    /// coordinates: that is, whether the place it would end at is
    /// representable.
    pub open spec fn fits(self, head: Point) -> bool {
        head.plus(self.displacement()).representable()
    }

    /// The number of unit steps of this command.
    pub fn distance(&self) -> (k: u32)
        ensures
            k == self.count(),
    {
        match self {
            Instruction::Up(k) => *k,
            Instruction::Down(k) => *k,
            Instruction::Left(k) => *k,
            Instruction::Right(k) => *k,
        }
    }

    /// Tells whether a head at `head` can carry the command out.
    pub fn can_move(&self, head: Pos) -> (ok: bool)
        ensures
            ok == self.fits(head@),
    {
        match self {
            Instruction::Up(k) => head.y as i64 + *k as i64 <= i32::MAX as i64,
            Instruction::Down(k) => head.y as i64 - *k as i64 >= i32::MIN as i64,
            Instruction::Left(k) => head.x as i64 - *k as i64 >= i32::MIN as i64,
            Instruction::Right(k) => head.x as i64 + *k as i64 <= i32::MAX as i64,
        }
    }
}

} // verus!
