//! The set of directions in which the pipe of one cell connects.

use vstd::prelude::*;
use crate::pipes::error::LoopError;
use crate::pipes::pos::Pos;

verus! {

/// Bit of the direction north.
pub const NORTH: u8 = 0b0001;

/// Bit of the direction south.
pub const SOUTH: u8 = 0b0010;

/// Bit of the direction east.
pub const EAST: u8 = 0b0100;

/// Bit of the direction west.
pub const WEST: u8 = 0b1000;

/// The symbol of the start cell, `S`.
pub const SYM_START: u8 = 83;

/// The symbol of the vertical pipe, `|`, which joins north and south.
pub const SYM_VERTICAL: u8 = 124;

/// The symbol of the horizontal pipe, `-`, which joins east and west.
pub const SYM_HORIZONTAL: u8 = 45;

/// The symbol of the bend `L`, which joins north and east.
pub const SYM_NORTH_EAST: u8 = 76;

/// The symbol of the bend `J`, which joins north and west.
pub const SYM_NORTH_WEST: u8 = 74;

/// The symbol of the bend `7`, which joins south and west.
pub const SYM_SOUTH_WEST: u8 = 55;

/// The symbol of the bend `F`, which joins south and east.
pub const SYM_SOUTH_EAST: u8 = 70;

/// The symbol of a cell without a pipe, `.`.
pub const SYM_EMPTY: u8 = 46;

/// A subset of the four directions, one bit each. A value with a single bit
/// set also names a direction.
#[derive(Clone, Copy, Debug, PartialEq, Eq, Structural)]
pub struct Pipe(pub u8);

/// What a symbol of the alphabet stands for; `None` for any other byte.
pub open spec fn decode(symbol: u8) -> Option<Pipe> {
    if symbol == SYM_START {
        Some(Pipe(15))
    } else if symbol == SYM_VERTICAL {
        Some(Pipe(3))
    } else if symbol == SYM_HORIZONTAL {
        Some(Pipe(12))
    } else if symbol == SYM_NORTH_EAST {
        Some(Pipe(5))
    } else if symbol == SYM_NORTH_WEST {
        Some(Pipe(9))
    } else if symbol == SYM_SOUTH_WEST {
        Some(Pipe(10))
    } else if symbol == SYM_SOUTH_EAST {
        Some(Pipe(6))
    } else if symbol == SYM_EMPTY {
        Some(Pipe(0))
    } else {
        None
    }
}

impl Pipe {
    /// Whether this is one of the four directions.
    pub open spec fn is_direction(self) -> bool {
        self.0 == NORTH || self.0 == SOUTH || self.0 == EAST || self.0 == WEST
    }

    /// Whether the set holds the direction `d`.
    pub open spec fn connects(self, d: Pipe) -> bool {
        self.0 & d.0 != 0
    }

    /// The set without the direction `d`.
    pub open spec fn without(self, d: Pipe) -> Pipe {
        Pipe(self.0 & !d.0)
    }

    /// The direction that points the other way.
    pub open spec fn reverse(self) -> Pipe {
        if self.0 == NORTH {
            Pipe(SOUTH)
        } else if self.0 == SOUTH {
            Pipe(NORTH)
        } else if self.0 == EAST {
            Pipe(WEST)
        } else {
            Pipe(EAST)
        }
    }

    /// The change of column that one step in this direction makes.
    pub open spec fn dx(self) -> int {
        if self.0 == EAST {
            1
        } else if self.0 == WEST {
            -1
        } else {
            0
        }
    }

    /// The change of row that one step in this direction makes.
    pub open spec fn dy(self) -> int {
        if self.0 == SOUTH {
            1
        } else if self.0 == NORTH {
            -1
        } else {
            0
        }
    }

    /// Whether a pipe with this set can be passed by one who enters from the
    /// direction `from`: the set holds `from` and exactly one direction more.
    pub open spec fn leads_on(self, from: Pipe) -> bool {
        from.is_direction() && self.0 & from.0 == from.0 && self.without(from).is_direction()
    }

    /// The set with all four directions, which marks the start cell until
    /// its true connections are known.
    pub fn start() -> (p: Pipe)
        ensures
            p == Pipe(15),
    {
        Pipe(15)
    }

    /// The empty set, of a cell without a pipe.
    pub fn no_pipe() -> (p: Pipe)
        ensures
            p == Pipe(0),
    {
        Pipe(0)
    }

    /// Reads one symbol of the alphabet. Any other byte is a format error.
    pub fn from_input(input: u8) -> (r: Result<Pipe, LoopError>)
        ensures
            match decode(input) {
                Some(p) => r == Ok::<Pipe, LoopError>(p),
                None => r == Err::<Pipe, LoopError>(LoopError::Format),
            },
    {
        if input == SYM_START {
            Ok(Pipe(15))
        } else if input == SYM_VERTICAL {
            Ok(Pipe(3))
        } else if input == SYM_HORIZONTAL {
            Ok(Pipe(12))
        } else if input == SYM_NORTH_EAST {
            Ok(Pipe(5))
        } else if input == SYM_NORTH_WEST {
            Ok(Pipe(9))
        } else if input == SYM_SOUTH_WEST {
            Ok(Pipe(10))
        } else if input == SYM_SOUTH_EAST {
            Ok(Pipe(6))
        } else if input == SYM_EMPTY {
            Ok(Pipe(0))
        } else {
            Err(LoopError::Format)
        }
    }

    /// Whether the pipe connects to the west.
    pub fn can_move_west(self) -> (b: bool)
        ensures
            b == self.connects(Pipe(WEST)),
    {
        (self.0 & WEST) != 0
    }

    /// Whether the pipe connects to the north.
    pub fn can_move_north(self) -> (b: bool)
        ensures
            b == self.connects(Pipe(NORTH)),
    {
        (self.0 & NORTH) != 0
    }

    /// Whether the pipe connects to the east.
    pub fn can_move_east(self) -> (b: bool)
        ensures
            b == self.connects(Pipe(EAST)),
    {
        (self.0 & EAST) != 0
    }

    /// Whether the pipe connects to the south.
    pub fn can_move_south(self) -> (b: bool)
        ensures
            b == self.connects(Pipe(SOUTH)),
    {
        (self.0 & SOUTH) != 0
    }

    /// Whether one who enters from `from` can pass this pipe.
    pub fn can_pass(self, from: Pipe) -> (b: bool)
        ensures
            b == self.leads_on(from),
    {
        let f = from.0;
        if !(f == NORTH || f == SOUTH || f == EAST || f == WEST) {
            return false;
        }
        if self.0 & f != f {
            return false;
        }
        let rest = self.0 & !f;
        rest == NORTH || rest == SOUTH || rest == EAST || rest == WEST
    }

    /// Passes through the pipe at `pos`, entered from `from`: leaves by the
    /// one other direction of the set, and arrives at the next cell from the
    /// reverse of that direction.
    pub fn move_trough(self, from: Pipe, pos: Pos) -> (next: (Pipe, Pos))
        requires
            self.leads_on(from),
            isize::MIN < pos.x < isize::MAX,
            isize::MIN < pos.y < isize::MAX,
        ensures
            next.0 == self.without(from).reverse(),
            next.1.x == pos.x + self.without(from).dx(),
            next.1.y == pos.y + self.without(from).dy(),
    {
        let rest = self.0 & !from.0;
        if rest == NORTH {
            (Pipe(SOUTH), pos.move_north())
        } else if rest == SOUTH {
            (Pipe(NORTH), pos.move_south())
        } else if rest == EAST {
            (Pipe(WEST), pos.move_east())
        } else {
            (Pipe(EAST), pos.move_west())
        }
    }
}

} // verus!
