//! The options of a search.

use vstd::prelude::*;

verus! {

/// Leaves the depth out of a node's total cost (greedy best-first search).
pub const GREEDY: char = 'g';

/// Adds one for every tile that is not on its goal cell.
pub const HAMMING: char = 'h';

/// Adds the conflicts met on the way to the goal column.
pub const LINEAR_CONFLICT: char = 'l';

/// Adds one for a wrong row and one for a wrong column.
pub const TILES_OUT_OF_ROW_AND_COLUMN: char = 't';

/// The options that a search runs with, one switch per option letter.
#[derive(Clone, Copy, PartialEq, Eq, Structural, Debug)]
pub struct Config {
    pub greedy: bool,
    pub hamming: bool,
    pub linear_conflict: bool,
    pub tiles_out: bool,
}

impl Config {
    /// Whether the option with letter `flag` is switched on.
    pub open spec fn enabled(self, flag: char) -> bool {
        ||| flag == GREEDY && self.greedy
        ||| flag == HAMMING && self.hamming
        ||| flag == LINEAR_CONFLICT && self.linear_conflict
        ||| flag == TILES_OUT_OF_ROW_AND_COLUMN && self.tiles_out
    }

    /// Every heuristic option that `self` switches on is on in `other` too.
    pub open spec fn within(self, other: Config) -> bool {
        &&& self.hamming ==> other.hamming
        &&& self.linear_conflict ==> other.linear_conflict
        &&& self.tiles_out ==> other.tiles_out
    }

    /// The configuration with every option off: plain A* on the Manhattan
    /// distance.
    pub fn new() -> (config: Config)
        ensures
            config == (Config {
                greedy: false,
                hamming: false,
                linear_conflict: false,
                tiles_out: false,
            }),
    {
        Config { greedy: false, hamming: false, linear_conflict: false, tiles_out: false }
    }

    /// Looks an option up by its letter; an unknown letter is off.
    pub fn has_option(&self, flag: char) -> (on: bool)
        ensures
            on == self.enabled(flag),
    {
        if flag == GREEDY {
            self.greedy
        } else if flag == HAMMING {
            self.hamming
        } else if flag == LINEAR_CONFLICT {
            self.linear_conflict
        } else if flag == TILES_OUT_OF_ROW_AND_COLUMN {
            self.tiles_out
        } else {
            false
        }
    }
}

} // verus!
