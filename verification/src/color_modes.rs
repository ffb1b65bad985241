//! When output is colorized.

use vstd::prelude::*;

verus! {

/// When to colorize output.
#[derive(Debug, Clone, Copy, PartialEq, Eq, Structural)]
pub enum ColorModes {
    /// Where the output is a terminal.
    Auto,
    Always,
    Never,
}

impl Default for ColorModes {
    fn default() -> (r: Self)
        ensures
            r == ColorModes::Auto,
    {
        ColorModes::Auto
    }
}

impl ColorModes {
    /// Whether to colorize output that goes to a terminal, or not to one.
    pub fn use_color(self, is_terminal: bool) -> (r: bool)
        ensures
            r == match self {
                ColorModes::Always => true,
                ColorModes::Never => false,
                ColorModes::Auto => is_terminal,
            },
    {
        match self {
            ColorModes::Always => true,
            ColorModes::Never => false,
            ColorModes::Auto => is_terminal,
        }
    }
}

} // verus!
