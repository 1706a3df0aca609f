//! Terminal colours.

use vstd::prelude::*;

verus! {

/// The escape sequences to print around parts of the report; all empty where
/// colour is off.
#[derive(Clone, Copy)]
pub struct Style {
    pub bold: &'static str,
    pub dim: &'static str,
    pub green: &'static str,
    pub cyan: &'static str,
    pub reset: &'static str,
}

impl Style {
    /// The style with colour or without.
    pub fn new(enable: bool) -> (style: Style)
        ensures
            enable ==> {
                &&& style.bold@ == "\x1b[1m"@
                &&& style.dim@ == "\x1b[2m"@
                &&& style.green@ == "\x1b[32;1m"@
                &&& style.cyan@ == "\x1b[36m"@
                &&& style.reset@ == "\x1b[0m"@
            },
            !enable ==> style.is_plain(),
    {
        if enable {
            Style {
                bold: "\x1b[1m",
                dim: "\x1b[2m",
                green: "\x1b[32;1m",
                cyan: "\x1b[36m",
                reset: "\x1b[0m",
            }
        } else {
            Style { bold: "", dim: "", green: "", cyan: "", reset: "" }
        }
    }

    /// Whether the style adds nothing to the text.
    pub open spec fn is_plain(self) -> bool {
        &&& self.bold@ == ""@
        &&& self.dim@ == ""@
        &&& self.green@ == ""@
        &&& self.cyan@ == ""@
        &&& self.reset@ == ""@
    }
}

/// Whether the report is printed in colour: only for a reader at a terminal
/// who has not asked for plain text or for CSV.
pub fn use_colour(no_colour: bool, csv: bool, stdout_tty: bool) -> (b: bool)
    ensures
        b == (!no_colour && !csv && stdout_tty),
{
    !no_colour && !csv && stdout_tty
}

/// Whether a note is shown while a run goes on: only to a reader at a terminal
/// who has not asked for CSV.
pub fn show_progress(csv: bool, stdout_tty: bool) -> (b: bool)
    ensures
        b == (!csv && stdout_tty),
{
    !csv && stdout_tty
}

} // verus!
