//! Terminal colour palettes: either the real ANSI escape codes or empty
//! strings, so that callers can interpolate unconditionally.

use crate::cli::ColorChoice;
use vstd::prelude::*;

verus! {

/// The escape codes used for terminal output (or empty strings when
/// colour is disabled).
pub struct Color {
    pub reset: &'static str,
    pub bold: &'static str,
    pub dim: &'static str,
    pub info: &'static str,
    pub success: &'static str,
    pub error: &'static str,
}

impl Color {
    /// The palette for a colour choice: the ANSI codes for `Always`
    /// (reset, bold, dim, cyan, green, magenta), empty strings for
    /// `Never`.
    pub fn from_color_choice(choice: ColorChoice) -> (r: Color)
        ensures
            choice is Always ==> r.reset@ == "\x1b[0m"@ && r.bold@ == "\x1b[1m"@ && r.dim@
                == "\x1b[2m"@ && r.info@ == "\x1b[36m"@ && r.success@ == "\x1b[32m"@ && r.error@
                == "\x1b[35m"@,
            choice is Never ==> r.reset@ == Seq::<char>::empty() && r.bold@ == Seq::<
                char,
            >::empty() && r.dim@ == Seq::<char>::empty() && r.info@ == Seq::<char>::empty()
                && r.success@ == Seq::<char>::empty() && r.error@ == Seq::<char>::empty(),
    {
        match choice {
            ColorChoice::Always => Color {
                reset: "\x1b[0m",
                bold: "\x1b[1m",
                dim: "\x1b[2m",
                info: "\x1b[36m",
                success: "\x1b[32m",
                error: "\x1b[35m",
            },
            ColorChoice::Never => {
                let r = Color { reset: "", bold: "", dim: "", info: "", success: "", error: "" };
                proof {
                    reveal_strlit("");
                }
                r
            },
        }
    }
}

} // verus!
