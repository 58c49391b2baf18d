//! Messages for the terminal: warnings and the notice shown before commands.
use vstd::prelude::*;

use crate::text::{owned, push_str};

verus! {

pub open spec fn warning_text(message: Seq<char>) -> Seq<char> {
    "warning: "@ + message
}

pub open spec fn notice_first() -> Seq<char> {
    "linkmap is an experimental hobby project and is still under review. Use at your own risk."@
}

pub open spec fn notice_second() -> Seq<char> {
    "If you find issues, please contact Ashley via LinkedIn: https://www.linkedin.com/in/ashley-immanuel-81609731b/"@
}

/// The line written to standard error for a warning.
pub fn warning_line(message: &str) -> (r: String)
    ensures
        r@ == warning_text(message@),
{
    let mut line = owned("warning: ");
    push_str(&mut line, message);
    line
}

/// The lines of the notice shown before a command, as warnings on standard
/// error; none when the command is quiet.
pub fn disclaimer(quiet: bool) -> (r: Vec<String>)
    ensures
        quiet ==> r@.len() == 0,
        !quiet ==> r@.len() == 2 && r@[0]@ == warning_text(notice_first()) && r@[1]@ == warning_text(
            notice_second(),
        ),
{
    let mut lines: Vec<String> = Vec::new();
    if quiet {
        return lines;
    }
    lines.push(warning_line(
        "linkmap is an experimental hobby project and is still under review. Use at your own risk.",
    ));
    lines.push(warning_line(
        "If you find issues, please contact Ashley via LinkedIn: https://www.linkedin.com/in/ashley-immanuel-81609731b/",
    ));
    lines
}

} // verus!
