//! The title of the terminal.
use vstd::prelude::*;

use crate::screens::APP_NAME;
use crate::text::concat;

verus! {

/// What a terminal is sent so that it shows a title.
pub open spec fn title_sequence(title: Seq<char>) -> Seq<char> {
    "\x1b]0;"@ + title + "\x07"@
}

/// What is sent to the standard output for it to show a title. Nothing is sent to what is no
/// terminal.
pub fn set_terminal_title(title: &str, is_terminal: bool) -> (r: Option<String>)
    ensures
        r is Some <==> is_terminal,
        r matches Some(text) ==> text@ == title_sequence(title@),
{
    if !is_terminal {
        return None;
    }
    let mut text = concat("\x1b]0;", title);
    text.append("\x07");
    Some(text)
}

/// What is sent to the standard output for it to show the name of the program as its title.
pub fn configure_terminal_identity(is_terminal: bool) -> (r: Option<String>)
    ensures
        r is Some <==> is_terminal,
        r matches Some(text) ==> text@ == title_sequence(APP_NAME@),
{
    set_terminal_title(APP_NAME, is_terminal)
}

/// A title is sent whole, between what opens it and what closes it.
pub proof fn law_title_sequence(title: Seq<char>)
    ensures
        title_sequence(title) == "\x1b]0;"@ + title + "\x07"@,
{
}

} // verus!
