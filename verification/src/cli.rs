//! Decisions of the command-line front end that do not depend on I/O.
use vstd::prelude::*;

verus! {

/// With no subcommand and no file, help is printed only when stdin is an
/// interactive terminal; piped input is read instead.
pub fn should_print_help_for_no_args(
    has_command: bool,
    file: Option<&str>,
    stdin_is_terminal: bool,
) -> (r: bool)
    ensures
        r == (!has_command && file is None && stdin_is_terminal),
{
    !has_command && file.is_none() && stdin_is_terminal
}

} // verus!
