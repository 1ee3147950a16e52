use email_cli::should_print_help_for_no_args;

#[test]
fn no_args_prints_help_only_for_interactive_stdin() {
    // `email-cli` with no arguments: no subcommand and no file.
    assert!(should_print_help_for_no_args(false, None, true));
    assert!(!should_print_help_for_no_args(false, None, false));
}

#[test]
fn explicit_stdin_arg_does_not_print_help() {
    // `email-cli -`: the file argument is `-`.
    assert!(!should_print_help_for_no_args(false, Some("-"), true));
}
