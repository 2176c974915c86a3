//! The command line's vocabulary, and the formatter's options.

use accent_proust::cli::{Exit, ListMode, Outcome, fmt_exit, outcome_exit, refuses_write};
use accent_proust::format::{FormatOptions, MAX_TAG_OPENING_WIDTH, OrderedListMode};

#[test]
fn the_worst_outcome_wins() {
    assert_eq!(Exit::Success.and(Exit::Problem), Exit::Problem);
    assert_eq!(Exit::Failure.and(Exit::Problem), Exit::Failure);
    assert_eq!(Exit::Success.and(Exit::Success), Exit::Success);
    assert_eq!(Exit::Problem.code_number(), 1);
    assert_eq!(Exit::Failure.code_number(), 2);
}

#[test]
fn a_list_mode_flag_names_the_library_mode() {
    assert_eq!(ListMode::Repeat.mode(), OrderedListMode::Repeat);
    assert_eq!(ListMode::Increment.mode(), OrderedListMode::Increment);
}

#[test]
fn format_options_build_from_the_defaults() {
    let options = FormatOptions::new();
    assert_eq!(options.max_tag_opening_width, MAX_TAG_OPENING_WIDTH);
    assert_eq!(options.ordered_list_mode, OrderedListMode::Repeat);
    let options = options.max_tag_opening_width(40).ordered_list_mode(OrderedListMode::Increment);
    assert_eq!(options.max_tag_opening_width, 40);
    assert_eq!(options.ordered_list_mode, OrderedListMode::Increment);
    assert_eq!(FormatOptions::default(), FormatOptions::new());
    assert_eq!(OrderedListMode::default(), OrderedListMode::Repeat);
}

#[test]
fn a_failed_input_fails_the_run() {
    assert_eq!(outcome_exit(&[Outcome::Changed, Outcome::Failed], true), Exit::Failure);
    assert_eq!(outcome_exit(&[Outcome::Failed], false), Exit::Failure);
}

#[test]
fn check_reports_a_change_as_a_problem() {
    assert_eq!(outcome_exit(&[Outcome::Unchanged, Outcome::Changed], true), Exit::Problem);
    assert_eq!(outcome_exit(&[Outcome::Unchanged, Outcome::Changed], false), Exit::Success);
    assert_eq!(outcome_exit(&[Outcome::Unchanged], true), Exit::Success);
    assert_eq!(outcome_exit(&[], true), Exit::Success);
}

#[test]
fn write_without_paths_is_refused() {
    assert!(refuses_write(false, true));
    assert!(!refuses_write(true, true));
    assert!(!refuses_write(false, false));
    assert_eq!(fmt_exit(false, true, &[], false), Exit::Failure);
    assert_eq!(fmt_exit(true, true, &[Outcome::Changed], false), Exit::Success);
    assert_eq!(fmt_exit(false, false, &[Outcome::Changed], true), Exit::Problem);
}
