use libpt::args::{Level, VerbosityLevel};

#[test]
fn the_named_flags_give_their_levels() {
    assert_eq!(VerbosityLevel::trace().level(), Level::Trace);
    assert_eq!(VerbosityLevel::debug().level(), Level::Debug);
    assert_eq!(VerbosityLevel::info().level(), Level::Info);
    assert_eq!(VerbosityLevel::warn().level(), Level::Warn);
    assert_eq!(VerbosityLevel::error().level(), Level::Error);
    assert!(VerbosityLevel::default() == VerbosityLevel::info());
}

#[test]
fn no_flags_are_the_default() {
    assert!(!VerbosityLevel::info().changed());
    assert!(VerbosityLevel::warn().changed());
    assert!(VerbosityLevel::debug().changed());
    assert!(VerbosityLevel { verbose: 3, quiet: 3 }.changed());
}

#[test]
fn the_rank_moves_with_the_flags() {
    assert_eq!(VerbosityLevel { verbose: 0, quiet: 0 }.value(), 2);
    assert_eq!(VerbosityLevel { verbose: 1, quiet: 0 }.value(), 3);
    assert_eq!(VerbosityLevel { verbose: 0, quiet: 1 }.value(), 1);
    assert_eq!(VerbosityLevel { verbose: 0, quiet: 2 }.value(), 0);
    assert_eq!(VerbosityLevel { verbose: 0, quiet: 200 }.value(), 0);
    assert_eq!(VerbosityLevel { verbose: 200, quiet: 0 }.value(), 12);
    // the quiet flags count first, and not below zero
    assert_eq!(VerbosityLevel { verbose: 1, quiet: 5 }.value(), 1);
    assert_eq!(VerbosityLevel { verbose: 255, quiet: 255 }.value(), 10);
}

#[test]
fn every_rank_above_four_is_trace() {
    for verbose in 2..=255u8 {
        assert_eq!(VerbosityLevel { verbose, quiet: 0 }.level(), Level::Trace);
    }
    for quiet in 2..=255u8 {
        assert_eq!(VerbosityLevel { verbose: 0, quiet }.level(), Level::Error);
    }
}

#[test]
fn both_loggers_get_the_same_level() {
    for verbose in 0..=12u8 {
        for quiet in 0..=12u8 {
            let flags = VerbosityLevel { verbose, quiet };
            assert_eq!(flags.level_for_log_crate(), flags.level());
        }
    }
}

#[test]
fn the_ranks_of_the_levels() {
    assert_eq!(VerbosityLevel::level_value(Level::Error), 0);
    assert_eq!(VerbosityLevel::level_value(Level::Warn), 1);
    assert_eq!(VerbosityLevel::level_value(Level::Info), 2);
    assert_eq!(VerbosityLevel::level_value(Level::Debug), 3);
    assert_eq!(VerbosityLevel::level_value(Level::Trace), 4);
}
