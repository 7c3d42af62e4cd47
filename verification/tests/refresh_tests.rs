use rs_outdated::refresh::{
    error_directory, error_file_paths, is_error_filename, make_error_filename, refresh_transition,
    startup_check, RefreshAction, RefreshOutcome, StartupState,
};

fn names(texts: &[&str]) -> Vec<Vec<u8>> {
    texts.iter().map(|t| t.as_bytes().to_vec()).collect()
}

#[test]
fn error_directory_is_fixed() {
    assert_eq!(error_directory(), b"/tmp/rs_outdated".to_vec());
}

#[test]
fn make_error_filename_embeds_the_timestamp() {
    assert_eq!(make_error_filename(1234567890), b"brew_output_1234567890".to_vec());
    assert_eq!(make_error_filename(0), b"brew_output_0".to_vec());
    assert_eq!(
        make_error_filename(u64::MAX),
        b"brew_output_18446744073709551615".to_vec()
    );
}

#[test]
fn is_error_filename_matches_only_unresolved_records() {
    assert!(is_error_filename(b"brew_output_5"));
    assert!(is_error_filename(b"brew_output_1234567890"));
    assert!(!is_error_filename(b"brew_output_"));
    assert!(!is_error_filename(b"brew_output_5_resolved"));
    assert!(!is_error_filename(b"brew_output_5a"));
    assert!(!is_error_filename(b"something_else"));
    assert!(!is_error_filename(b""));
}

#[test]
fn error_file_paths_filters_the_listing() {
    let listing = names(&["brew_output_1", "junk", "brew_output_2_resolved", "brew_output_3"]);
    assert_eq!(error_file_paths(&listing), names(&["brew_output_1", "brew_output_3"]));
}

#[test]
fn startup_check_missing_directory_is_clean() {
    match startup_check(&None) {
        StartupState::Clean => {}
        StartupState::Failed(_) => panic!("a missing directory must mean CLEAN"),
    }
}

#[test]
fn startup_check_empty_directory_is_clean() {
    match startup_check(&Some(Vec::new())) {
        StartupState::Clean => {}
        StartupState::Failed(_) => panic!("an empty directory must mean CLEAN"),
    }
}

#[test]
fn startup_check_names_the_latest_failure() {
    let listing = names(&["brew_output_100", "brew_output_200", "notes.txt"]);
    match startup_check(&Some(listing)) {
        StartupState::Failed(f) => assert_eq!(f, b"brew_output_200".to_vec()),
        StartupState::Clean => panic!("an unresolved record must be reported"),
    }
    let reordered = names(&["brew_output_200", "brew_output_100"]);
    match startup_check(&Some(reordered)) {
        StartupState::Failed(f) => assert_eq!(f, b"brew_output_200".to_vec()),
        StartupState::Clean => panic!("an unresolved record must be reported"),
    }
}

#[test]
fn startup_check_compares_timestamps_numerically() {
    // Numeric comparison of the embedded value, not plain string order.
    let listing = names(&["brew_output_9", "brew_output_10"]);
    match startup_check(&Some(listing)) {
        StartupState::Failed(f) => assert_eq!(f, b"brew_output_10".to_vec()),
        StartupState::Clean => panic!("an unresolved record must be reported"),
    }
    let padded = names(&["brew_output_010", "brew_output_9"]);
    match startup_check(&Some(padded)) {
        StartupState::Failed(f) => assert_eq!(f, b"brew_output_010".to_vec()),
        StartupState::Clean => panic!("an unresolved record must be reported"),
    }
    let huge = names(&["brew_output_99999999999999999999999999", "brew_output_1"]);
    match startup_check(&Some(huge)) {
        StartupState::Failed(f) => {
            assert_eq!(f, b"brew_output_99999999999999999999999999".to_vec())
        }
        StartupState::Clean => panic!("an unresolved record must be reported"),
    }
}

#[test]
fn startup_check_ignores_resolved_records() {
    let listing = names(&["brew_output_100_resolved", "brew_output_200_resolved"]);
    match startup_check(&Some(listing)) {
        StartupState::Clean => {}
        StartupState::Failed(_) => panic!("resolved records must not be reported"),
    }
}

#[test]
fn failed_refresh_writes_a_timestamped_record() {
    let listing = Vec::new();
    match refresh_transition(RefreshOutcome::Failure(b"boom".to_vec()), 42, &listing) {
        RefreshAction::WriteError { filename, contents } => {
            assert_eq!(filename, b"brew_output_42".to_vec());
            assert_eq!(contents, b"boom".to_vec());
        }
        RefreshAction::Resolve { .. } => panic!("a failure must write a record"),
    }
}

#[test]
fn two_failures_leave_two_distinct_records_and_success_clears_them() {
    // First failure at t=10, second at t=11: two distinct unresolved files.
    let f1 = match refresh_transition(RefreshOutcome::Failure(b"e1".to_vec()), 10, &Vec::new()) {
        RefreshAction::WriteError { filename, .. } => filename,
        RefreshAction::Resolve { .. } => panic!("a failure must write a record"),
    };
    let f2 = match refresh_transition(RefreshOutcome::Failure(b"e2".to_vec()), 11, &Vec::new()) {
        RefreshAction::WriteError { filename, .. } => filename,
        RefreshAction::Resolve { .. } => panic!("a failure must write a record"),
    };
    assert_ne!(f1, f2);

    // A later success renames both records to their resolved form.
    let listing = vec![f1.clone(), f2.clone()];
    let renames = match refresh_transition(RefreshOutcome::Success, 12, &listing) {
        RefreshAction::Resolve { renames } => renames,
        RefreshAction::WriteError { .. } => panic!("a success must resolve records"),
    };
    assert_eq!(renames.len(), 2);
    assert_eq!(renames[0].0, f1);
    assert_eq!(renames[0].1, b"brew_output_10_resolved".to_vec());
    assert_eq!(renames[1].0, f2);
    assert_eq!(renames[1].1, b"brew_output_11_resolved".to_vec());

    // Applying the renames leaves a directory the next startup reads as CLEAN.
    let after: Vec<Vec<u8>> = renames.into_iter().map(|p| p.1).collect();
    match startup_check(&Some(after)) {
        StartupState::Clean => {}
        StartupState::Failed(_) => panic!("resolved records must mean CLEAN"),
    }
}

#[test]
fn successful_refresh_leaves_other_files_alone() {
    let listing = names(&["brew_output_5", "unrelated", "brew_output_7_resolved"]);
    let renames = match refresh_transition(RefreshOutcome::Success, 100, &listing) {
        RefreshAction::Resolve { renames } => renames,
        RefreshAction::WriteError { .. } => panic!("a success must resolve records"),
    };
    assert_eq!(renames.len(), 1);
    assert_eq!(renames[0].0, b"brew_output_5".to_vec());
    assert_eq!(renames[0].1, b"brew_output_5_resolved".to_vec());
}
