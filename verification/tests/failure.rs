use gtk_icon_debloat::failure::{is_fatal, Failure};

#[test]
fn a_failed_copy_is_passed_over() {
    assert!(!is_fatal(Failure::FileCopy));
}

#[test]
fn every_other_failure_ends_the_run() {
    assert!(is_fatal(Failure::MissingArgument));
    assert!(is_fatal(Failure::PathResolution));
    assert!(is_fatal(Failure::IconListNotFound));
    assert!(is_fatal(Failure::DirectoryCreation));
    assert!(is_fatal(Failure::DirectoryScan));
}

#[test]
fn a_missing_icon_list_ends_the_run() {
    assert!(is_fatal(Failure::IconListNotFound));
}
