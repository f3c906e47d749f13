use std::path::{Path, PathBuf};

use bfc::names::executable_name;

/// The file name of a path, as the command line tool takes it.
fn file_name(path: &Path) -> &str {
    path.file_name().unwrap().to_str().unwrap()
}

#[test]
fn executable_name_bf() {
    assert_eq!(executable_name(file_name(&PathBuf::from("foo.bf"))), "foo");
}

#[test]
fn executable_name_b() {
    assert_eq!(executable_name(file_name(&PathBuf::from("foo_bar.b"))), "foo_bar");
}

#[test]
fn executable_name_relative_path() {
    assert_eq!(executable_name(file_name(&PathBuf::from("bar/baz.bf"))), "baz");
}
