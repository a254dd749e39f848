use per_logparser::paths::{validate_paths, PathError, PathFacts};

fn file(ext: Option<&str>) -> PathFacts {
    PathFacts { exists: true, is_file: true, is_dir: false, extension: ext.map(|e| e.to_string()) }
}

fn dir() -> PathFacts {
    PathFacts { exists: true, is_file: false, is_dir: true, extension: None }
}

fn missing() -> PathFacts {
    PathFacts { exists: false, is_file: false, is_dir: false, extension: None }
}

#[test]
fn valid_paths_pass() {
    assert_eq!(validate_paths(&file(Some("dbc")), &dir(), &dir()), Ok(()));
    assert_eq!(validate_paths(&file(Some("dbc")), &dir(), &missing()), Ok(()));
}

#[test]
fn missing_dbc_is_refused() {
    assert_eq!(validate_paths(&missing(), &missing(), &missing()), Err(PathError::DbcMissing));
}

#[test]
fn dbc_folder_is_refused() {
    let mut d = dir();
    d.extension = Some("dbc".to_string());
    assert_eq!(validate_paths(&d, &dir(), &dir()), Err(PathError::DbcNotFile));
}

#[test]
fn dbc_extension_is_required() {
    assert_eq!(validate_paths(&file(Some("DBC")), &dir(), &dir()), Err(PathError::DbcWrongExtension));
    assert_eq!(validate_paths(&file(Some("dbcx")), &dir(), &dir()), Err(PathError::DbcWrongExtension));
    assert_eq!(validate_paths(&file(None), &dir(), &dir()), Err(PathError::DbcWrongExtension));
}

#[test]
fn input_folder_must_exist() {
    assert_eq!(validate_paths(&file(Some("dbc")), &missing(), &dir()), Err(PathError::InputMissing));
}

#[test]
fn input_must_be_folder() {
    assert_eq!(validate_paths(&file(Some("dbc")), &file(Some("log")), &dir()), Err(PathError::InputNotDir));
}

#[test]
fn output_must_be_folder_if_present() {
    assert_eq!(validate_paths(&file(Some("dbc")), &dir(), &file(None)), Err(PathError::OutputNotDir));
}
