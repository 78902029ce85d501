use std::path::Path;

use webify_models::cli::{parse_args_for_path, ArgsError};

fn is_dir(p: &String) -> bool {
    Path::new(p).is_dir()
}

#[test]
fn it_returns_the_correct_arg() {
    let mut args: Vec<String> = Vec::new();
    args.push(String::from("foo/bar")); // Test base path
    args.push(String::from("/")); // Test provided arg path

    // Return the first argument as a path
    let arg = parse_args_for_path(&args, is_dir).unwrap();
    assert_eq!(Path::new(arg), Path::new("/"));
}

#[test]
fn it_errors_on_no_path() {
    let mut args: Vec<String> = Vec::new();
    args.push(String::from("foo/bar")); // Test base path

    let arg = parse_args_for_path(&args, is_dir);
    assert!(arg.is_err());
}

#[test]
fn it_errors_when_path_is_file() {
    let mut args: Vec<String> = Vec::new();
    args.push(String::from("foo/bar")); // Test base path
    args.push(String::from("tests/README.md"));

    let arg = parse_args_for_path(&args, is_dir);
    assert!(arg.is_err());
}

#[test]
fn missing_path_gives_its_own_error() {
    let args: Vec<String> = vec![String::from("webify_models")];
    assert_eq!(parse_args_for_path(&args, is_dir), Err(ArgsError::PathNotProvided));
    let none: Vec<String> = Vec::new();
    assert_eq!(parse_args_for_path(&none, is_dir), Err(ArgsError::PathNotProvided));
}

#[test]
fn non_directory_gives_its_own_error() {
    let args: Vec<String> = vec![String::from("prog"), String::from("x")];
    assert_eq!(parse_args_for_path(&args, |_p: &String| false), Err(ArgsError::NotADirectory));
    let ok = parse_args_for_path(&args, |_p: &String| true).unwrap();
    assert_eq!(ok.as_str(), "x");
}

#[test]
fn only_the_first_argument_is_asked_about() {
    let args: Vec<String> = vec![String::from("prog"), String::from("a"), String::from("b")];
    let r = parse_args_for_path(&args, |p: &String| p == "a");
    assert_eq!(r, Ok(&args[1]));
}

#[test]
fn error_messages() {
    assert_eq!(ArgsError::PathNotProvided.message(), "Path not provided, no work to do.");
    assert_eq!(
        ArgsError::NotADirectory.message(),
        "Path provided is a file, please provide a directory."
    );
}
