use grep_lite::args::{expand_operands, parse_args, ArgsError};

fn strings(items: &[&str]) -> Vec<String> {
    items.iter().map(|s| s.to_string()).collect()
}

#[test]
fn reads_pattern_and_files() {
    let (args, recursive) = parse_args(&strings(&["grep", "-E", "a+", "f1"]), false).unwrap();
    assert_eq!(args.pattern_text, "a+");
    assert_eq!(args.file_paths, strings(&["f1"]));
    assert!(!args.print_file_name);
    assert!(!args.only_matching);
    assert!(!args.color_mode);
    assert!(!recursive);
}

#[test]
fn no_file_means_standard_input() {
    let (args, _) = parse_args(&strings(&["grep", "-E", "x"]), false).unwrap();
    assert_eq!(args.pattern_text, "x");
    assert!(args.file_paths.is_empty());
    assert!(!args.print_file_name);
}

#[test]
fn several_files_are_named() {
    let (args, _) = parse_args(&strings(&["grep", "-o", "--color=always", "x", "a", "b"]), false).unwrap();
    assert_eq!(args.file_paths, strings(&["a", "b"]));
    assert!(args.print_file_name);
    assert!(args.only_matching);
    assert!(args.color_mode);
}

#[test]
fn color_auto_follows_the_terminal() {
    let (args, _) = parse_args(&strings(&["grep", "--color=auto", "x"]), true).unwrap();
    assert!(args.color_mode);
    let (args, _) = parse_args(&strings(&["grep", "--color=auto", "x"]), false).unwrap();
    assert!(!args.color_mode);
    let (args, _) = parse_args(&strings(&["grep", "--color", "x"]), true).unwrap();
    assert!(!args.color_mode);
}

#[test]
fn recursive_flag_names_files() {
    let (args, recursive) = parse_args(&strings(&["grep", "-r", "x", "dir"]), false).unwrap();
    assert!(recursive);
    assert!(args.print_file_name);
    assert_eq!(args.file_paths, strings(&["dir"]));
}

#[test]
fn missing_pattern_is_an_error() {
    assert!(matches!(parse_args(&strings(&["grep", "-E"]), false), Err(ArgsError::NoPattern)));
    assert!(matches!(parse_args(&strings(&["grep"]), false), Err(ArgsError::NoPattern)));
    assert!(matches!(parse_args(&strings(&[]), false), Err(ArgsError::NoPattern)));
}

#[test]
fn program_name_counts_among_operands_unless_it_is_a_flag() {
    let (args, _) = parse_args(&strings(&["-grep", "x", "y"]), false).unwrap();
    assert_eq!(args.pattern_text, "x");
    assert!(args.file_paths.is_empty());
}

#[test]
fn directories_stand_for_their_files() {
    let files = expand_operands(
        &strings(&["a", "d", "b"]),
        &vec![None, Some(strings(&["d/x", "d/y"])), None],
    );
    assert_eq!(files, strings(&["a", "d/x", "d/y", "b"]));
    let files = expand_operands(&strings(&["e"]), &vec![Some(vec![])]);
    assert!(files.is_empty());
}
