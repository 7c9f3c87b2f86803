use codimate::preview::{parse_args, PreviewCommand};

fn args(list: &[&str]) -> Vec<String> {
    list.iter().map(|s| s.to_string()).collect()
}

#[test]
fn with_no_example_the_list_is_shown() {
    assert_eq!(parse_args(&args(&["preview"])), PreviewCommand::List);
    assert_eq!(parse_args(&args(&[])), PreviewCommand::List);
}

#[test]
fn help_and_list_answer_at_once() {
    assert_eq!(parse_args(&args(&["preview", "-h", "--bogus"])), PreviewCommand::Help);
    assert_eq!(parse_args(&args(&["preview", "--help"])), PreviewCommand::Help);
    assert_eq!(parse_args(&args(&["preview", "-l"])), PreviewCommand::List);
    assert_eq!(parse_args(&args(&["preview", "sorting", "--list"])), PreviewCommand::List);
}

#[test]
fn an_example_is_named_by_flag_or_bare() {
    assert_eq!(parse_args(&args(&["preview", "-e", "sorting"])), PreviewCommand::Preview(2));
    assert_eq!(parse_args(&args(&["preview", "--example", "graph"])), PreviewCommand::Preview(2));
    assert_eq!(parse_args(&args(&["preview", "sorting"])), PreviewCommand::Preview(1));
}

#[test]
fn a_later_flag_replaces_the_example() {
    assert_eq!(parse_args(&args(&["preview", "first", "-e", "second"])), PreviewCommand::Preview(3));
}

#[test]
fn the_example_flag_needs_a_name() {
    assert_eq!(parse_args(&args(&["preview", "-e"])), PreviewCommand::MissingExampleName);
}

#[test]
fn unknown_flags_and_a_second_name_are_refused() {
    assert_eq!(parse_args(&args(&["preview", "-x"])), PreviewCommand::UnknownFlag(1));
    assert_eq!(parse_args(&args(&["preview", "one", "two"])), PreviewCommand::UnknownFlag(2));
}
