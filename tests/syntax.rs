use lakenet::syntax;
use lakenet::syntax::Input;

#[test]
pub fn test_basic_syntax() {
    let sample = "command argument1 \"complex argument\"".to_string();
    let output = vec![
        "command".to_string(),
        "argument1".to_string(),
        "complex argument".to_string(),
    ];

    assert_eq!(output, syntax::parse_string_to_segments(sample));
}

#[test]
pub fn unfinished_quotes() {
    let sample = "command argument1 \"complex argument".to_string();
    let output = vec![
        "command".to_string(),
        "argument1".to_string(),
        "complex argument".to_string(),
    ];
    assert_eq!(output, syntax::parse_string_to_segments(sample));
}

#[test]
pub fn single_unfinished_quote_at_the_end() {
    let sample = "command argument1 \"".to_string();
    let output = vec!["command".to_string(), "argument1".to_string()];

    assert_eq!(output, syntax::parse_string_to_segments(sample));
}

#[test]
pub fn no_arguments() {
    let sample = "command".to_string();

    let output = vec!["command".to_string()];
    assert_eq!(output, syntax::parse_string_to_segments(sample));
}

#[test]
pub fn test_empty() {
    let sample = "".to_string();
    let output: Vec<String> = vec![];
    assert_eq!(output, syntax::parse_string_to_segments(sample));
}

#[test]
fn doubled_space_gives_an_empty_word() {
    let output = vec!["a".to_string(), "".to_string(), "b".to_string()];
    assert_eq!(output, syntax::parse_string_to_segments("a  b".to_string()));
}

#[test]
fn quotes_group_and_vanish() {
    let output = vec!["chnick".to_string(), "big bob".to_string()];
    assert_eq!(output, syntax::parse_string_to_segments("chnick \"big bob\"".to_string()));
}

#[test]
fn input_splits_command_and_arguments() {
    let input = Input::from_string("chnick bob".to_string());
    assert_eq!(input.command, "chnick");
    assert_eq!(input.arguments, vec!["bob".to_string()]);

    let input = Input::from_string("whoami".to_string());
    assert_eq!(input.command, "whoami");
    assert!(input.arguments.is_empty());

    let input = Input::new(vec![]);
    assert_eq!(input.command, "");
    assert!(input.arguments.is_empty());
}
