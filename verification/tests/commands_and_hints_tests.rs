use mdchat::commands::Command;
use mdchat::hints::extract_language_hint;

#[test]
fn command_words_parse() {
    assert_eq!(Command::parse("exit"), Command::Exit);
    assert_eq!(Command::parse("clear"), Command::Clear);
    assert_eq!(Command::parse("new"), Command::New);
}

#[test]
fn command_words_are_case_insensitive_and_trimmed() {
    assert_eq!(Command::parse("  EXIT  "), Command::Exit);
    assert_eq!(Command::parse("Clear"), Command::Clear);
    assert_eq!(Command::parse(" New"), Command::New);
}

#[test]
fn other_input_is_a_trimmed_message() {
    assert_eq!(Command::parse("hello"), Command::Message("hello".to_string()));
    assert_eq!(Command::parse("  hi there  "), Command::Message("hi there".to_string()));
    assert_eq!(Command::parse("exits"), Command::Message("exits".to_string()));
}

#[test]
fn command_from_str_round_trip() {
    assert_eq!("exit".parse::<Command>(), Ok(Command::Exit));
    assert_eq!("ask me".parse::<Command>(), Ok(Command::Message("ask me".to_string())));
}

#[test]
fn keyword_hint_matches() {
    assert_eq!(extract_language_hint("How do I write rust code?"), Some("rust".to_string()));
    assert_eq!(extract_language_hint("a PYTHON question"), Some("python".to_string()));
    assert_eq!(extract_language_hint("bash scripting"), Some("shell".to_string()));
}

#[test]
fn generic_programming_words_fall_back_to_plain() {
    assert_eq!(extract_language_hint("show me a function"), Some("txt".to_string()));
    assert_eq!(extract_language_hint("explain this algorithm"), Some("txt".to_string()));
}

#[test]
fn unrelated_input_gives_no_hint() {
    assert_eq!(extract_language_hint("hello there"), None);
    assert_eq!(extract_language_hint("what is the weather"), None);
}

#[test]
fn earlier_table_entries_win() {
    // "python" appears before the generic words would apply
    assert_eq!(
        extract_language_hint("write a python program"),
        Some("python".to_string())
    );
}
