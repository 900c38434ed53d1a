use chat_server::names::valid_name;

#[test]
fn name_of_one_character_is_rejected() {
    assert!(!valid_name(Some("a")));
}

#[test]
fn name_of_two_characters_is_accepted() {
    assert!(valid_name(Some("ab")));
}

#[test]
fn name_of_twenty_characters_is_accepted() {
    assert!(valid_name(Some("abcdefghij0123456789")));
}

#[test]
fn name_of_twenty_one_characters_is_rejected() {
    assert!(!valid_name(Some("abcdefghij0123456789x")));
}

#[test]
fn missing_name_is_rejected() {
    assert!(!valid_name(None));
}

#[test]
fn name_with_other_characters_is_rejected() {
    assert!(!valid_name(Some("two words")));
    assert!(!valid_name(Some("caf\u{e9}")));
    assert!(!valid_name(Some("semi;colon")));
    assert!(valid_name(Some("under_score-dash")));
}
