use chat_server::transcript::{
    messages_to_list, said_by_user, speaker_row_of, style_message, Span, Tone,
};

fn show(row: &Vec<Span>) -> Vec<(String, Tone)> {
    row.iter().map(|span| (span.text.clone(), span.tone)).collect()
}

fn piece(text: &str, tone: Tone) -> (String, Tone) {
    (text.to_string(), tone)
}

fn strings(items: &[&str]) -> Vec<String> {
    items.iter().map(|s| s.to_string()).collect()
}

#[test]
fn colon_marks_what_a_user_said() {
    assert!(said_by_user("alpha: hi"));
    assert!(said_by_user(":"));
    assert!(!said_by_user("alpha joined"));
    assert!(!said_by_user(""));
}

#[test]
fn speaker_row_is_bold_up_to_the_first_colon() {
    assert_eq!(show(&speaker_row_of("alpha: hi")), vec![
        piece("alpha", Tone::Bold),
        piece(":", Tone::Plain),
        piece(" hi", Tone::Plain),
    ]);
    assert_eq!(show(&speaker_row_of("a:b:c:")), vec![
        piece("a", Tone::Bold),
        piece(":", Tone::Plain),
        piece("b", Tone::Plain),
        piece(":", Tone::Plain),
        piece("c", Tone::Plain),
        piece(":", Tone::Plain),
        piece("", Tone::Plain),
    ]);
    assert_eq!(show(&speaker_row_of("no colon")), vec![piece("no colon", Tone::Bold)]);
    assert_eq!(show(&speaker_row_of("")), vec![piece("", Tone::Bold)]);
}

#[test]
fn rows_of_a_message_are_marked_up() {
    let lines = strings(&["alpha: one", "two", "three"]);
    let rows = style_message(true, &lines);
    assert_eq!(rows.len(), 3);
    assert_eq!(show(&rows[0])[0], piece("alpha", Tone::Bold));
    assert_eq!(show(&rows[1]), vec![piece("two", Tone::Plain)]);
    assert_eq!(show(&rows[2]), vec![piece("three", Tone::Plain)]);
    let rows = style_message(false, &lines);
    assert_eq!(show(&rows[0]), vec![piece("alpha: one", Tone::Faint)]);
    assert_eq!(show(&rows[2]), vec![piece("three", Tone::Faint)]);
    assert!(style_message(true, &Vec::new()).is_empty());
    assert!(style_message(false, &Vec::new()).is_empty());
}

#[test]
fn transcript_shows_the_latest_rows_at_the_bottom() {
    let msgs = strings(&["You joined main", "alpha: hello there", "beta joined", "beta: hi"]);
    let list = messages_to_list(&msgs, 3, 40);
    assert_eq!(list.len(), 3);
    assert_eq!(show(&list[0])[0], piece("alpha", Tone::Bold));
    assert_eq!(show(&list[1]), vec![piece("beta joined", Tone::Faint)]);
    assert_eq!(show(&list[2]), vec![
        piece("beta", Tone::Bold),
        piece(":", Tone::Plain),
        piece(" hi", Tone::Plain),
    ]);
}

#[test]
fn transcript_is_padded_at_the_top() {
    let msgs = strings(&["beta joined"]);
    let list = messages_to_list(&msgs, 4, 40);
    assert_eq!(list.len(), 4);
    assert!(list[0].is_empty() && list[1].is_empty() && list[2].is_empty());
    assert_eq!(show(&list[3]), vec![piece("beta joined", Tone::Faint)]);
    let list = messages_to_list(&Vec::new(), 2, 40);
    assert_eq!(list.len(), 2);
    assert!(list[0].is_empty() && list[1].is_empty());
}

#[test]
fn transcript_wraps_long_messages() {
    let msgs = strings(&["alpha: one two three four five six seven eight nine ten"]);
    let list = messages_to_list(&msgs, 10, 12);
    assert_eq!(list.len(), 10);
    let rows: Vec<String> = list
        .iter()
        .filter(|row| !row.is_empty())
        .map(|row| row.iter().map(|span| span.text.as_str()).collect::<String>())
        .collect();
    assert!(rows.len() >= 5);
    assert!(rows.iter().all(|row| row.chars().count() <= 12));
    assert_eq!(rows.join(" "), msgs[0]);
    assert_eq!(list[10 - rows.len()][0].tone, Tone::Bold);
    assert_eq!(list[9][0].tone, Tone::Plain);
    let cut = messages_to_list(&msgs, 2, 12);
    assert_eq!(cut.len(), 2);
    assert_eq!(show(&cut[1]), show(&list[9]));
    assert_eq!(show(&cut[0]), show(&list[8]));
}

#[test]
fn window_without_lines_shows_the_last_row() {
    let msgs = strings(&["beta joined", "beta left"]);
    let list = messages_to_list(&msgs, 0, 40);
    assert_eq!(list.len(), 1);
    assert_eq!(show(&list[0]), vec![piece("beta left", Tone::Faint)]);
    assert!(messages_to_list(&Vec::new(), 0, 40).is_empty());
}
