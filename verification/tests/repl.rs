use arbor::common::app_builder::{Arbor, Args};
use arbor::util::repl::{Key, Next, Repl};

fn repl_with(words: &[&str], limit: u8, backup: bool) -> Repl {
    let args = Args {
        language: None,
        thread_count: None,
        max_suggestion: Some(limit),
        backup,
        output: None,
    };
    let mut arbor = Arbor::build(args).unwrap();
    for word in words {
        arbor.autocomplete.insert_word(word.to_string()).unwrap();
    }
    Repl::new(arbor)
}

fn type_text(repl: &mut Repl, text: &str) {
    for c in text.chars() {
        repl.press(Key::Char(c));
    }
}

#[test]
fn a_new_line_is_empty() {
    let mut repl = repl_with(&["hello"], 10, false);

    assert_eq!(repl.get_input(), "");
    assert_eq!(repl.get_selected(), 0);
    assert_eq!(repl.current_word(), "");
    assert_eq!(repl.split_input(), vec![""]);
    assert_eq!(repl.refresh(), vec!["hello"]);
}

#[test]
fn typing_narrows_the_suggestions() {
    let mut repl = repl_with(&["hello", "helicopter", "hall"], 10, false);

    let out = repl.press(Key::Char('h'));
    assert_eq!(out.next, Next::Redraw);
    assert_eq!(out.suggestions, vec!["hello", "helicopter", "hall"]);
    assert!(out.records.is_empty());

    let out = repl.press(Key::Char('e'));
    assert_eq!(out.suggestions, vec!["hello", "helicopter"]);
    assert_eq!(repl.get_input(), "he");

    let out = repl.press(Key::Char('x'));
    assert_eq!(out.suggestions, Vec::<String>::new());
    assert_eq!(repl.get_input(), "hex");
}

#[test]
fn the_line_splits_at_spaces() {
    let mut repl = repl_with(&[], 10, false);

    type_text(&mut repl, "ab cd e");
    assert_eq!(repl.get_input(), "ab cd e");
    assert_eq!(repl.split_input(), vec!["ab", "cd", "e"]);
    assert_eq!(repl.current_word(), "e");

    repl.press(Key::Char(' '));
    assert_eq!(repl.split_input(), vec!["ab", "cd", "e", ""]);
    assert_eq!(repl.current_word(), "");
}

#[test]
fn a_space_on_an_empty_line_is_skipped() {
    let mut repl = repl_with(&["hello"], 10, false);

    let out = repl.press(Key::Char(' '));
    assert_eq!(out.next, Next::Skip);
    assert!(out.suggestions.is_empty());
    assert_eq!(repl.get_input(), "");
}

#[test]
fn a_space_after_a_space_changes_nothing() {
    let mut repl = repl_with(&["hello"], 10, false);

    type_text(&mut repl, "ab ");
    let out = repl.press(Key::Char(' '));
    assert_eq!(out.next, Next::Redraw);
    assert_eq!(repl.get_input(), "ab ");
    assert_eq!(repl.split_input(), vec!["ab", ""]);
}

#[test]
fn backspace_takes_the_last_character() {
    let mut repl = repl_with(&["ab"], 10, false);

    assert_eq!(repl.press(Key::Backspace).next, Next::Skip);

    type_text(&mut repl, "ab c");
    let out = repl.press(Key::Backspace);
    assert_eq!(out.next, Next::Redraw);
    assert_eq!(repl.get_input(), "ab ");
    assert_eq!(repl.current_word(), "");

    repl.press(Key::Backspace);
    assert_eq!(repl.get_input(), "ab");
    assert_eq!(repl.current_word(), "ab");
    assert_eq!(repl.split_input(), vec!["ab"]);

    let out = repl.press(Key::Backspace);
    assert_eq!(repl.get_input(), "a");
    assert_eq!(out.suggestions, vec!["ab"]);
}

#[test]
fn the_mark_moves_and_stays_on_the_list() {
    let mut repl = repl_with(&["hello", "helicopter", "hall"], 10, false);
    type_text(&mut repl, "h");

    assert_eq!(repl.get_selected(), 0);
    repl.press(Key::Up);
    assert_eq!(repl.get_selected(), 0);
    repl.press(Key::Down);
    assert_eq!(repl.get_selected(), 1);
    repl.press(Key::Down);
    assert_eq!(repl.get_selected(), 2);
    repl.press(Key::Down);
    assert_eq!(repl.get_selected(), 2);
    repl.press(Key::Up);
    assert_eq!(repl.get_selected(), 1);

    repl.press(Key::Char('e'));
    assert_eq!(repl.get_selected(), 0);
}

#[test]
fn the_mark_falls_back_to_zero_without_suggestions() {
    let mut repl = repl_with(&[], 10, false);

    for _ in 0..300 {
        let out = repl.press(Key::Down);
        assert_eq!(out.next, Next::Redraw);
        assert_eq!(repl.get_selected(), 0);
    }
}

#[test]
fn tab_completes_the_word_being_typed() {
    let mut repl = repl_with(&["hello", "helicopter", "hall"], 10, false);

    type_text(&mut repl, "he");
    repl.press(Key::Down);
    let out = repl.press(Key::Tab);

    assert_eq!(out.next, Next::Redraw);
    assert_eq!(repl.get_input(), "helicopter ");
    assert_eq!(repl.get_selected(), 0);
    assert_eq!(repl.current_word(), "");
    assert_eq!(out.suggestions, vec!["hello", "helicopter", "hall"]);

    type_text(&mut repl, "ha");
    repl.press(Key::Tab);
    assert_eq!(repl.get_input(), "helicopter hall ");
    assert_eq!(repl.split_input(), vec!["helicopter", "hall", ""]);
}

#[test]
fn tab_without_a_suggestion_only_starts_the_next_word() {
    let mut repl = repl_with(&["hello"], 10, false);

    assert_eq!(repl.press(Key::Tab).next, Next::Skip);
    assert_eq!(repl.get_input(), "");

    type_text(&mut repl, "xy");
    repl.press(Key::Tab);
    assert_eq!(repl.get_input(), "xy ");
    assert_eq!(repl.split_input(), vec!["xy", ""]);
}

#[test]
fn enter_learns_the_longer_words_and_empties_the_line() {
    let mut repl = repl_with(&[], 10, true);

    type_text(&mut repl, "hello a hi  hey");
    let out = repl.press(Key::Enter);

    assert_eq!(out.next, Next::Redraw);
    assert_eq!(out.records, vec!["hello\n", "hi\n", "hey\n"]);
    assert_eq!(out.suggestions, vec!["hello", "hey", "hi"]);
    assert_eq!(repl.get_input(), "");
    assert_eq!(repl.get_selected(), 0);
    assert_eq!(repl.split_input(), vec![""]);

    let out = repl.press(Key::Char('a'));
    assert_eq!(out.suggestions, Vec::<String>::new());
}

#[test]
fn enter_without_a_log_hands_out_nothing() {
    let mut repl = repl_with(&[], 10, false);

    type_text(&mut repl, "hello");
    let out = repl.press(Key::Enter);

    assert_eq!(out.next, Next::Redraw);
    assert!(out.records.is_empty());
    assert_eq!(out.suggestions, vec!["hello"]);
}

#[test]
fn enter_stops_at_a_word_that_is_refused() {
    let mut repl = repl_with(&[], 10, true);

    type_text(&mut repl, "hello h1 hey");
    let out = repl.press(Key::Enter);

    assert_eq!(out.next, Next::Fail);
    assert_eq!(out.records, vec!["hello\n"]);
    assert!(out.suggestions.is_empty());
    assert_eq!(repl.get_input(), "hello h1 hey");
    assert_eq!(repl.current_word(), "hey");

    repl.press(Key::Backspace);
    repl.press(Key::Backspace);
    let out = repl.press(Key::Backspace);
    assert_eq!(out.suggestions, vec!["hello"]);
}

#[test]
fn escape_and_interrupt_quit() {
    let mut repl = repl_with(&["hello"], 10, false);
    type_text(&mut repl, "he");

    for key in [Key::Esc, Key::Interrupt] {
        let out = repl.press(key);
        assert_eq!(out.next, Next::Quit);
        assert!(out.records.is_empty());
        assert!(out.suggestions.is_empty());
        assert_eq!(repl.get_input(), "he");
    }
}

#[test]
fn refresh_cuts_the_suggestions_at_the_limit() {
    let mut repl = repl_with(&["hello", "helicopter", "hall"], 2, false);
    type_text(&mut repl, "h");

    assert_eq!(repl.refresh(), vec!["hello", "helicopter"]);
    repl.press(Key::Down);
    repl.press(Key::Down);
    assert_eq!(repl.get_selected(), 1);
}
