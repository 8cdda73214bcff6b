use arbor::common::app_builder::{Arbor, Args};
use arbor::common::autocomplete::Autocomplete;
use arbor::util::app_data::AppData;
use arbor::util::backup::{Backup, BACKUP_FILE_PATH};
use arbor::util::errors::TrieError;

fn sorted(mut v: Vec<String>) -> Vec<String> {
    v.sort();
    v
}

fn strings(words: &[&str]) -> Vec<String> {
    words.iter().map(|w| w.to_string()).collect()
}

#[test]
fn it_builds_app_data() {
    let app_data = AppData::build(None, None, None);

    assert_eq!(app_data.get_language(), "en-US".to_string());
    assert_eq!(app_data.get_thread_count(), 2);
    assert_eq!(app_data.get_max_suggestion(), 10);

    let app_data = AppData::build(Some("tr-TR".to_string()), Some(4), Some(5));

    assert_eq!(app_data.get_language(), "tr-TR".to_string());
    assert_eq!(app_data.get_thread_count(), 4);
    assert_eq!(app_data.get_max_suggestion(), 5);
}

#[test]
fn default_app_data_is_english_two_threads_ten_suggestions() {
    let app_data = AppData::default();

    assert_eq!(app_data.get_language(), "en-US");
    assert_eq!(app_data.get_thread_count(), 2);
    assert_eq!(app_data.get_max_suggestion(), 10);
}

#[test]
fn backup_names_its_place() {
    assert_eq!(Backup::build(Some("file")).file_path, "file");
    assert_eq!(Backup::build(None).file_path, "/tmp/arbor/backup");
    assert_eq!(BACKUP_FILE_PATH, "/tmp/arbor/backup");
}

#[test]
fn it_saves_data() {
    let backup = Backup::build(Some("file"));

    let words = Vec::from([
        "hello".to_string(),
        "hellium".to_string(),
        "hundred".to_string(),
    ]);

    let written = backup.save_data(words.clone());

    let data_from_file = backup.load_data(&written);

    assert_eq!(data_from_file, words);
}

#[test]
fn a_batch_is_written_one_word_per_line() {
    let backup = Backup::build(None);

    assert_eq!(backup.save_data(strings(&["hello", "hi"])), "hello\nhi\n");
    assert_eq!(backup.save_data(strings(&["hey"])), "hey\n");
    assert_eq!(backup.save_data(Vec::new()), "");
    assert_eq!(backup.save_data(strings(&[""])), "\n");
}

#[test]
fn a_log_is_read_line_by_line() {
    let backup = Backup::build(None);

    assert_eq!(backup.load_data("hello\nhi\nhey\n"), strings(&["hello", "hi", "hey"]));
    assert_eq!(backup.load_data(""), Vec::<String>::new());
    assert_eq!(backup.load_data("\n"), strings(&[""]));
    assert_eq!(backup.load_data("a\n\nb\n"), strings(&["a", "", "b"]));
    assert_eq!(backup.load_data("a\r\nb\r\n"), strings(&["a", "b"]));
    assert_eq!(backup.load_data("a\r\r\nb\n"), strings(&["a\r", "b"]));
    assert_eq!(backup.load_data("a\rb\n"), strings(&["a\rb"]));
}

#[test]
fn an_unfinished_last_line_is_skipped() {
    let backup = Backup::build(None);

    assert_eq!(backup.load_data("hello\nhellium\nhun"), strings(&["hello", "hellium"]));
    assert_eq!(backup.load_data("hun"), Vec::<String>::new());
    assert_eq!(backup.load_data("hello\n\r"), strings(&["hello"]));
}

#[test]
fn a_log_grows_by_appending() {
    let backup = Backup::build(None);
    let first = backup.save_data(strings(&["hello", "hellium"]));
    let second = backup.save_data(strings(&["hundred"]));

    let mut log = first.clone();
    log.push_str(&second);

    let mut expected = backup.load_data(&first);
    expected.extend(backup.load_data(&second));

    assert_eq!(backup.load_data(&log), expected);
    assert_eq!(expected, strings(&["hello", "hellium", "hundred"]));
}

#[test]
fn it_creates_autocomplete_instance() {
    let ac = Autocomplete::build(None, None, None, false, None);

    assert_eq!(ac.get_app_data().get_language(), "en-US");
    assert!(ac.get_backup().is_none());
}

#[test]
fn an_engine_with_a_log_names_its_place() {
    let ac = Autocomplete::build(Some("tr-TR".to_string()), Some(4), Some(5), true, Some("words"));

    assert_eq!(ac.get_app_data().get_language(), "tr-TR");
    assert_eq!(ac.get_app_data().get_thread_count(), 4);
    assert_eq!(ac.get_app_data().get_max_suggestion(), 5);
    assert_eq!(ac.get_backup().unwrap().file_path, "words");

    let ac = Autocomplete::build(None, None, None, true, None);
    assert_eq!(ac.get_backup().unwrap().file_path, "/tmp/arbor/backup");

    let ac = Autocomplete::build(None, None, None, false, Some("words"));
    assert!(ac.get_backup().is_none());
}

#[test]
fn it_loads_backup() -> Result<(), TrieError> {
    let backup = Backup::build(None);

    let words = Vec::from(["hello".to_string(), "hi".to_string(), "hey".to_string()]);

    let log = backup.save_data(words.clone());

    let mut ac = Autocomplete::build(None, None, None, true, None);

    ac.load_backup(&log)?;

    let word_1 = ac.suggest_word("hell")?;
    let word_2 = ac.suggest_word("hi")?;
    let word_3 = ac.suggest_word("hey")?;

    assert_eq!(
        Vec::from([
            word_1.iter().nth(0).unwrap().to_owned(),
            word_2.iter().nth(0).unwrap().to_owned(),
            word_3.iter().nth(0).unwrap().to_owned(),
        ]),
        words
    );

    Ok(())
}

#[test]
fn it_inserts_word_and_suggests() -> Result<(), TrieError> {
    let mut ac = Autocomplete::build(None, None, None, false, None);

    let word = "test".to_string();

    ac.insert_word(word.clone())?;

    let suggestion = ac.suggest_word(word.as_str())?;

    let suggestion = suggestion.iter().nth(0).unwrap().to_owned();

    assert_eq!(word, suggestion);

    Ok(())
}

#[test]
fn it_builds_app() -> Result<(), TrieError> {
    let args = Args {
        language: None,
        thread_count: None,
        max_suggestion: None,
        backup: false,
        output: None,
    };
    let mut arbor = Arbor::build(args).unwrap();
    let word = "hello".to_string();

    arbor.autocomplete.insert_word(word.clone())?;

    let suggestion = arbor.autocomplete.suggest_word("hel")?;

    assert_eq!(suggestion.iter().nth(0).unwrap().to_owned(), word);

    Ok(())
}

#[test]
fn a_place_for_the_log_needs_a_log() {
    let args = Args {
        language: Some("en-US".to_string()),
        thread_count: None,
        max_suggestion: None,
        backup: false,
        output: Some("words".to_string()),
    };
    assert!(!args.is_consistent());
    assert!(Arbor::build(args).is_none());

    let args = Args {
        language: Some("en-US".to_string()),
        thread_count: Some(3),
        max_suggestion: Some(4),
        backup: true,
        output: Some("words".to_string()),
    };
    assert!(args.is_consistent());
    let arbor = Arbor::build(args).unwrap();
    assert_eq!(arbor.autocomplete.get_backup().unwrap().file_path, "words");
    assert_eq!(arbor.autocomplete.get_app_data().get_thread_count(), 3);
    assert_eq!(arbor.autocomplete.get_app_data().get_max_suggestion(), 4);
}

#[test]
fn an_inserted_word_is_suggested_for_itself() {
    let mut ac = Autocomplete::build(None, None, Some(1), false, None);

    for word in ["helper", "help", "helping", "he"] {
        ac.insert_word(word.to_string()).unwrap();
        assert_eq!(ac.suggest_word(word).unwrap(), vec![word.to_string()]);
    }
}

#[test]
fn inserting_a_word_again_gives_the_same_suggestions() {
    let mut once = Autocomplete::build(None, None, Some(2), false, None);
    let mut often = Autocomplete::build(None, None, Some(2), false, None);

    for word in ["hello", "help", "hall"] {
        once.insert_word(word.to_string()).unwrap();
        for _ in 0..4 {
            often.insert_word(word.to_string()).unwrap();
        }
    }

    for prefix in ["", "h", "he", "hel", "hell", "ha", "x"] {
        assert_eq!(once.suggest_word(prefix).unwrap(), often.suggest_word(prefix).unwrap());
    }
}

#[test]
fn the_limit_caps_the_suggestions() {
    let words = ["hello", "helicopter", "helium", "hall", "hundred"];

    for (limit, expected) in [(0u8, 0usize), (1, 1), (2, 2), (3, 3), (4, 3), (10, 3), (255, 3)] {
        let mut ac = Autocomplete::build(None, None, Some(limit), false, None);
        for word in words {
            ac.insert_word(word.to_string()).unwrap();
        }
        let got = ac.suggest_word("hel").unwrap();
        assert_eq!(got.len(), expected);
        assert_eq!(got, strings(&["hello", "helicopter", "helium"])[..expected].to_vec());
    }
}

#[test]
fn the_default_limit_is_ten() {
    let mut ac = Autocomplete::build(None, None, None, false, None);
    for c in 'a'..='l' {
        ac.insert_word(format!("x{}", c)).unwrap();
    }

    assert_eq!(ac.suggest_word("x").unwrap().len(), 10);
}

#[test]
fn an_invalid_word_is_refused_and_not_written() {
    let mut ac = Autocomplete::build(None, None, None, true, Some("words"));

    assert_eq!(ac.insert_word("a1b".to_string()), Err(TrieError::InvalidCharacter));
    assert_eq!(ac.suggest_word("a").unwrap(), Vec::<String>::new());
    assert_eq!(ac.suggest_word("").unwrap(), Vec::<String>::new());
}

#[test]
fn an_unseen_prefix_is_no_error() {
    let mut ac = Autocomplete::build(None, None, None, false, None);
    ac.insert_word("hello".to_string()).unwrap();

    assert_eq!(ac.suggest_word("zz"), Ok(Vec::new()));
    assert_eq!(ac.suggest_word("a1"), Ok(Vec::new()));
}

#[test]
fn a_learned_word_is_handed_out_for_the_log() {
    let mut kept = Autocomplete::build(None, None, None, true, Some("words"));
    let mut unkept = Autocomplete::build(None, None, None, false, None);

    assert_eq!(kept.insert_word("hello".to_string()), Ok(Some("hello\n".to_string())));
    assert_eq!(unkept.insert_word("hello".to_string()), Ok(None));
}

#[test]
fn words_survive_a_restart() {
    let mut log = String::new();
    let mut first = Autocomplete::build(None, None, None, true, Some("words"));
    for word in ["hello", "hellium"] {
        let record = first.insert_word(word.to_string()).unwrap().unwrap();
        log.push_str(&record);
    }
    assert_eq!(log, "hello\nhellium\n");

    let mut second = Autocomplete::build(None, None, None, true, Some("words"));
    assert_eq!(second.suggest_word("hel").unwrap(), Vec::<String>::new());
    second.load_backup(&log).unwrap();

    let got = second.suggest_word("hel").unwrap();
    assert!(got.contains(&"hello".to_string()));
    assert!(got.contains(&"hellium".to_string()));
    assert_eq!(got.len(), 2);
}

#[test]
fn loading_without_a_log_does_nothing() {
    let mut ac = Autocomplete::build(None, None, None, false, None);

    assert_eq!(ac.load_backup("hello\nhi\n"), Ok(()));
    assert_eq!(ac.suggest_word("").unwrap(), Vec::<String>::new());
    assert_eq!(ac.load_backup("a1\n"), Ok(()));
}

#[test]
fn loading_twice_adds_nothing_new() {
    let mut ac = Autocomplete::build(None, None, None, true, None);
    ac.insert_word("hall".to_string()).unwrap();

    ac.load_backup("hello\nhi\n").unwrap();
    let once = ac.suggest_word("").unwrap();
    ac.load_backup("hello\nhi\n").unwrap();

    assert_eq!(ac.suggest_word("").unwrap(), once);
    assert_eq!(sorted(once), strings(&["hall", "hello", "hi"]));
}

#[test]
fn loading_stops_at_the_first_entry_that_is_no_word() {
    let mut ac = Autocomplete::build(None, None, None, true, None);

    assert_eq!(ac.load_backup("hello\nh1\nhey\n"), Err(TrieError::InvalidCharacter));
    assert_eq!(ac.suggest_word("").unwrap(), strings(&["hello"]));
}

#[test]
fn loading_skips_a_torn_last_record() {
    let mut ac = Autocomplete::build(None, None, None, true, None);

    assert_eq!(ac.load_backup("hello\nhelli"), Ok(()));
    assert_eq!(ac.suggest_word("").unwrap(), strings(&["hello"]));
}

#[test]
fn five_words_and_two_prefixes() {
    let mut ac = Autocomplete::build(None, None, Some(10), false, None);
    for word in ["hello", "helicopter", "helium", "hall", "hundred"] {
        ac.insert_word(word.to_string()).unwrap();
    }

    assert_eq!(
        sorted(ac.suggest_word("hel").unwrap()),
        strings(&["helicopter", "helium", "hello"])
    );
    assert_eq!(ac.suggest_word("zz").unwrap(), Vec::<String>::new());
}
