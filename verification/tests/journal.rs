use rusty_todo::cli::Action;
use rusty_todo::cli::CommandLineArgs;
use rusty_todo::tasks::JournalError;
use rusty_todo::tasks::Task;
use rusty_todo::tasks::add_task;
use rusty_todo::tasks::collect_tasks;
use rusty_todo::tasks::complete_task;
use rusty_todo::tasks::encode_tasks;
use rusty_todo::tasks::list_tasks;
use rusty_todo::tasks::render_task;

fn task(text: &str, at: i64) -> Task {
    Task { text: text.to_string(), created_at: at }
}

#[test]
fn empty_snapshot_is_empty_list() {
    let ts = collect_tasks("").unwrap();
    assert_eq!(ts.len(), 0);
}

#[test]
fn empty_brackets_are_empty_list() {
    let ts = collect_tasks("[]").unwrap();
    assert_eq!(ts.len(), 0);
    assert_eq!(encode_tasks(&ts), "[]");
}

#[test]
fn encoding_is_exact() {
    let out = encode_tasks(&vec![task("buy milk", 5)]);
    assert_eq!(out, r#"[{"text":"buy milk","created_at":5}]"#);
    let out2 = encode_tasks(&vec![task("a", 1), task("b", -2)]);
    assert_eq!(out2, r#"[{"text":"a","created_at":1},{"text":"b","created_at":-2}]"#);
}

#[test]
fn escapes_are_exact() {
    let out = encode_tasks(&vec![task("a\"b\\c\nd", 0)]);
    assert_eq!(out, "[{\"text\":\"a\\\"b\\\\c\\u000ad\",\"created_at\":0}]");
}

#[test]
fn round_trip_preserves_everything() {
    let originals = vec![
        task("", 0),
        task("plain text", 1700000000),
        task("with \"quotes\" and \\backslashes\\", -1),
        task("tabs\tand\nnewlines\rand\u{1}ctrl", 42),
        task("unicode: grüße, 日本語, emoji 🎉", 7),
        task("extremes", i64::MIN),
        task("extremes too", i64::MAX),
    ];
    let encoded = encode_tasks(&originals);
    let decoded = collect_tasks(&encoded).unwrap();
    assert_eq!(decoded.len(), originals.len());
    for (a, b) in originals.iter().zip(decoded.iter()) {
        assert_eq!(a.text, b.text);
        assert_eq!(a.created_at, b.created_at);
    }
}

#[test]
fn encoded_documents_are_valid_json() {
    let out = encode_tasks(&vec![task("buy milk\n\"now\"", 99), task("walk dog", -3)]);
    let v: serde_json::Value = serde_json::from_str(&out).unwrap();
    let arr = v.as_array().unwrap();
    assert_eq!(arr.len(), 2);
    assert_eq!(arr[0]["text"].as_str().unwrap(), "buy milk\n\"now\"");
    assert_eq!(arr[0]["created_at"].as_i64().unwrap(), 99);
    assert_eq!(arr[1]["text"].as_str().unwrap(), "walk dog");
    assert_eq!(arr[1]["created_at"].as_i64().unwrap(), -3);
}

#[test]
fn malformed_documents_are_rejected() {
    for bad in [
        "[",
        "]",
        "x",
        "[]x",
        "[{\"text\":\"a\"}]",
        "[{\"text\":\"a\",\"created_at\":01}]",
        "[{\"text\":\"a\",\"created_at\":-0}]",
        "[{\"text\":\"a\",\"created_at\":1} ]",
        "[{\"text\":\"a\",\"created_at\":9223372036854775808}]",
        "[{\"text\":\"a\",\"created_at\":1},]",
        "[{\"created_at\":1,\"text\":\"a\"}]",
        "[{\"text\":\"a\",\"created_at\":1}",
    ] {
        assert_eq!(collect_tasks(bad).unwrap_err(), JournalError::Decode, "input: {}", bad);
    }
}

#[test]
fn non_canonical_escapes_are_rejected() {
    // A raw control character inside the quotes.
    assert!(collect_tasks("[{\"text\":\"a\nb\",\"created_at\":1}]").is_err());
    // Uppercase hexadecimal digits.
    assert!(collect_tasks("[{\"text\":\"\\u000A\",\"created_at\":1}]").is_err());
    // A hexadecimal escape for a character that is not a control character.
    assert!(collect_tasks("[{\"text\":\"\\u0041\",\"created_at\":1}]").is_err());
    // An escape the encoder never writes.
    assert!(collect_tasks("[{\"text\":\"\\n\",\"created_at\":1}]").is_err());
    // The canonical form of the same text is accepted.
    let ts = collect_tasks("[{\"text\":\"\\u000a\",\"created_at\":1}]").unwrap();
    assert_eq!(ts[0].text, "\n");
}

#[test]
fn listing_format_is_exact() {
    let line = rusty_todo::tasks::render_listing(&vec![task("a", 1)], &vec!["S".to_string()]);
    assert_eq!(line, format!("1: a{} [S]\n", " ".repeat(49)));
    let two = rusty_todo::tasks::render_listing(
        &vec![task("a", 1), task("b", 2)],
        &vec!["S".to_string(), "T".to_string()],
    );
    assert_eq!(
        two,
        format!("1: a{} [S]\n2: b{} [T]\n", " ".repeat(49), " ".repeat(49))
    );
}

#[test]
fn overflowing_instants_are_rejected() {
    assert!(collect_tasks("[{\"text\":\"a\",\"created_at\":-9223372036854775809}]").is_err());
    assert!(collect_tasks("[{\"text\":\"a\",\"created_at\":-9223372036854775808}]").is_ok());
    assert!(collect_tasks("[{\"text\":\"a\",\"created_at\":9223372036854775807}]").is_ok());
}

#[test]
fn add_grows_the_list_by_one() {
    let first = add_task("", task("buy milk", 10)).unwrap();
    assert_eq!(first, r#"[{"text":"buy milk","created_at":10}]"#);
    let second = add_task(&first, task("walk dog", 20)).unwrap();
    let ts = collect_tasks(&second).unwrap();
    assert_eq!(ts.len(), 2);
    assert_eq!(ts[0].text, "buy milk");
    assert_eq!(ts[1].text, "walk dog");
}

#[test]
fn add_never_shrinks_the_snapshot() {
    let mut content = String::new();
    for i in 0..6i64 {
        let longer = add_task(&content, task("t", i)).unwrap();
        assert!(longer.len() > content.len());
        content = longer;
    }
}

#[test]
fn adds_accumulate_in_insertion_order() {
    let mut content = String::new();
    for i in 0..10i64 {
        content = add_task(&content, task(&format!("task {}", i), i)).unwrap();
        let ts = collect_tasks(&content).unwrap();
        assert_eq!(ts.len() as i64, i + 1);
        for (j, t) in ts.iter().enumerate() {
            assert_eq!(t.text, format!("task {}", j));
            assert_eq!(t.created_at, j as i64);
        }
    }
    let listing = list_tasks(&content).unwrap();
    let lines: Vec<&str> = listing.lines().collect();
    assert_eq!(lines.len(), 10);
    for (j, line) in lines.iter().enumerate() {
        assert!(line.starts_with(&format!("{}: task {}", j + 1, j)));
    }
}

#[test]
fn add_fails_on_malformed_snapshot() {
    assert_eq!(add_task("nonsense", task("a", 1)).unwrap_err(), JournalError::Decode);
}

#[test]
fn removal_positions_are_checked() {
    let two = add_task(&add_task("", task("a", 1)).unwrap(), task("b", 2)).unwrap();
    assert_eq!(complete_task(&two, 0).unwrap_err(), JournalError::InvalidInput);
    assert_eq!(complete_task(&two, 3).unwrap_err(), JournalError::InvalidInput);
    assert!(complete_task(&two, 1).is_ok());
    assert!(complete_task(&two, 2).is_ok());
}

#[test]
fn removal_on_empty_store_fails() {
    assert_eq!(complete_task("", 1).unwrap_err(), JournalError::InvalidInput);
    assert_eq!(complete_task("[]", 1).unwrap_err(), JournalError::InvalidInput);
    assert_eq!(complete_task("", 0).unwrap_err(), JournalError::InvalidInput);
}

#[test]
fn removal_keeps_the_others_in_order() {
    let three = encode_tasks(&vec![task("a", 1), task("b", 2), task("c", 3)]);
    let after = complete_task(&three, 2).unwrap();
    let ts = collect_tasks(&after).unwrap();
    assert_eq!(ts.len(), 2);
    assert_eq!(ts[0].text, "a");
    assert_eq!(ts[0].created_at, 1);
    assert_eq!(ts[1].text, "c");
    assert_eq!(ts[1].created_at, 3);
}

#[test]
fn listing_empty_store_gives_the_notice() {
    assert_eq!(list_tasks("").unwrap(), "Task list is empty!");
    assert_eq!(list_tasks("[]").unwrap(), "Task list is empty!");
}

#[test]
fn listing_twice_gives_identical_output() {
    let content = encode_tasks(&vec![task("a", 1), task("b", 2)]);
    let first = list_tasks(&content).unwrap();
    let second = list_tasks(&content).unwrap();
    assert_eq!(first, second);
}

#[test]
fn listing_numbers_lines_from_one() {
    let content = encode_tasks(&vec![task("buy milk", 1), task("walk dog", 2)]);
    let listing = list_tasks(&content).unwrap();
    let lines: Vec<&str> = listing.lines().collect();
    assert_eq!(lines.len(), 2);
    assert!(lines[0].starts_with("1: buy milk"));
    assert!(lines[1].starts_with("2: walk dog"));
    assert!(lines[0].contains('['));
    assert!(lines[0].ends_with(']'));
}

#[test]
fn scenario_add_list_done_list() {
    let content = add_task("", task("buy milk", 1000)).unwrap();
    let listing = list_tasks(&content).unwrap();
    assert_eq!(listing.lines().count(), 1);
    assert!(listing.starts_with("1: buy milk"));
    let content = add_task(&content, task("walk dog", 2000)).unwrap();
    assert_eq!(list_tasks(&content).unwrap().lines().count(), 2);
    let content = complete_task(&content, 1).unwrap();
    let listing = list_tasks(&content).unwrap();
    assert_eq!(listing.lines().count(), 1);
    assert!(listing.starts_with("1: walk dog"));
}

#[test]
fn rendering_pads_short_texts_to_fifty_columns() {
    let line = render_task(&task("hi", 0), "2020-01-02 03:04");
    let expected = format!("{}{} [2020-01-02 03:04]", "hi", " ".repeat(48));
    assert_eq!(line, expected);
    let long_text = "x".repeat(60);
    let long_line = render_task(&task(&long_text, 0), "s");
    assert_eq!(long_line, format!("{} [s]", long_text));
}

#[test]
fn new_task_keeps_its_text() {
    let t = Task::new("remember the milk".to_string());
    assert_eq!(t.text, "remember the milk");
}

#[test]
fn command_data_carries_its_fields() {
    let args = CommandLineArgs {
        action: Action::Add { task: "buy milk".to_string() },
        journal_file: None,
    };
    match args.action {
        Action::Add { task } => assert_eq!(task, "buy milk"),
        _ => panic!("wrong action"),
    }
    let done = CommandLineArgs {
        action: Action::Done { position: 3 },
        journal_file: Some("journal.txt".to_string()),
    };
    assert!(matches!(done.action, Action::Done { position: 3 }));
    assert_eq!(done.journal_file.as_deref(), Some("journal.txt"));
}
