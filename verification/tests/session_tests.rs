use pii::session::{
    decode_path, decode_project_name, needs_parse, project_label, split_timestamp,
    summarize_session, LogLine, Usage,
};

fn blank() -> LogLine {
    LogLine {
        kind: String::new(),
        id: String::new(),
        timestamp: String::new(),
        parent: String::new(),
        has_message: false,
        role: None,
        first_text: None,
        usage: None,
        model: None,
        stop: None,
        message_usage: None,
        message_model: None,
        message_stop: None,
    }
}

fn header(id: &str, ts: &str) -> LogLine {
    LogLine { kind: "session".into(), id: id.into(), timestamp: ts.into(), ..blank() }
}

fn user(text: Option<&str>) -> LogLine {
    LogLine {
        kind: "message".into(),
        has_message: true,
        role: Some("user".into()),
        first_text: text.map(|t| t.to_string()),
        ..blank()
    }
}

fn reply(input: u32, output: u32, model: Option<&str>, stop: Option<&str>) -> LogLine {
    LogLine {
        kind: "message".into(),
        has_message: true,
        role: Some("assistant".into()),
        message_usage: Some(Usage { input, output, cost_ref: 0 }),
        message_model: model.map(|m| m.to_string()),
        message_stop: stop.map(|s| s.to_string()),
        ..blank()
    }
}

#[test]
fn a_session_file_is_summarized() {
    let lines = vec![
        header("s1", "2024-07-25T13:45:12.345Z"),
        user(Some("fix the bug")),
        reply(100, 20, Some("atlas-nova"), Some("stop")),
        user(Some("and the tests")),
        reply(50, 5, Some("orca-4o"), Some("error")),
        reply(1, 2, Some("atlas-nova"), None),
    ];
    let s = summarize_session(&lines, "proj", "/p/s1.jsonl", 4096).unwrap();
    assert_eq!(s.id, "s1");
    assert_eq!(s.project, "proj");
    assert_eq!(s.file_path, "/p/s1.jsonl");
    assert_eq!(s.file_size, 4096);
    assert_eq!(s.date, "2024-07-25");
    assert_eq!(s.time, "13:45");
    assert_eq!(s.prompt, "fix the bug");
    assert_eq!(s.total_calls, 3);
    assert_eq!(s.total_tokens, 178);
    assert_eq!(s.errors, 1);
    assert!(s.errors <= s.total_calls);
    assert_eq!(s.models, "atlas-nova orca-4o");
    assert_eq!(s.last_model, "atlas-nova");
    assert_eq!(s.calls.len(), 3);
    assert_eq!(s.calls[1].model, "orca-4o");
    assert_eq!(s.calls[1].tokens, 55);
    assert!(s.calls[1].is_error);
    assert_eq!(s.calls[1].line, 4);
    assert_eq!(s.calls[0].session_id, "s1");
}

#[test]
fn a_file_without_header_is_skipped() {
    let lines = vec![user(Some("hello")), reply(1, 1, None, None)];
    assert!(summarize_session(&lines, "p", "f", 1).is_none());
    assert!(summarize_session(&Vec::new(), "p", "f", 1).is_none());
}

#[test]
fn the_session_line_names_its_parent() {
    let child = LogLine { parent: "/s/a.jsonl".into(), ..header("s2", "2025-07-25T10:00:00Z") };
    let s = summarize_session(&vec![child], "p", "f", 0).unwrap();
    assert_eq!(s.parent_session, "/s/a.jsonl");
    assert_eq!(s.time, "10:00");
    let s = summarize_session(&vec![header("s1", "2025-07-25T10:00:00Z")], "p", "f", 0).unwrap();
    assert_eq!(s.parent_session, "");
}

#[test]
fn top_level_usage_wins_and_model_defaults() {
    let line = LogLine {
        kind: "message".into(),
        has_message: true,
        usage: Some(Usage { input: 3, output: 4, cost_ref: 1 }),
        model: None,
        message_model: Some("ignored".into()),
        message_usage: Some(Usage { input: 100, output: 100, cost_ref: 2 }),
        message_stop: Some("error".into()),
        ..blank()
    };
    let lines = vec![header("s", "2024-01-01"), line];
    let s = summarize_session(&lines, "p", "f", 0).unwrap();
    assert_eq!(s.total_tokens, 7);
    assert_eq!(s.calls[0].cost_ref, 1);
    assert_eq!(s.calls[0].model, "unknown");
    assert!(!s.calls[0].is_error);
    assert_eq!(s.time, "");
    assert_eq!(s.date, "2024-01-01");
}

#[test]
fn empty_first_prompt_is_replaced_by_a_later_one() {
    let lines = vec![header("s", "t"), user(Some("")), user(None), user(Some("real"))];
    let s = summarize_session(&lines, "p", "f", 0).unwrap();
    assert_eq!(s.prompt, "real");
    assert_eq!(s.total_calls, 0);
    assert_eq!(s.models, "");
    assert_eq!(s.last_model, "");
}

#[test]
fn calls_before_the_header_keep_an_empty_session_id() {
    let lines = vec![reply(1, 1, Some("m"), None), header("late", "2024-02-02T01:02:03")];
    let s = summarize_session(&lines, "p", "f", 0).unwrap();
    assert_eq!(s.id, "late");
    assert_eq!(s.calls[0].session_id, "");
}

#[test]
fn timestamps_split_into_date_and_time() {
    assert_eq!(split_timestamp("2024-07-25T13:45:12Z"), ("2024-07-25".to_string(), "13:45".to_string()));
    assert_eq!(split_timestamp("2024-07-25"), ("2024-07-25".to_string(), String::new()));
    assert_eq!(split_timestamp("2024T1:2T9"), ("2024".to_string(), String::new()));
    assert_eq!(split_timestamp("dTabcdefTx"), ("d".to_string(), "abcde".to_string()));
    assert_eq!(split_timestamp("dTabcé"), ("d".to_string(), "abcé".to_string()));
    assert_eq!(split_timestamp("dTabcdé"), ("d".to_string(), String::new()));
    assert_eq!(split_timestamp(""), (String::new(), String::new()));
}

#[test]
fn project_directories_decode_to_their_last_component() {
    assert_eq!(decode_path("--home-user-code-myproj--"), "home/user/code/myproj");
    assert_eq!(decode_path("-a-b-"), "a/b");
    assert_eq!(decode_path("plain"), "plain");
    assert_eq!(decode_project_name("--home-user-code-myproj--"), "myproj");
    assert_eq!(decode_project_name("-Users-me-pii-"), "pii");
    assert_eq!(decode_project_name("plain"), "plain");
    assert_eq!(decode_project_name("my.proj"), "my.proj");
    assert_eq!(project_label("a/..".to_string(), None), "a/..");
    assert_eq!(project_label("x/y".to_string(), Some("y".to_string())), "y");
}

#[test]
fn unchanged_files_are_not_read_again() {
    let cache = vec![("/a".to_string(), 10u64), ("/b".to_string(), 20), ("/a".to_string(), 30)];
    assert!(!needs_parse(&cache, &"/a".to_string(), 30));
    assert!(needs_parse(&cache, &"/a".to_string(), 10));
    assert!(!needs_parse(&cache, &"/b".to_string(), 20));
    assert!(needs_parse(&cache, &"/c".to_string(), 0));
    let mut grown = cache.clone();
    grown.push(("/c".to_string(), 7));
    assert!(!needs_parse(&grown, &"/c".to_string(), 7));
}
