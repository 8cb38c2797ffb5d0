use pii::keys::{Key, KeyCode};
use pii::picker::fts_terms;
use pii::picker::{
    fts_candidate_indices, fts_query, highlight_line, pick_key, pick_settle, rank_items, use_fts,
    PickState, PickStep, Selection,
};

fn item(id: &str, text: &str) -> (Selection, String) {
    (Selection { id: id.to_string(), file_path: format!("/p/{}.jsonl", id) }, text.to_string())
}

fn key(code: KeyCode) -> Key {
    Key { code, ctrl: false, alt: false }
}

#[test]
fn fuzzy_results_rank_and_expose_match_positions() {
    let items = vec![item("a", "07-25 pii cli-session")];
    let r = rank_items(&items, "clsn", None);
    assert_eq!(r.matches, vec![0]);
    assert_eq!(r.positions[0].len(), 4);
}

#[test]
fn empty_query_keeps_every_item_in_order() {
    let items = vec![item("a", "one"), item("b", "two"), item("c", "three")];
    let r = rank_items(&items, "", None);
    assert_eq!(r.matches, vec![0, 1, 2]);
    assert!(r.positions.iter().all(|p| p.is_empty()));
}

#[test]
fn full_text_hits_narrow_the_candidates() {
    let items = vec![item("a", "orca alpha"), item("b", "orca beta"), item("c", "cobalt")];
    let r = rank_items(&items, "", Some(vec![2, 0]));
    assert_eq!(r.matches, vec![2, 0]);
    let r = rank_items(&items, "", Some(vec![]));
    assert_eq!(r.matches, vec![0, 1, 2]);
}

#[test]
fn ranking_drops_items_that_do_not_match() {
    let items = vec![item("a", "atlas-nova"), item("b", "orca-4o"), item("c", "nova")];
    let r = rank_items(&items, "nova", None);
    assert!(r.matches.contains(&0));
    assert!(r.matches.contains(&2));
    assert!(!r.matches.contains(&1));
    assert!(r.positions[1].is_empty());
    assert_eq!(r.positions[2].len(), 4);
}

#[test]
fn fts_query_quotes_each_word_as_a_prefix() {
    assert_eq!(fts_query("orca 4o"), Some("\"orca\"* \"4o\"*".to_string()));
    assert_eq!(fts_query("atlas-nova_x"), Some("\"atlas-nova_x\"*".to_string()));
    assert_eq!(fts_query("a:b"), Some("\"a\"* \"b\"*".to_string()));
    assert_eq!(fts_query("  "), None);
    assert_eq!(fts_query("::"), None);
    assert_eq!(fts_query(""), None);
}

#[test]
fn fts_runs_for_two_bytes_without_colon() {
    assert!(!use_fts("g"));
    assert!(use_fts("gp"));
    assert!(!use_fts("a:b"));
    assert!(use_fts("é"));
}

#[test]
fn fts_hits_map_to_item_positions() {
    let items = vec![item("x", "1"), item("y", "2"), item("x", "3")];
    let hits = vec!["y".to_string(), "zz".to_string(), "x".to_string()];
    assert_eq!(fts_candidate_indices(&items, &hits), vec![1, 2]);
}

#[test]
fn pick_keys_move_type_and_choose() {
    let matches = vec![4, 7, 9];
    let st = PickState { query: String::new(), selected: 0 };
    match pick_key(st, &matches, key(KeyCode::Down)) {
        PickStep::Stay(s) => assert_eq!(s.selected, 1),
        _ => panic!("down should stay"),
    }
    let st = PickState { query: String::new(), selected: 2 };
    match pick_key(st, &matches, key(KeyCode::Down)) {
        PickStep::Stay(s) => assert_eq!(s.selected, 2),
        _ => panic!("down at the end should stay"),
    }
    let st = PickState { query: String::new(), selected: 1 };
    match pick_key(st, &matches, key(KeyCode::Enter)) {
        PickStep::Pick(i) => assert_eq!(i, 7),
        _ => panic!("enter should pick"),
    }
    let st = PickState { query: "ab".to_string(), selected: 2 };
    match pick_key(st, &matches, key(KeyCode::Char('c'))) {
        PickStep::Stay(s) => {
            assert_eq!(s.query, "abc");
            assert_eq!(s.selected, 0);
        }
        _ => panic!("typing should stay"),
    }
    let st = PickState { query: "ab".to_string(), selected: 1 };
    match pick_key(st, &matches, key(KeyCode::Backspace)) {
        PickStep::Stay(s) => {
            assert_eq!(s.query, "a");
            assert_eq!(s.selected, 0);
        }
        _ => panic!("backspace should stay"),
    }
    let st = PickState { query: String::new(), selected: 0 };
    assert!(matches!(pick_key(st, &matches, key(KeyCode::Esc)), PickStep::Cancel));
    let st = PickState { query: String::new(), selected: 0 };
    let ctrl_c = Key { code: KeyCode::Char('c'), ctrl: true, alt: false };
    assert!(matches!(pick_key(st, &matches, ctrl_c), PickStep::Cancel));
    let st = PickState { query: String::new(), selected: 0 };
    let empty: Vec<usize> = vec![];
    match pick_key(st, &empty, key(KeyCode::Enter)) {
        PickStep::Stay(_) => {}
        _ => panic!("enter with no matches stays"),
    }
}

#[test]
fn pick_cursor_stays_on_the_matches() {
    assert_eq!(pick_settle(5, 3), 2);
    assert_eq!(pick_settle(1, 3), 1);
    assert_eq!(pick_settle(4, 0), 0);
}

#[test]
fn highlighted_line_colours_matched_characters() {
    let s = highlight_line("abc", &[1], 10, false);
    assert_eq!(s, "a\x1b[38;5;43;1mb\x1b[38;5;250;0mc\x1b[0m");
    let s = highlight_line("abcdef", &[], 4, true);
    assert_eq!(s, "\x1b[37;1mabc…\x1b[0m");
}

#[test]
fn fts_terms_quote_words_of_cleaned_text() {
    let v: Vec<char> = "  say \"hi\" now ".chars().collect();
    assert_eq!(fts_terms(&v), Some("\"say\"* \"\"\"hi\"\"\"* \"now\"*".to_string()));
    let blank: Vec<char> = "   ".chars().collect();
    assert_eq!(fts_terms(&blank), None);
}

#[test]
fn typing_then_erasing_restores_the_query() {
    let matches = vec![1, 2, 3];
    for c in ['a', 'é', ' ', 'q'] {
        let st = PickState { query: "ab".to_string(), selected: 2 };
        let s1 = match pick_key(st, &matches, key(KeyCode::Char(c))) {
            PickStep::Stay(s) => s,
            _ => panic!("typing stays"),
        };
        let s2 = match pick_key(s1, &vec![], key(KeyCode::Backspace)) {
            PickStep::Stay(s) => s,
            _ => panic!("erasing stays"),
        };
        assert_eq!(s2.query, "ab");
        assert_eq!(s2.selected, 0);
    }
}
