use pii::cli::{launcher, list_limit, needs_refresh, picker_label, route, which_exists, Cli, Commands, Route};

fn bare() -> Cli {
    Cli {
        today: false,
        week: false,
        month: false,
        heatmap: false,
        summary: false,
        continue_session: false,
        inspect: false,
        calls: false,
        query: None,
        sort: "time".to_string(),
        days: None,
        refresh_api: false,
        refresh_sessions: false,
        help: None,
        command: None,
    }
}

#[test]
fn views_are_chosen_in_order() {
    assert!(route(&bare()) == Route::Pick(false));
    assert!(route(&Cli { inspect: true, ..bare() }) == Route::Pick(true));
    assert!(route(&Cli { calls: true, ..bare() }) == Route::Pick(true));
    assert!(route(&Cli { heatmap: true, today: true, ..bare() }) == Route::Heatmap);
    assert!(route(&Cli { week: true, month: true, ..bare() }) == Route::Week);
    assert!(route(&Cli { query: Some("x".into()), command: Some(Commands::Settings), ..bare() }) == Route::Search);
    assert!(route(&Cli { command: Some(Commands::Rankings { category: None }), ..bare() }) == Route::Rankings);
    assert!(route(&Cli { command: Some(Commands::Compare { models: vec![], spider: true }), ..bare() }) == Route::Compare);
    assert!(route(&Cli { command: Some(Commands::Model { query: None, refresh: false }), ..bare() }) == Route::Model);
    assert!(route(&Cli { command: Some(Commands::Tree), ..bare() }) == Route::Tree);
    assert_eq!(list_limit(&Route::Month), 200);
    assert_eq!(list_limit(&Route::Today), 100);
    assert_eq!(picker_label(true), "inspect");
    assert_eq!(picker_label(false), "continue");
}

#[test]
fn model_data_is_fetched_once_a_day() {
    assert!(needs_refresh(true, Some("2024-07-25"), "2024-07-25"));
    assert!(!needs_refresh(false, Some("2024-07-25"), "2024-07-25"));
    assert!(needs_refresh(false, Some("2024-07-24"), "2024-07-25"));
    assert!(needs_refresh(false, None, "2024-07-25"));
}

#[test]
fn the_launcher_is_the_first_found() {
    assert_eq!(launcher(&vec![false, true, true, true]), "pi.exe");
    assert_eq!(launcher(&vec![true, true, true, true]), "pi.cmd");
    assert_eq!(launcher(&vec![false, false, false, false]), "pi");
    assert_eq!(launcher(&vec![]), "pi");
    assert!(which_exists("pi"));
}
