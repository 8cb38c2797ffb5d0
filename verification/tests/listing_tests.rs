use pii::listing::{
    calls_cell, errors_cell, listing_totals, order_clause, picker_sql, providers_sql,
    session_item_text, sessions_sql, when_cell,
};

const HEAD: &str = "\n        SELECT sessions.id, sessions.project, sessions.date, sessions.time, sessions.total_calls, sessions.total_tokens, sessions.total_cost, sessions.errors,\n            COALESCE(sessions.last_model, '') as last_model\n        FROM ";

#[test]
fn session_list_query_for_today() {
    let sql = sessions_sql(Some(100), "time", Some("2024-07-25"), None, None);
    assert_eq!(sql, format!("{}sessions\n        WHERE date = '2024-07-25'\n        ORDER BY date DESC, time DESC LIMIT 100", HEAD));
}

#[test]
fn session_list_query_with_search() {
    let sql = sessions_sql(None, "cost", None, Some("2024-07-01"), Some("it's"));
    assert_eq!(
        sql,
        format!(
            "{}sessions JOIN sessions_fts ON sessions.rowid = sessions_fts.rowid\n        WHERE date >= '2024-07-01' AND sessions_fts MATCH '\"it''s*\"'\n        ORDER BY total_cost DESC ",
            HEAD
        )
    );
    let sql = sessions_sql(Some(5), "calls", None, None, None);
    assert_eq!(sql, format!("{}sessions\n        \n        ORDER BY total_calls DESC LIMIT 5", HEAD));
}

#[test]
fn sort_columns() {
    assert_eq!(order_clause("cost"), "total_cost DESC");
    assert_eq!(order_clause("tokens"), "total_tokens DESC");
    assert_eq!(order_clause("calls"), "total_calls DESC");
    assert_eq!(order_clause("time"), "date DESC, time DESC");
    assert_eq!(order_clause("anything"), "date DESC, time DESC");
}

#[test]
fn list_cells() {
    assert_eq!(when_cell("2024-07-25", "13:45"), "07-25 13:45");
    assert_eq!(calls_cell(0), " -- ");
    assert_eq!(calls_cell(7), "   7");
    assert_eq!(calls_cell(12345), "12345");
    assert_eq!(errors_cell(0), "\x1b[38;5;242m·\x1b[0m");
    assert_eq!(errors_cell(3), "\x1b[38;5;196m3\x1b[0m");
    assert_eq!(listing_totals(&vec![(1, 10), (2, 20), (3, 30)]), (6, 60));
    assert_eq!(listing_totals(&vec![]), (0, 0));
}

#[test]
fn provider_breakdown_query() {
    assert_eq!(
        providers_sql(true),
        "SELECT c.provider, COUNT(*) AS calls, SUM(c.tokens) AS tokens, SUM(c.cost) AS cost\n             FROM calls c JOIN sessions s ON s.id = c.session_id\n             WHERE s.date = ?1 AND c.provider != ''\n             GROUP BY c.provider ORDER BY calls DESC"
    );
    assert!(providers_sql(false).contains("WHERE s.date >= ?1"));
}

#[test]
fn picker_query_and_item_text() {
    assert_eq!(
        picker_sql("tokens"),
        "SELECT id, file_path, project, date, time, prompt, total_calls, total_tokens, total_cost, last_model, ai_name\n         FROM sessions\n         WHERE (?1 IS NULL OR date >= date('now', '-' || ?1 || ' days'))\n         ORDER BY total_tokens DESC, date DESC, time DESC\n         LIMIT 5000"
    );
    let t = session_item_text("2024-07-25", "13:45", "pii", "atlas-nova", 12, 34_567, "$1.25", "", "fix\nbug");
    let want = format!(
        "{} {}  {:<10} {:<20} {:>4} {:>7} {:>7}  {}",
        "07-25", "13:45", "pii", "atlas-nova", 12, "34.6K", "$1.25", "fix bug"
    );
    assert_eq!(t, want);
    let t = session_item_text("2024", "", "a-very-long-project", "m", 0, 5, "--", "Named", "ignored");
    assert_eq!(t, format!("{} {}  {:<10} {:<20} {:>4} {:>7} {:>7}  {}", "2024", "", "a-very-lo…", "m", 0, "5", "--", "Named"));
}
