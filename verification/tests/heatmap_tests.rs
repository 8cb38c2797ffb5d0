use pii::heatmap::{bucket_size, grid_row, heat_color, heat_grid, heat_level, heat_totals, tokens_by_day};

#[test]
fn buckets_are_a_rounded_up_quarter() {
    assert_eq!(bucket_size(0), 0);
    assert_eq!(bucket_size(1), 1);
    assert_eq!(bucket_size(4), 1);
    assert_eq!(bucket_size(5), 2);
    assert_eq!(bucket_size(u32::MAX), 1_073_741_824);
    for m in [3u32, 17, 1000, 999_999] {
        assert_eq!(bucket_size(m), (m as f64 / 4.0).ceil() as u64);
    }
}

#[test]
fn levels_follow_the_buckets() {
    let b = bucket_size(100);
    assert_eq!(b, 25);
    assert_eq!(heat_level(0, b), 0);
    assert_eq!(heat_level(1, b), 1);
    assert_eq!(heat_level(25, b), 1);
    assert_eq!(heat_level(26, b), 2);
    assert_eq!(heat_level(75, b), 3);
    assert_eq!(heat_level(76, b), 4);
    assert_eq!(heat_level(100, b), 4);
    let mut last = 0;
    for t in 0..200u64 {
        let l = heat_level(t, b);
        assert!(l >= last && l <= 4);
        last = l;
    }
    assert_eq!(heat_color(0), "\x1b[38;5;236m");
    assert_eq!(heat_color(4), "\x1b[38;5;47m");
}

#[test]
fn the_grid_places_each_day_once() {
    let tokens: Vec<u64> = (0..10).map(|i| i * 10).collect();
    let weeks = heat_grid(&tokens, 25, 3);
    assert_eq!(weeks.len(), 2);
    assert_eq!(weeks[0][0], None);
    assert_eq!(weeks[0][2], None);
    assert_eq!(weeks[0][3], Some(0));
    assert_eq!(weeks[0][6], Some(2));
    assert_eq!(weeks[1][5], Some(4));
    assert_eq!(weeks[1][6], None);
    let mut seen = 0;
    for (w, week) in weeks.iter().enumerate() {
        assert_eq!(week.len(), 7);
        for (d, cell) in week.iter().enumerate() {
            let o = (w * 7 + d) as i64 - 3;
            if o >= 0 && (o as usize) < tokens.len() {
                assert_eq!(*cell, Some(heat_level(tokens[o as usize], 25)));
                seen += 1;
            } else {
                assert_eq!(*cell, None);
            }
        }
    }
    assert_eq!(seen, tokens.len());
    assert_eq!(heat_grid(&vec![], 1, 0).len(), 0);
    assert_eq!(heat_grid(&vec![5; 151], 2, 6).len(), 23);
}

#[test]
fn grid_rows_render() {
    let weeks = vec![vec![None, Some(1), None, None, None, None, None], vec![Some(0), Some(4), None, None, None, None, None]];
    assert_eq!(grid_row(&weeks, 0), "        \x1b[38;5;236m■ \x1b[0m");
    assert_eq!(
        grid_row(&weeks, 1),
        "  \x1b[38;5;242mMon\x1b[0m \x1b[38;5;22m■ \x1b[0m\x1b[38;5;47m■ \x1b[0m"
    );
}

#[test]
fn days_and_totals() {
    let rows = vec![("2024-07-01".to_string(), 5u32), ("2024-07-03".to_string(), 9), ("2024-07-01".to_string(), 7)];
    let days = vec!["2024-07-01".to_string(), "2024-07-02".to_string(), "2024-07-03".to_string()];
    assert_eq!(tokens_by_day(&rows, &days), vec![7, 0, 9]);
    assert_eq!(heat_totals(&vec![(10, 1), (30, 2), (20, 3)]), (30, 60, 6, 3));
    assert_eq!(heat_totals(&vec![]), (0, 0, 0, 0));
}
