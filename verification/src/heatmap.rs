//! The activity heatmap: four token buckets above zero, a week-per-column
//! grid of the days shown, and the text of its rows.
use vstd::prelude::*;
use crate::text::owned;
use crate::tree::views;
use crate::dates::{dates_between, day_string, day_text, weekday_from_sunday, weekday_of, year_start};

verus! {

broadcast use vstd::string::group_string_axioms;

/// The size of one colour bucket: a quarter of the busiest day, rounded up.
pub fn bucket_size(max_tokens: u32) -> (r: u64)
    ensures
        r == (max_tokens as nat + 3) / 4,
        r * 4 >= max_tokens,
        r <= 0x4000_0000,
{
    ((max_tokens as u64) + 3) / 4
}

/// The heat level of a day: 0 for no tokens, then the bucket it falls in.
pub open spec fn level_of(tokens: nat, bucket: nat) -> nat {
    if tokens == 0 {
        0
    } else if tokens <= bucket {
        1
    } else if tokens <= bucket * 2 {
        2
    } else if tokens <= bucket * 3 {
        3
    } else {
        4
    }
}

pub fn heat_level(tokens: u64, bucket: u64) -> (r: u8)
    requires
        bucket * 3 <= u64::MAX,
    ensures
        r as nat == level_of(tokens as nat, bucket as nat),
{
    if tokens == 0 {
        0
    } else if tokens <= bucket {
        1
    } else if tokens <= bucket * 2 {
        2
    } else if tokens <= bucket * 3 {
        3
    } else {
        4
    }
}

/// The colour of a heat level.
pub open spec fn level_color(level: nat) -> Seq<char> {
    if level == 0 {
        "\x1b[38;5;236m"@
    } else if level == 1 {
        "\x1b[38;5;22m"@
    } else if level == 2 {
        "\x1b[38;5;28m"@
    } else if level == 3 {
        "\x1b[38;5;40m"@
    } else {
        "\x1b[38;5;47m"@
    }
}

pub fn heat_color(level: u8) -> (r: &'static str)
    ensures
        r@ == level_color(level as nat),
{
    if level == 0 {
        "\x1b[38;5;236m"
    } else if level == 1 {
        "\x1b[38;5;22m"
    } else if level == 2 {
        "\x1b[38;5;28m"
    } else if level == 3 {
        "\x1b[38;5;40m"
    } else {
        "\x1b[38;5;47m"
    }
}

/// The tokens of the last row for `day`, or 0: rows keyed by date as a map
/// filled in row order keeps them.
pub open spec fn day_total(rows: Seq<(String, u32)>, day: Seq<char>) -> nat
    decreases rows.len(),
{
    if rows.len() == 0 {
        0
    } else if rows.last().0@ == day {
        rows.last().1 as nat
    } else {
        day_total(rows.drop_last(), day)
    }
}

/// The tokens of each day shown, from the per-date rows.
pub fn tokens_by_day(rows: &Vec<(String, u32)>, days: &Vec<String>) -> (r: Vec<u64>)
    ensures
        r@.len() == days@.len(),
        forall|i: int| 0 <= i < days@.len() ==> #[trigger] r@[i] == day_total(rows@, days@[i]@),
{
    let mut r: Vec<u64> = Vec::new();
    let mut i: usize = 0;
    while i < days.len()
        invariant
            i <= days.len(),
            r@.len() == i,
            forall|j: int| 0 <= j < i ==> #[trigger] r@[j] == day_total(rows@, days@[j]@),
        decreases days.len() - i,
    {
        let mut k: usize = rows.len();
        proof {
            assert(rows@.take(k as int) =~= rows@);
        }
        while k > 0 && rows[k - 1].0 != days[i]
            invariant
                k <= rows.len(),
                i < days.len(),
                day_total(rows@, days@[i as int]@) == day_total(rows@.take(k as int), days@[i as int]@),
            decreases k,
        {
            proof {
                assert(rows@.take(k as int).drop_last() =~= rows@.take(k - 1));
            }
            k = k - 1;
        }
        let t: u64 = if k == 0 {
            0
        } else {
            proof {
                assert(rows@.take(k as int).last() == rows@[k - 1]);
            }
            rows[k - 1].1 as u64
        };
        r.push(t);
        i = i + 1;
    }
    r
}

/// The heat level of grid cell `d` (a weekday, Sunday first) of week `w`,
/// with `lead` empty days before the first day shown; `None` outside the
/// days shown.
pub open spec fn grid_cell(tokens: Seq<u64>, bucket: nat, lead: nat, w: int, d: int) -> Option<u8> {
    let o = 7 * w + d - lead;
    if 0 <= o < tokens.len() {
        Some(level_of(tokens[o] as nat, bucket) as u8)
    } else {
        None
    }
}

/// The weeks of the heatmap grid: as many as the days shown need, seven
/// cells each.
pub fn heat_grid(tokens: &Vec<u64>, bucket: u64, lead: usize) -> (weeks: Vec<Vec<Option<u8>>>)
    requires
        lead < 7,
        tokens@.len() + 14 <= usize::MAX,
        bucket * 3 <= u64::MAX,
    ensures
        weeks@.len() == (lead + tokens@.len() + 6) / 7,
        forall|w: int|
            0 <= w < weeks@.len() ==> (#[trigger] weeks@[w])@.len() == 7 && forall|d: int|
                0 <= d < 7 ==> weeks@[w]@[d] == grid_cell(tokens@, bucket as nat, lead as nat, w, d),
{
    let n = tokens.len();
    let total = lead + n;
    let mut weeks: Vec<Vec<Option<u8>>> = Vec::new();
    let mut w: usize = 0;
    while w * 7 < total
        invariant
            lead < 7,
            n == tokens@.len(),
            total == lead + n,
            total + 7 <= usize::MAX,
            bucket * 3 <= u64::MAX,
            weeks@.len() == w,
            w * 7 <= total + 6,
            forall|v: int|
                0 <= v < w ==> (#[trigger] weeks@[v])@.len() == 7 && forall|d: int|
                    0 <= d < 7 ==> weeks@[v]@[d] == grid_cell(tokens@, bucket as nat, lead as nat, v, d),
        decreases total + 7 - w * 7,
    {
        let mut week: Vec<Option<u8>> = Vec::new();
        let mut d: usize = 0;
        while d < 7
            invariant
                d <= 7,
                lead < 7,
                n == tokens@.len(),
                w * 7 < total,
                total == lead + n,
                total + 7 <= usize::MAX,
                bucket * 3 <= u64::MAX,
                week@.len() == d,
                forall|e: int| 0 <= e < d ==> week@[e] == grid_cell(tokens@, bucket as nat, lead as nat, w as int, e),
            decreases 7 - d,
        {
            let pos = w * 7 + d;
            if pos >= lead && pos - lead < n {
                let lv = heat_level(tokens[pos - lead], bucket);
                week.push(Some(lv));
            } else {
                week.push(None);
            }
            d = d + 1;
        }
        weeks.push(week);
        w = w + 1;
    }
    proof {
        assert(weeks@.len() == (lead + tokens@.len() + 6) / 7) by (nonlinear_arith)
            requires
                weeks@.len() == w,
                w * 7 >= total,
                (w - 1) * 7 < total || w == 0,
                total == lead + tokens@.len(),
        {
        }
    }
    weeks
}

/// The label column of grid row `d`: the weekday name for Monday, Wednesday
/// and Friday, else blank.
pub open spec fn row_label(d: int) -> Seq<char> {
    if d == 1 {
        "  \x1b[38;5;242mMon\x1b[0m "@
    } else if d == 3 {
        "  \x1b[38;5;242mWed\x1b[0m "@
    } else if d == 5 {
        "  \x1b[38;5;242mFri\x1b[0m "@
    } else {
        "      "@
    }
}

/// One grid cell: two blanks outside the days shown, else a coloured square.
pub open spec fn cell_text(c: Option<u8>) -> Seq<char> {
    match c {
        None => "  "@,
        Some(l) => level_color(l as nat) + "■ \x1b[0m"@,
    }
}

pub open spec fn cells_text(weeks: Seq<Vec<Option<u8>>>, d: int) -> Seq<char>
    decreases weeks.len(),
{
    if weeks.len() == 0 {
        Seq::<char>::empty()
    } else {
        cells_text(weeks.drop_last(), d) + cell_text(weeks.last()@[d])
    }
}

/// The text of grid row `d`.
pub fn grid_row(weeks: &Vec<Vec<Option<u8>>>, d: usize) -> (r: String)
    requires
        d < 7,
        forall|w: int| 0 <= w < weeks@.len() ==> (#[trigger] weeks@[w])@.len() == 7,
    ensures
        r@ == row_label(d as int) + cells_text(weeks@, d as int),
{
    let mut s = if d == 1 {
        owned("  \x1b[38;5;242mMon\x1b[0m ")
    } else if d == 3 {
        owned("  \x1b[38;5;242mWed\x1b[0m ")
    } else if d == 5 {
        owned("  \x1b[38;5;242mFri\x1b[0m ")
    } else {
        owned("      ")
    };
    let ghost label = s@;
    let mut w: usize = 0;
    while w < weeks.len()
        invariant
            w <= weeks@.len(),
            d < 7,
            forall|v: int| 0 <= v < weeks@.len() ==> (#[trigger] weeks@[v])@.len() == 7,
            s@ == label + cells_text(weeks@.take(w as int), d as int),
        decreases weeks.len() - w,
    {
        proof {
            assert(weeks@.take(w + 1).drop_last() =~= weeks@.take(w as int));
            assert(weeks@.take(w + 1).last() == weeks@[w as int]);
        }
        match weeks[w][d] {
            None => {
                s.push_str("  ");
            },
            Some(l) => {
                s.push_str(heat_color(l));
                s.push_str("■ \x1b[0m");
            },
        }
        w = w + 1;
    }
    proof {
        assert(weeks@.take(w as int) =~= weeks@);
    }
    s
}

pub open spec fn max_tokens_of(rows: Seq<(u32, u32)>) -> nat
    decreases rows.len(),
{
    if rows.len() == 0 {
        0
    } else if rows.last().0 > max_tokens_of(rows.drop_last()) {
        rows.last().0 as nat
    } else {
        max_tokens_of(rows.drop_last())
    }
}

pub open spec fn tokens_of(rows: Seq<(u32, u32)>) -> nat
    decreases rows.len(),
{
    if rows.len() == 0 {
        0
    } else {
        tokens_of(rows.drop_last()) + (rows.last().0 as nat)
    }
}

pub open spec fn sessions_of(rows: Seq<(u32, u32)>) -> nat
    decreases rows.len(),
{
    if rows.len() == 0 {
        0
    } else {
        sessions_of(rows.drop_last()) + (rows.last().1 as nat)
    }
}

proof fn lemma_heat_sums_grow(rows: Seq<(u32, u32)>, i: int)
    requires
        0 <= i <= rows.len(),
    ensures
        sessions_of(rows.take(i)) <= sessions_of(rows),
        tokens_of(rows.take(i)) <= tokens_of(rows),
        max_tokens_of(rows.take(i)) <= u32::MAX,
    decreases rows.len() - i,
{
    if i < rows.len() {
        lemma_heat_sums_grow(rows, i + 1);
        assert(rows.take(i + 1).drop_last() =~= rows.take(i));
    } else {
        assert(rows.take(i) =~= rows);
    }
    lemma_max_bounded(rows.take(i));
}

proof fn lemma_max_bounded(rows: Seq<(u32, u32)>)
    ensures
        max_tokens_of(rows) <= u32::MAX,
    decreases rows.len(),
{
    if rows.len() > 0 {
        lemma_max_bounded(rows.drop_last());
    }
}

/// The busiest day's tokens, the tokens and sessions of all days, and the
/// number of active days, from per-day (tokens, sessions) rows.
pub fn heat_totals(rows: &Vec<(u32, u32)>) -> (r: (u32, u64, u32, usize))
    requires
        sessions_of(rows@) <= u32::MAX,
        tokens_of(rows@) <= u64::MAX,
    ensures
        r.0 == max_tokens_of(rows@),
        r.1 == tokens_of(rows@),
        r.2 == sessions_of(rows@),
        r.3 == rows@.len(),
{
    let mut max: u32 = 0;
    let mut total: u64 = 0;
    let mut sessions: u32 = 0;
    let mut i: usize = 0;
    while i < rows.len()
        invariant
            i <= rows.len(),
            sessions_of(rows@) <= u32::MAX,
            tokens_of(rows@) <= u64::MAX,
            max == max_tokens_of(rows@.take(i as int)),
            total == tokens_of(rows@.take(i as int)),
            sessions == sessions_of(rows@.take(i as int)),
        decreases rows.len() - i,
    {
        proof {
            assert(rows@.take(i + 1).drop_last() =~= rows@.take(i as int));
            lemma_heat_sums_grow(rows@, i + 1);
        }
        if rows[i].0 > max {
            max = rows[i].0;
        }
        total = total + rows[i].0 as u64;
        sessions = sessions + rows[i].1;
        i = i + 1;
    }
    proof {
        assert(rows@.take(i as int) =~= rows@);
    }
    (max, total, sessions, rows.len())
}

/// A busier day is never shown paler, no day is past the top level, and a
/// day with tokens is never shown as empty.
pub proof fn law_level_monotone(t1: nat, t2: nat, bucket: nat)
    requires
        t1 <= t2,
    ensures
        level_of(t1, bucket) <= level_of(t2, bucket) <= 4,
        t1 > 0 ==> level_of(t1, bucket) >= 1,
{
}

/// Every day shown has exactly one cell in the grid: the one of its week and
/// weekday, which holds its level; every other cell of the grid is empty.
pub proof fn law_day_in_grid(tokens: Seq<u64>, bucket: nat, lead: nat, o: int)
    requires
        0 <= o < tokens.len(),
        lead < 7,
    ensures
        grid_cell(tokens, bucket, lead, (o + lead) / 7, (o + lead) % 7) == Some(level_of(tokens[o] as nat, bucket) as u8),
        forall|w: int, d: int|
            #![trigger grid_cell(tokens, bucket, lead, w, d)]
            0 <= d < 7 && 7 * w + d - lead == o ==> w == (o + lead) / 7 && d == (o + lead) % 7,
{
    vstd::arithmetic::div_mod::lemma_fundamental_div_mod(o + lead, 7);
    assert forall|w: int, d: int|
        #![trigger grid_cell(tokens, bucket, lead, w, d)]
        0 <= d < 7 && 7 * w + d - lead == o implies w == (o + lead) / 7 && d == (o
        + lead) % 7 by {
        vstd::arithmetic::div_mod::lemma_fundamental_div_mod_converse(o + lead, 7, w, d);
    }
}

/// How many days back the heatmap reaches.
pub const HEAT_DAYS: i64 = 180;

/// The days the heatmap shows, seen from day number `today`: the text of
/// its first day, the weekday of that day (Sunday 0), and the text of every
/// day from the first to today.
pub fn heat_window(today: i64) -> (r: (String, usize, Vec<String>))
    requires
        year_start(-262143) <= today - HEAT_DAYS,
        today < year_start(262142) + 365,
    ensures
        r.0@ == day_text(today - HEAT_DAYS),
        r.1 == weekday_of(today - HEAT_DAYS),
        r.2@.len() == HEAT_DAYS + 1,
        forall|k: int| 0 <= k < r.2@.len() ==> #[trigger] r.2@[k]@ == day_text(today - HEAT_DAYS + k),
{
    let start = today - HEAT_DAYS;
    let first = day_string(start);
    let lead = weekday_from_sunday(start);
    let days = dates_between(start, today);
    (first, lead as usize, days)
}

} // verus!

