//! The session list: the query that selects it and the text of its cells.
use vstd::prelude::*;
use crate::text::{
    owned, str_eq, chars_of, string_of_range, replace_all, replaced, byte_prefix, byte_prefix_len,
    pad_left, padded_left, joined, join_strings,
};
use crate::numfmt::{
    decimal, decimal_string, tenths_text, tenths_string, float_tenths, float_scaled,
    float_quotient_tenths, float_quotient_scaled, compact_text, compact_num,
};
use crate::text::{truncated, truncate, pad_right, padded_right};
use crate::tree_view::{shown_name, display_name};

verus! {

broadcast use vstd::string::group_string_axioms;

/// The ORDER BY terms for a sort column.
pub open spec fn order_text(sort: Seq<char>) -> Seq<char> {
    if sort == "cost"@ {
        "total_cost DESC"@
    } else if sort == "tokens"@ {
        "total_tokens DESC"@
    } else if sort == "calls"@ {
        "total_calls DESC"@
    } else {
        "date DESC, time DESC"@
    }
}

/// The ORDER BY terms for a sort column: cost, tokens, calls, else time.
pub fn order_clause(sort: &str) -> (r: &'static str)
    ensures
        r@ == order_text(sort@),
{
    if str_eq(sort, "cost") {
        "total_cost DESC"
    } else if str_eq(sort, "tokens") {
        "total_tokens DESC"
    } else if str_eq(sort, "calls") {
        "total_calls DESC"
    } else {
        "date DESC, time DESC"
    }
}

/// A search text as a quoted prefix term of the full-text index, with single
/// quotes doubled.
pub open spec fn match_clause(q: Seq<char>) -> Seq<char> {
    "sessions_fts MATCH '\""@ + replaced(q, seq!['\''], seq!['\'', '\'']) + "*\"'"@
}

/// The WHERE conditions of the session list, in order.
pub open spec fn where_terms(
    exact_date: Option<Seq<char>>,
    min_date: Option<Seq<char>>,
    search: Option<Seq<char>>,
) -> Seq<Seq<char>> {
    let a = match exact_date {
        Some(d) => seq!["date = '"@ + d + "'"@],
        None => Seq::<Seq<char>>::empty(),
    };
    let b = match min_date {
        Some(d) => seq!["date >= '"@ + d + "'"@],
        None => Seq::<Seq<char>>::empty(),
    };
    let c = match search {
        Some(q) => seq![match_clause(q)],
        None => Seq::<Seq<char>>::empty(),
    };
    a + b + c
}

pub open spec fn str_opt(o: Option<&str>) -> Option<Seq<char>> {
    match o {
        Some(s) => Some(s@),
        None => None,
    }
}

/// The query of the session list.
pub open spec fn sessions_query(
    limit: Option<u32>,
    sort: Seq<char>,
    exact_date: Option<Seq<char>>,
    min_date: Option<Seq<char>>,
    search: Option<Seq<char>>,
) -> Seq<char> {
    let terms = where_terms(exact_date, min_date, search);
    let from = if search is Some {
        "sessions JOIN sessions_fts ON sessions.rowid = sessions_fts.rowid"@
    } else {
        "sessions"@
    };
    let where_clause = if terms.len() == 0 {
        Seq::<char>::empty()
    } else {
        "WHERE "@ + joined(terms, " AND "@)
    };
    let limit_clause = match limit {
        Some(l) => "LIMIT "@ + decimal(l as nat),
        None => Seq::<char>::empty(),
    };
    "\n        SELECT sessions.id, sessions.project, sessions.date, sessions.time, sessions.total_calls, sessions.total_tokens, sessions.total_cost, sessions.errors,\n            COALESCE(sessions.last_model, '') as last_model\n        FROM "@
        + from + "\n        "@ + where_clause + "\n        ORDER BY "@ + order_text(sort) + " "@
        + limit_clause
}

fn quoted(prefix: &str, d: &str, suffix: &str) -> (r: String)
    ensures
        r@ == prefix@ + d@ + suffix@,
{
    let mut s = owned(prefix);
    s.push_str(d);
    s.push_str(suffix);
    s
}

/// The SQL that lists sessions: filtered by an exact date, a first date and
/// a search text, sorted, and limited.
pub fn sessions_sql(
    limit: Option<u32>,
    sort: &str,
    exact_date: Option<&str>,
    min_date: Option<&str>,
    search: Option<&str>,
) -> (r: String)
    ensures
        r@ == sessions_query(limit, sort@, str_opt(exact_date), str_opt(min_date), str_opt(search)),
{
    let mut terms: Vec<String> = Vec::new();
    match exact_date {
        Some(d) => {
            terms.push(quoted("date = '", d, "'"));
        },
        None => {},
    }
    match min_date {
        Some(d) => {
            terms.push(quoted("date >= '", d, "'"));
        },
        None => {},
    }
    match search {
        Some(q) => {
            let qv = chars_of(q);
            let one = chars_of("'");
            let two = chars_of("''");
            proof {
                reveal_strlit("'");
                reveal_strlit("''");
                assert(one@ =~= seq!['\'']);
                assert(two@ =~= seq!['\'', '\'']);
            }
            let esc = replace_all(&qv, &one, &two);
            let esc_s = string_of_range(&esc, 0, esc.len());
            proof {
                assert(esc@.subrange(0, esc@.len() as int) =~= esc@);
            }
            terms.push(quoted("sessions_fts MATCH '\"", esc_s.as_str(), "*\"'"));
        },
        None => {},
    }
    proof {
        let want = where_terms(str_opt(exact_date), str_opt(min_date), str_opt(search));
        assert(terms@.map_values(|p: String| p@) =~= want);
    }
    let from = if search.is_some() {
        "sessions JOIN sessions_fts ON sessions.rowid = sessions_fts.rowid"
    } else {
        "sessions"
    };
    let mut sql = owned(
        "\n        SELECT sessions.id, sessions.project, sessions.date, sessions.time, sessions.total_calls, sessions.total_tokens, sessions.total_cost, sessions.errors,\n            COALESCE(sessions.last_model, '') as last_model\n        FROM ",
    );
    sql.push_str(from);
    sql.push_str("\n        ");
    if terms.len() > 0 {
        sql.push_str("WHERE ");
        let j = join_strings(&terms, " AND ");
        sql.push_str(j.as_str());
    }
    sql.push_str("\n        ORDER BY ");
    sql.push_str(order_clause(sort));
    sql.push_str(" ");
    match limit {
        Some(l) => {
            sql.push_str("LIMIT ");
            let n = decimal_string(l as u128);
            sql.push_str(n.as_str());
        },
        None => {},
    }
    proof {
        let terms_v = where_terms(str_opt(exact_date), str_opt(min_date), str_opt(search));
        if terms_v.len() == 0 {
            assert(sql@ =~= sessions_query(
                limit,
                sort@,
                str_opt(exact_date),
                str_opt(min_date),
                str_opt(search),
            ));
        } else {
            assert(sql@ =~= sessions_query(
                limit,
                sort@,
                str_opt(exact_date),
                str_opt(min_date),
                str_opt(search),
            ));
        }
    }
    sql
}

/// The characters after the first five bytes of `s`.
pub open spec fn after_five_bytes(s: Seq<char>) -> Seq<char> {
    s.skip(byte_prefix(s, 5).unwrap().len() as int)
}

/// The "when" cell: the date without its year (from byte five on), a space,
/// and the time.
pub fn when_cell(date: &str, time: &str) -> (r: String)
    requires
        byte_prefix(date@, 5) is Some,
    ensures
        r@ == after_five_bytes(date@) + seq![' '] + time@,
{
    let v = chars_of(date);
    let k = match byte_prefix_len(&v, 5) {
        Some(k) => k,
        None => 0,
    };
    let mut s = string_of_range(&v, k, v.len());
    s.push(' ');
    s.push_str(time);
    proof {
        assert(v@.subrange(k as int, v@.len() as int) =~= v@.skip(k as int));
    }
    s
}

/// The calls cell: a dash pair for none, else right-aligned in four.
pub open spec fn calls_text(calls: nat) -> Seq<char> {
    if calls == 0 {
        " -- "@
    } else {
        pad_left(decimal(calls), 4)
    }
}

pub fn calls_cell(calls: u32) -> (r: String)
    ensures
        r@ == calls_text(calls as nat),
{
    if calls == 0 {
        owned(" -- ")
    } else {
        let d = decimal_string(calls as u128);
        padded_left(d.as_str(), 4)
    }
}

/// The usage label: millions with one decimal, thousands rounded (both as
/// double-precision quotients, right-aligned in four), or the raw count
/// right-aligned in five.
pub open spec fn usage_text(tokens: nat) -> Seq<char> {
    if tokens >= 1_000_000 {
        pad_left(tenths_text(float_tenths(tokens, 1_000_000)), 4) + seq!['M']
    } else if tokens >= 1_000 {
        pad_left(decimal(float_scaled(tokens, 1_000, 1)), 4) + seq!['K']
    } else {
        pad_left(decimal(tokens), 5)
    }
}

pub fn usage_label(tokens: u32) -> (r: String)
    ensures
        r@ == usage_text(tokens as nat),
{
    if tokens >= 1_000_000 {
        let t = tenths_string(float_quotient_tenths(tokens as u64, 1_000_000));
        let mut s = padded_left(t.as_str(), 4);
        s.push('M');
        s
    } else if tokens >= 1_000 {
        let k = decimal_string(float_quotient_scaled(tokens as u64, 1_000, 1));
        let mut s = padded_left(k.as_str(), 4);
        s.push('K');
        s
    } else {
        let d = decimal_string(tokens as u128);
        padded_left(d.as_str(), 5)
    }
}

/// The errors cell: a dim dot for none, else the count in red.
pub open spec fn errors_text(errors: nat) -> Seq<char> {
    if errors == 0 {
        "\x1b[38;5;242m·\x1b[0m"@
    } else {
        "\x1b[38;5;196m"@ + decimal(errors) + "\x1b[0m"@
    }
}

pub fn errors_cell(errors: u32) -> (r: String)
    ensures
        r@ == errors_text(errors as nat),
{
    if errors == 0 {
        owned("\x1b[38;5;242m·\x1b[0m")
    } else {
        let mut s = owned("\x1b[38;5;196m");
        let d = decimal_string(errors as u128);
        s.push_str(d.as_str());
        s.push_str("\x1b[0m");
        s
    }
}

/// The sum of the first components of `rows`.
pub open spec fn sum_first(rows: Seq<(u32, u32)>) -> nat
    decreases rows.len(),
{
    if rows.len() == 0 {
        0
    } else {
        sum_first(rows.drop_last()) + (rows.last().0 as nat)
    }
}

/// The sum of the second components of `rows`.
pub open spec fn sum_second(rows: Seq<(u32, u32)>) -> nat
    decreases rows.len(),
{
    if rows.len() == 0 {
        0
    } else {
        sum_second(rows.drop_last()) + (rows.last().1 as nat)
    }
}

proof fn lemma_sums_grow(rows: Seq<(u32, u32)>, i: int)
    requires
        0 <= i <= rows.len(),
    ensures
        sum_first(rows.take(i)) <= sum_first(rows),
        sum_second(rows.take(i)) <= sum_second(rows),
    decreases rows.len() - i,
{
    if i < rows.len() {
        lemma_sums_grow(rows, i + 1);
        assert(rows.take(i + 1).drop_last() =~= rows.take(i));
    } else {
        assert(rows.take(i) =~= rows);
    }
}

/// The calls and tokens of the listed sessions, added up.
pub fn listing_totals(rows: &Vec<(u32, u32)>) -> (r: (u32, u32))
    requires
        sum_first(rows@) <= u32::MAX,
        sum_second(rows@) <= u32::MAX,
    ensures
        r.0 == sum_first(rows@),
        r.1 == sum_second(rows@),
{
    let mut calls: u32 = 0;
    let mut tokens: u32 = 0;
    let mut i: usize = 0;
    while i < rows.len()
        invariant
            i <= rows.len(),
            sum_first(rows@) <= u32::MAX,
            sum_second(rows@) <= u32::MAX,
            calls == sum_first(rows@.take(i as int)),
            tokens == sum_second(rows@.take(i as int)),
        decreases rows.len() - i,
    {
        proof {
            assert(rows@.take(i + 1).drop_last() =~= rows@.take(i as int));
            lemma_sums_grow(rows@, i + 1);
        }
        calls = calls + rows[i].0;
        tokens = tokens + rows[i].1;
        i = i + 1;
    }
    proof {
        assert(rows@.take(i as int) =~= rows@);
    }
    (calls, tokens)
}

/// The query of the provider breakdown for an exact date or a first date.
pub open spec fn providers_query(exact: bool) -> Seq<char> {
    "SELECT c.provider, COUNT(*) AS calls, SUM(c.tokens) AS tokens, SUM(c.cost) AS cost\n             FROM calls c JOIN sessions s ON s.id = c.session_id\n             WHERE s.date "@
        + (if exact {
        "="@
    } else {
        ">="@
    }) + " ?1 AND c.provider != ''\n             GROUP BY c.provider ORDER BY calls DESC"@
}

pub fn providers_sql(exact: bool) -> (r: String)
    ensures
        r@ == providers_query(exact),
{
    let mut s = owned(
        "SELECT c.provider, COUNT(*) AS calls, SUM(c.tokens) AS tokens, SUM(c.cost) AS cost\n             FROM calls c JOIN sessions s ON s.id = c.session_id\n             WHERE s.date ",
    );
    s.push_str(if exact { "=" } else { ">=" });
    s.push_str(" ?1 AND c.provider != ''\n             GROUP BY c.provider ORDER BY calls DESC");
    s
}

/// The ORDER BY terms of the session picker for its default sort.
pub open spec fn picker_order_text(sort: Seq<char>) -> Seq<char> {
    if sort == "cost"@ {
        "total_cost DESC, date DESC, time DESC"@
    } else if sort == "tokens"@ {
        "total_tokens DESC, date DESC, time DESC"@
    } else if sort == "calls"@ {
        "total_calls DESC, date DESC, time DESC"@
    } else {
        "date DESC, time DESC"@
    }
}

/// The query that loads the session picker's items.
pub open spec fn picker_query(sort: Seq<char>) -> Seq<char> {
    "SELECT id, file_path, project, date, time, prompt, total_calls, total_tokens, total_cost, last_model, ai_name\n         FROM sessions\n         WHERE (?1 IS NULL OR date >= date('now', '-' || ?1 || ' days'))\n         ORDER BY "@
        + picker_order_text(sort) + "\n         LIMIT 5000"@
}

pub fn picker_sql(sort: &str) -> (r: String)
    ensures
        r@ == picker_query(sort@),
{
    let order = if str_eq(sort, "cost") {
        "total_cost DESC, date DESC, time DESC"
    } else if str_eq(sort, "tokens") {
        "total_tokens DESC, date DESC, time DESC"
    } else if str_eq(sort, "calls") {
        "total_calls DESC, date DESC, time DESC"
    } else {
        "date DESC, time DESC"
    };
    let mut s = owned(
        "SELECT id, file_path, project, date, time, prompt, total_calls, total_tokens, total_cost, last_model, ai_name\n         FROM sessions\n         WHERE (?1 IS NULL OR date >= date('now', '-' || ?1 || ' days'))\n         ORDER BY ",
    );
    s.push_str(order);
    s.push_str("\n         LIMIT 5000");
    s
}

/// A date from byte five on, or the whole date when byte five is past its
/// end or inside a character (`str::get(5..)`).
pub open spec fn from_byte_five(date: Seq<char>) -> Seq<char> {
    match byte_prefix(date, 5) {
        Some(p) => date.skip(p.len() as int),
        None => date,
    }
}

/// The text of a session in the flat picker: date without year, time,
/// project, model, calls, tokens, cost and name in columns.
pub open spec fn item_text(
    date: Seq<char>,
    time: Seq<char>,
    project: Seq<char>,
    model: Seq<char>,
    calls: nat,
    tokens: nat,
    cost: Seq<char>,
    ai_name: Seq<char>,
    prompt: Seq<char>,
) -> Seq<char> {
    from_byte_five(date) + seq![' '] + time + seq![' ', ' '] + pad_right(truncated(project, 10), 10) + seq![' ']
        + pad_right(truncated(model, 20), 20) + seq![' '] + pad_left(decimal(calls), 4) + seq![' ']
        + pad_left(compact_text(tokens), 7) + seq![' '] + pad_left(cost, 7) + seq![' ', ' '] + shown_name(
        ai_name,
        prompt,
    )
}

#[verifier::rlimit(40)]
pub fn session_item_text(
    date: &str,
    time: &str,
    project: &str,
    model: &str,
    calls: u32,
    tokens: u64,
    cost: &str,
    ai_name: &str,
    prompt: &str,
) -> (r: String)
    ensures
        r@ == item_text(date@, time@, project@, model@, calls as nat, tokens as nat, cost@, ai_name@, prompt@),
{
    let v = chars_of(date);
    let k = match byte_prefix_len(&v, 5) {
        Some(k) => k,
        None => 0,
    };
    let mut s = string_of_range(&v, k, v.len());
    proof {
        assert(v@.subrange(k as int, v@.len() as int) =~= from_byte_five(date@));
    }
    s.push(' ');
    s.push_str(time);
    s.push(' ');
    s.push(' ');
    let p = truncate(project, 10);
    let p = padded_right(p.as_str(), 10);
    s.push_str(p.as_str());
    s.push(' ');
    let m = truncate(model, 20);
    let m = padded_right(m.as_str(), 20);
    s.push_str(m.as_str());
    s.push(' ');
    let c = decimal_string(calls as u128);
    let c = padded_left(c.as_str(), 4);
    s.push_str(c.as_str());
    s.push(' ');
    let t = compact_num(tokens);
    let t = padded_left(t.as_str(), 7);
    s.push_str(t.as_str());
    s.push(' ');
    let co = padded_left(cost, 7);
    s.push_str(co.as_str());
    s.push(' ');
    s.push(' ');
    let n = display_name(ai_name, prompt);
    s.push_str(n.as_str());
    s
}

} // verus!


verus! {

/// `t` occurs in `s` as a run of consecutive characters.
pub open spec fn contains_text(s: Seq<char>, t: Seq<char>) -> bool {
    exists|i: int| 0 <= i && i + t.len() <= s.len() && #[trigger] s.subrange(i, i + t.len()) == t
}

proof fn lemma_contains_in_left(x: Seq<char>, y: Seq<char>, t: Seq<char>)
    requires
        contains_text(x, t),
    ensures
        contains_text(x + y, t),
{
    let i = choose|i: int| 0 <= i && i + t.len() <= x.len() && #[trigger] x.subrange(i, i + t.len()) == t;
    assert((x + y).subrange(i, i + t.len()) =~= x.subrange(i, i + t.len()));
}

proof fn lemma_contains_in_right(x: Seq<char>, y: Seq<char>, t: Seq<char>)
    requires
        contains_text(y, t),
    ensures
        contains_text(x + y, t),
{
    let i = choose|i: int| 0 <= i && i + t.len() <= y.len() && #[trigger] y.subrange(i, i + t.len()) == t;
    let k = x.len() + i;
    assert((x + y).subrange(k, k + t.len()) =~= y.subrange(i, i + t.len()));
}

proof fn lemma_contains_self(t: Seq<char>)
    ensures
        contains_text(t, t),
{
    let z: int = 0;
    assert(t.subrange(z, z + t.len()) =~= t);
}

proof fn lemma_joined_contains(parts: Seq<Seq<char>>, sep: Seq<char>, k: int)
    requires
        0 <= k < parts.len(),
    ensures
        contains_text(joined(parts, sep), parts[k]),
    decreases parts.len(),
{
    if parts.len() == 1 {
        lemma_contains_self(parts[0]);
    } else if k == parts.len() - 1 {
        lemma_contains_self(parts.last());
        lemma_contains_in_right(joined(parts.drop_last(), sep) + sep, parts.last(), parts[k]);
    } else {
        lemma_joined_contains(parts.drop_last(), sep, k);
        assert(parts.drop_last()[k] == parts[k]);
        lemma_contains_in_left(joined(parts.drop_last(), sep), sep, parts[k]);
        lemma_contains_in_left(joined(parts.drop_last(), sep) + sep, parts.last(), parts[k]);
    }
}

/// Every filter the session list is given is in its query: the exact date,
/// the earliest date and the full-text search each appear, whichever others
/// come with them.
pub proof fn law_every_filter_in_query(
    limit: Option<u32>,
    sort: Seq<char>,
    exact_date: Option<Seq<char>>,
    min_date: Option<Seq<char>>,
    search: Option<Seq<char>>,
)
    ensures
        exact_date matches Some(d) ==> contains_text(
            sessions_query(limit, sort, exact_date, min_date, search),
            "date = '"@ + d + "'"@,
        ),
        min_date matches Some(d) ==> contains_text(
            sessions_query(limit, sort, exact_date, min_date, search),
            "date >= '"@ + d + "'"@,
        ),
        search matches Some(q) ==> contains_text(
            sessions_query(limit, sort, exact_date, min_date, search),
            "sessions_fts MATCH '\""@ + replaced(q, seq!['\''], seq!['\'', '\'']) + "*\"'"@,
        ),
{
    let terms = where_terms(exact_date, min_date, search);
    let head = "\n        SELECT sessions.id, sessions.project, sessions.date, sessions.time, sessions.total_calls, sessions.total_tokens, sessions.total_cost, sessions.errors,\n            COALESCE(sessions.last_model, '') as last_model\n        FROM "@;
    let from = if search is Some {
        "sessions JOIN sessions_fts ON sessions.rowid = sessions_fts.rowid"@
    } else {
        "sessions"@
    };
    let limit_clause = match limit {
        Some(l) => "LIMIT "@ + decimal(l as nat),
        None => Seq::<char>::empty(),
    };
    let pre = head + from + "\n        "@;
    let post = "\n        ORDER BY "@ + order_text(sort) + " "@ + limit_clause;
    let a = match exact_date {
        Some(d) => seq!["date = '"@ + d + "'"@],
        None => Seq::<Seq<char>>::empty(),
    };
    let b = match min_date {
        Some(d) => seq!["date >= '"@ + d + "'"@],
        None => Seq::<Seq<char>>::empty(),
    };
    let c = match search {
        Some(q) => seq![match_clause(q)],
        None => Seq::<Seq<char>>::empty(),
    };
    assert(terms == a + b + c);
    assert forall|k: int| 0 <= k < terms.len() implies contains_text(
        sessions_query(limit, sort, exact_date, min_date, search),
        #[trigger] terms[k],
    ) by {
        let w = "WHERE "@ + joined(terms, " AND "@);
        lemma_joined_contains(terms, " AND "@, k);
        lemma_contains_in_right("WHERE "@, joined(terms, " AND "@), terms[k]);
        lemma_contains_in_right(pre, w, terms[k]);
        lemma_contains_in_left(pre + w, post, terms[k]);
        assert(sessions_query(limit, sort, exact_date, min_date, search) =~= (pre + w) + post);
    }
    if exact_date is Some {
        assert(terms[0] == a[0]);
    }
    if min_date is Some {
        assert(terms[a.len() as int] == b[0]);
    }
    if search is Some {
        assert(terms[(a.len() + b.len()) as int] == c[0]);
    }
}

} // verus!
