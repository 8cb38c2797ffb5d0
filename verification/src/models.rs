//! Model records from the two sources: matching a record of one source to
//! one of the other, benchmark categories, and the small text pieces of the
//! model views.
use vstd::prelude::*;
use crate::text::{owned, str_eq, chars_of, string_of, replace_all, replaced, matches_at, has_at, truncate, truncated};
use crate::fuzzy::{fuzzy_indices, nucleo_match};
use crate::order::{lex_lt, lex_less, lemma_lex_total, lemma_lex_transitive, lemma_lex_irreflexive};
use crate::tree::views;

verus! {

broadcast use vstd::string::group_string_axioms;

/// What `str::to_lowercase` gives for a text.
pub uninterp spec fn lowercase(s: Seq<char>) -> Seq<char>;

/// Runs `str::to_lowercase`. Trusted: its result is the lowercase mapping of
/// the text, a function of the text alone.
#[verifier::external_body]
pub(crate) fn to_lower(s: &str) -> (r: String)
    ensures
        r@ == lowercase(s@),
{
    s.to_lowercase()
}

/// What `char::to_uppercase` gives for a character, as text.
pub uninterp spec fn uppercase(c: char) -> Seq<char>;

/// Runs `char::to_uppercase` and collects it into a `String`. Trusted: the
/// result is the uppercase mapping of the character, a function of the
/// character alone.
#[verifier::external_body]
pub(crate) fn to_upper(c: char) -> (r: String)
    ensures
        r@ == uppercase(c),
{
    c.to_uppercase().to_string()
}

/// The text before the first occurrence of `pat` in `s` (all of `s` when it
/// has none): the first piece of `str::split`.
pub open spec fn before_text(s: Seq<char>, pat: Seq<char>) -> Seq<char>
    decreases s.len(),
{
    if s.len() < pat.len() || s.len() == 0 {
        s
    } else if s.take(pat.len() as int) == pat {
        Seq::<char>::empty()
    } else {
        seq![s[0]] + before_text(s.skip(1), pat)
    }
}

pub fn text_before(v: &Vec<char>, pat: &Vec<char>) -> (r: Vec<char>)
    requires
        pat.len() > 0,
    ensures
        r@ == before_text(v@, pat@),
{
    let mut i: usize = 0;
    proof {
        assert(v@.skip(0) =~= v@);
        assert(v@.take(0) + before_text(v@, pat@) =~= before_text(v@, pat@));
    }
    while i < v.len() && !matches_at(v, i, pat)
        invariant
            i <= v.len(),
            pat@.len() > 0,
            before_text(v@, pat@) == v@.take(i as int) + before_text(v@.skip(i as int), pat@),
        decreases v.len() - i,
    {
        proof {
            let rest = v@.skip(i as int);
            assert(rest.skip(1) =~= v@.skip(i + 1));
            if rest.len() >= pat@.len() {
                assert(rest.take(pat@.len() as int) =~= v@.subrange(i as int, i + pat@.len()));
            }
            assert(v@.take(i as int) + (seq![v@[i as int]] + before_text(rest.skip(1), pat@))
                =~= v@.take(i + 1) + before_text(v@.skip(i + 1), pat@));
        }
        i = i + 1;
    }
    proof {
        let rest = v@.skip(i as int);
        if i < v.len() {
            assert(rest.take(pat@.len() as int) =~= v@.subrange(i as int, i + pat@.len()));
        } else {
            assert(rest =~= Seq::<char>::empty());
        }
        assert(v@.take(i as int) + Seq::<char>::empty() =~= v@.take(i as int));
    }
    let mut r: Vec<char> = Vec::new();
    let mut k: usize = 0;
    while k < i
        invariant
            k <= i <= v.len(),
            r@ == v@.take(k as int),
        decreases i - k,
    {
        r.push(v[k]);
        proof {
            assert(v@.take(k + 1) =~= v@.take(k as int).push(v@[k as int]));
        }
        k = k + 1;
    }
    r
}

/// A lowercased record id of the second source cleaned up for matching:
/// without vendor prefixes and the thinking suffix, dots as dashes.
pub open spec fn clean_id_text(l: Seq<char>) -> Seq<char> {
    replaced(
        replaced(
            replaced(
                replaced(
                    replaced(replaced(l, "anthropic/"@, Seq::empty()), "openai/"@, Seq::empty()),
                    "google/"@,
                    Seq::empty(),
                ),
                "deepseek/"@,
                Seq::empty(),
            ),
            "-thinking"@,
            Seq::empty(),
        ),
        "."@,
        "-"@,
    )
}

/// A lowercased record name cleaned up for matching: parentheses folded into
/// dashes, spaces and dots as dashes.
pub open spec fn clean_name_text(l: Seq<char>) -> Seq<char> {
    replaced(replaced(replaced(replaced(l, " ("@, "-"@), ")"@, Seq::empty()), " "@, "-"@), "."@, "-"@)
}

/// A lowercased record name without its parenthesised part, cleaned up for
/// matching.
pub open spec fn strip_name_text(l: Seq<char>) -> Seq<char> {
    replaced(replaced(before_text(l, " ("@), " "@, "-"@), "."@, "-"@)
}

pub open spec fn cleaned_id(id: Seq<char>) -> Seq<char> {
    clean_id_text(lowercase(id))
}

pub open spec fn cleaned_name(name: Seq<char>) -> Seq<char> {
    clean_name_text(lowercase(name))
}

pub open spec fn stripped_name(name: Seq<char>) -> Seq<char> {
    strip_name_text(lowercase(name))
}

/// Whether a candidate (lowercased id and name) matches outright: equal
/// texts, or one id a prefix of the other.
pub open spec fn matches_outright(cid: Seq<char>, cname: Seq<char>, strip: Seq<char>, lid: Seq<char>, lname: Seq<char>) -> bool {
    lid == cid || lname == cname || lid == strip || lname == strip || cid.len() <= lid.len()
        && lid.take(cid.len() as int) == cid || lid.len() <= cid.len() && cid.take(lid.len() as int) == lid
}

/// The best fuzzy match so far after one more score: taken when it beats
/// the best and 60.
pub open spec fn improved(best: (u32, Option<Seq<char>>), m: Option<(u32, Seq<u32>)>, id: Seq<char>) -> (u32, Option<Seq<char>>) {
    match m {
        Some(x) => if x.0 > best.0 && x.0 > 60 {
            (x.0, Some(id))
        } else {
            best
        },
        None => best,
    }
}

/// The fuzzy best over the first `k` candidates: each scored on its id, on
/// its name, and on its id against the stripped name.
pub open spec fn best_upto(cands: Seq<(String, String)>, k: int, cid: Seq<char>, cname: Seq<char>, strip: Seq<char>) -> (u32, Option<Seq<char>>)
    decreases k,
{
    if k <= 0 {
        (0, None)
    } else {
        let b = best_upto(cands, k - 1, cid, cname, strip);
        let id = cands[k - 1].0@;
        let lid = lowercase(id);
        let lname = lowercase(cands[k - 1].1@);
        let b1 = improved(b, nucleo_match(cid, lid), id);
        let b2 = improved(b1, nucleo_match(cname, lname), id);
        improved(b2, nucleo_match(strip, lid), id)
    }
}

pub open spec fn outright_at(cands: Seq<(String, String)>, i: int, aa_id: Seq<char>, aa_name: Seq<char>) -> bool {
    matches_outright(
        cleaned_id(aa_id),
        cleaned_name(aa_name),
        stripped_name(aa_name),
        lowercase(cands[i].0@),
        lowercase(cands[i].1@),
    )
}

/// The id of the candidate that a record of the second source is: the first
/// one that matches outright, else the best fuzzy match above 60.
pub open spec fn matched_model(cands: Seq<(String, String)>, aa_id: Seq<char>, aa_name: Seq<char>) -> Option<Seq<char>> {
    if exists|i: int| 0 <= i < cands.len() && outright_at(cands, i, aa_id, aa_name) {
        let i = choose|i: int|
            0 <= i < cands.len() && outright_at(cands, i, aa_id, aa_name) && forall|j: int|
                0 <= j < i ==> !outright_at(cands, j, aa_id, aa_name);
        Some(cands[i].0@)
    } else {
        best_upto(cands, cands.len() as int, cleaned_id(aa_id), cleaned_name(aa_name), stripped_name(aa_name)).1
    }
}

fn replace_text(v: &Vec<char>, from: &str, to: &str) -> (r: Vec<char>)
    requires
        from@.len() > 0,
    ensures
        r@ == replaced(v@, from@, to@),
{
    let f = chars_of(from);
    let t = chars_of(to);
    replace_all(v, &f, &t)
}

fn starts_with_chars(s: &Vec<char>, p: &Vec<char>) -> (r: bool)
    ensures
        r == (p@.len() <= s@.len() && s@.take(p@.len() as int) == p@),
{
    let r = matches_at(s, 0, p);
    proof {
        if p@.len() <= s@.len() {
            assert(s@.subrange(0, p@.len() as int) =~= s@.take(p@.len() as int));
        }
    }
    r
}

fn fuzzy_score(pattern: &str, haystack: &str) -> (r: Option<u32>)
    ensures
        r is Some <==> nucleo_match(pattern@, haystack@) is Some,
        r is Some ==> r.unwrap() == nucleo_match(pattern@, haystack@).unwrap().0,
{
    match fuzzy_indices(pattern, haystack) {
        Some(x) => Some(x.0),
        None => None,
    }
}

/// Takes a fuzzy score as the new best when it beats the best and 60.
pub fn improve(best: &mut (u32, Option<String>), score: Option<u32>, id: &String)
    ensures
        final(best).0 == old(best).0 || (score is Some && final(best).0 == score.unwrap()),
        (final(best).0, opt_view(final(best).1)) == improved(
            (old(best).0, opt_view(old(best).1)),
            match score {
                Some(s) => Some((s, Seq::<u32>::empty())),
                None => None,
            },
            id@,
        ),
{
    match score {
        Some(s) => {
            if s > best.0 && s > 60 {
                *best = (s, Some(id.clone()));
            }
        },
        None => {},
    }
}

pub open spec fn opt_view(o: Option<String>) -> Option<Seq<char>> {
    match o {
        Some(s) => Some(s@),
        None => None,
    }
}

/// Cleans up a lowercased record id for matching.
pub fn clean_id(lower: &str) -> (r: Vec<char>)
    ensures
        r@ == clean_id_text(lower@),
{
    proof {
        reveal_strlit("anthropic/");
        reveal_strlit("openai/");
        reveal_strlit("google/");
        reveal_strlit("deepseek/");
        reveal_strlit("-thinking");
        reveal_strlit(".");
        reveal_strlit("-");
        reveal_strlit(" (");
        reveal_strlit(")");
        reveal_strlit(" ");
        reveal_strlit("");
        assert(""@ =~= Seq::<char>::empty());
    }
    let v = chars_of(lower);
    let v = replace_text(&v, "anthropic/", "");
    let v = replace_text(&v, "openai/", "");
    let v = replace_text(&v, "google/", "");
    let v = replace_text(&v, "deepseek/", "");
    let v = replace_text(&v, "-thinking", "");
    replace_text(&v, ".", "-")
}

/// Cleans up a lowercased record name for matching.
pub fn clean_name(lower: &str) -> (r: Vec<char>)
    ensures
        r@ == clean_name_text(lower@),
{
    proof {
        reveal_strlit("anthropic/");
        reveal_strlit("openai/");
        reveal_strlit("google/");
        reveal_strlit("deepseek/");
        reveal_strlit("-thinking");
        reveal_strlit(".");
        reveal_strlit("-");
        reveal_strlit(" (");
        reveal_strlit(")");
        reveal_strlit(" ");
        reveal_strlit("");
        assert(""@ =~= Seq::<char>::empty());
    }
    let n = chars_of(lower);
    let n1 = replace_text(&n, " (", "-");
    let n1 = replace_text(&n1, ")", "");
    let n1 = replace_text(&n1, " ", "-");
    replace_text(&n1, ".", "-")
}

/// Cleans up a lowercased record name, without its parenthesised part.
pub fn strip_name(lower: &str) -> (r: Vec<char>)
    ensures
        r@ == strip_name_text(lower@),
{
    proof {
        reveal_strlit("anthropic/");
        reveal_strlit("openai/");
        reveal_strlit("google/");
        reveal_strlit("deepseek/");
        reveal_strlit("-thinking");
        reveal_strlit(".");
        reveal_strlit("-");
        reveal_strlit(" (");
        reveal_strlit(")");
        reveal_strlit(" ");
    }
    let n = chars_of(lower);
    let open = chars_of(" (");
    let s0 = text_before(&n, &open);
    let s1 = replace_text(&s0, " ", "-");
    replace_text(&s1, ".", "-")
}

/// Whether a candidate, by its lowercased id and name, matches a record
/// outright.
pub fn outright(cid: &Vec<char>, cname: &str, strip: &str, lid: &Vec<char>, lname: &str) -> (r: bool)
    ensures
        r == matches_outright(cid@, cname@, strip@, lid@, lname@),
{
    let lid_s = string_of(lid);
    let cid_s = string_of(cid);
    str_eq(lid_s.as_str(), cid_s.as_str()) || str_eq(lname, cname) || str_eq(lid_s.as_str(), strip)
        || str_eq(lname, strip) || starts_with_chars(lid, cid) || starts_with_chars(cid, lid)
}

/// Finds which candidate `(id, name)` a record of the second source stands
/// for, by outright match first and by fuzzy score after.
pub fn fuzzy_match_model(aa_id: &str, aa_name: &str, cands: &Vec<(String, String)>) -> (r: Option<String>)
    ensures
        opt_view(r) == matched_model(cands@, aa_id@, aa_name@),
{
    let lid = to_lower(aa_id);
    let lname = to_lower(aa_name);
    let cid_v = clean_id(lid.as_str());
    let cname_v = clean_name(lname.as_str());
    let strip_v = strip_name(lname.as_str());
    let cid = string_of(&cid_v);
    let cname = string_of(&cname_v);
    let strip = string_of(&strip_v);
    let mut best: (u32, Option<String>) = (0, None);
    let mut i: usize = 0;
    while i < cands.len()
        invariant
            i <= cands.len(),
            cid@ == cleaned_id(aa_id@),
            cname@ == cleaned_name(aa_name@),
            strip@ == stripped_name(aa_name@),
            cid_v@ == cid@,
            forall|j: int| 0 <= j < i ==> !outright_at(cands@, j, aa_id@, aa_name@),
            (best.0, opt_view(best.1)) == best_upto(cands@, i as int, cid@, cname@, strip@),
        decreases cands.len() - i,
    {
        let c_id = to_lower(cands[i].0.as_str());
        let c_name = to_lower(cands[i].1.as_str());
        let c_id_v = chars_of(c_id.as_str());
        if outright(&cid_v, cname.as_str(), strip.as_str(), &c_id_v, c_name.as_str()) {
            proof {
                assert(outright_at(cands@, i as int, aa_id@, aa_name@));
            }
            return Some(cands[i].0.clone());
        }
        let s1 = fuzzy_score(cid.as_str(), c_id.as_str());
        improve(&mut best, s1, &cands[i].0);
        let s2 = fuzzy_score(cname.as_str(), c_name.as_str());
        improve(&mut best, s2, &cands[i].0);
        let s3 = fuzzy_score(strip.as_str(), c_id.as_str());
        improve(&mut best, s3, &cands[i].0);
        proof {
            let b = best_upto(cands@, i as int, cid@, cname@, strip@);
            let ident = cands@[i as int].0@;
            assert(forall|m: Option<(u32, Seq<u32>)>, bb: (u32, Option<Seq<char>>)|
                #[trigger] improved(bb, m, ident) == improved(
                    bb,
                    match m {
                        Some(x) => Some((x.0, Seq::<u32>::empty())),
                        None => None,
                    },
                    ident,
                ));
        }
        i = i + 1;
    }
    best.1
}

/// The tag shown for a record's source.
pub open spec fn source_tag_text(source: Seq<char>) -> Seq<char> {
    if source == "merged"@ {
        "\x1b[38;5;114m[merged]\x1b[0m"@
    } else if source == "llm-stats"@ {
        "\x1b[38;5;246m[llm-stats]\x1b[0m"@
    } else if source == "aa"@ {
        "\x1b[38;5;246m[aa]\x1b[0m"@
    } else {
        "\x1b[38;5;242m["@ + source + "]\x1b[0m"@
    }
}

pub fn source_tag(source: &str) -> (r: String)
    ensures
        r@ == source_tag_text(source@),
{
    if str_eq(source, "merged") {
        owned("\x1b[38;5;114m[merged]\x1b[0m")
    } else if str_eq(source, "llm-stats") {
        owned("\x1b[38;5;246m[llm-stats]\x1b[0m")
    } else if str_eq(source, "aa") {
        owned("\x1b[38;5;246m[aa]\x1b[0m")
    } else {
        let mut s = owned("\x1b[38;5;242m[");
        s.push_str(source);
        s.push_str("]\x1b[0m");
        s
    }
}

/// A category name with its first character in upper case (a space when
/// the name is empty).
pub open spec fn titled(s: Seq<char>) -> Seq<char> {
    if s.len() == 0 {
        uppercase(' ')
    } else {
        uppercase(s[0]) + s.skip(1)
    }
}

pub fn titleize(s: &str) -> (r: String)
    ensures
        r@ == titled(s@),
{
    let v = chars_of(s);
    if v.len() == 0 {
        return to_upper(' ');
    }
    let mut r = to_upper(v[0]);
    let mut i: usize = 1;
    while i < v.len()
        invariant
            1 <= i <= v.len(),
            r@ == uppercase(v@[0]) + v@.subrange(1, i as int),
        decreases v.len() - i,
    {
        r.push(v[i]);
        proof {
            assert(v@.subrange(1, i + 1) =~= v@.subrange(1, i as int).push(v@[i as int]));
        }
        i = i + 1;
    }
    proof {
        assert(v@.subrange(1, v@.len() as int) =~= v@.skip(1));
    }
    r
}

/// The category of a benchmark of the second source, from its id.
pub open spec fn bench_category_text(id: Seq<char>) -> Seq<char> {
    if contains_text(id, "coding"@) || contains_text(id, "livecodebench"@) {
        "coding"@
    } else if contains_text(id, "math"@) {
        "math"@
    } else {
        "general"@
    }
}

pub open spec fn contains_text(s: Seq<char>, p: Seq<char>) -> bool {
    exists|i: int| #[trigger] has_at(s, i, p)
}

fn contains_str(s: &Vec<char>, p: &str) -> (r: bool)
    ensures
        r == contains_text(s@, p@),
{
    let pv = chars_of(p);
    let mut i: usize = 0;
    while i < s.len()
        invariant
            i <= s.len(),
            pv@ == p@,
            forall|j: int| 0 <= j < i ==> !has_at(s@, j, p@),
        decreases s.len() - i,
    {
        if matches_at(s, i, &pv) {
            return true;
        }
        i = i + 1;
    }
    if matches_at(s, s.len(), &pv) {
        return true;
    }
    proof {
        assert forall|j: int| !#[trigger] has_at(s@, j, p@) by {
            if 0 <= j < i {
            } else if j > s@.len() {
            }
        }
    }
    false
}

pub fn bench_category(id: &str) -> (r: &'static str)
    ensures
        r@ == bench_category_text(id@),
{
    let v = chars_of(id);
    if contains_str(&v, "coding") || contains_str(&v, "livecodebench") {
        "coding"
    } else if contains_str(&v, "math") {
        "math"
    } else {
        "general"
    }
}

/// Whether a benchmark of the second source is an index, scored out of a
/// hundred rather than out of one.
pub fn is_index_bench(id: &str) -> (r: bool)
    ensures
        r == contains_text(id@, "index"@),
{
    let v = chars_of(id);
    contains_str(&v, "index")
}

/// The LIKE pattern a model query is looked up by: dashes as wildcards,
/// wildcards around.
pub open spec fn like_text(q: Seq<char>) -> Seq<char> {
    seq!['%'] + replaced(q, seq!['-'], seq!['%']) + seq!['%']
}

pub fn like_pattern(q: &str) -> (r: String)
    ensures
        r@ == like_text(q@),
{
    let v = chars_of(q);
    let dash = chars_of("-");
    let pct = chars_of("%");
    proof {
        reveal_strlit("-");
        reveal_strlit("%");
        assert(dash@ =~= seq!['-']);
        assert(pct@ =~= seq!['%']);
    }
    let body = replace_all(&v, &dash, &pct);
    let mut s = String::new();
    s.push('%');
    let b = string_of(&body);
    s.push_str(b.as_str());
    s.push('%');
    s
}

/// A category name for the spider chart's axes: up to nine characters, else
/// eight and an ellipsis.
pub fn category_short(s: &str) -> (r: String)
    ensures
        r@ == truncated(s@, 9),
{
    truncate(s, 9)
}

/// The rank marker of a leaderboard row: gold, silver and bronze for the
/// first three.
pub open spec fn rank_marker_text(rank: nat) -> Seq<char> {
    if rank == 1 {
        "\x1b[38;5;220m◆\x1b[0m"@
    } else if rank == 2 {
        "\x1b[38;5;243m◆\x1b[0m"@
    } else if rank == 3 {
        "\x1b[38;5;130m◆\x1b[0m"@
    } else {
        "\x1b[38;5;242m◆\x1b[0m"@
    }
}

pub fn rank_marker(rank: usize) -> (r: &'static str)
    ensures
        r@ == rank_marker_text(rank as nat),
{
    if rank == 1 {
        "\x1b[38;5;220m◆\x1b[0m"
    } else if rank == 2 {
        "\x1b[38;5;243m◆\x1b[0m"
    } else if rank == 3 {
        "\x1b[38;5;130m◆\x1b[0m"
    } else {
        "\x1b[38;5;242m◆\x1b[0m"
    }
}

/// Whether `r` is strictly increasing in character-code order.
pub open spec fn strictly_sorted(r: Seq<Seq<char>>) -> bool {
    forall|i: int, j: int| 0 <= i < j < r.len() ==> lex_lt(#[trigger] r[i], #[trigger] r[j])
}

proof fn lemma_push_contains(p: Seq<Seq<char>>, a: Seq<char>, x: Seq<char>)
    ensures
        p.push(a).contains(x) <==> (p.contains(x) || x == a),
{
    if p.contains(x) {
        let w = choose|w: int| 0 <= w < p.len() && p[w] == x;
        assert(p.push(a)[w] == x);
    }
    if x == a {
        assert(p.push(a)[p.len() as int] == x);
    }
    if p.push(a).contains(x) {
        let w = choose|w: int| 0 <= w < p.push(a).len() && p.push(a)[w] == x;
        if w < p.len() {
            assert(p[w] == x);
        }
    }
}

/// The benchmarks of the compared models: each name once, in sorted order.
pub fn benchmark_union(names: &Vec<String>) -> (r: Vec<String>)
    ensures
        strictly_sorted(views(r@)),
        forall|x: Seq<char>| views(r@).contains(x) <==> views(names@).contains(x),
{
    let mut r: Vec<String> = Vec::new();
    let mut i: usize = 0;
    while i < names.len()
        invariant
            i <= names.len(),
            strictly_sorted(views(r@)),
            forall|x: Seq<char>| views(r@).contains(x) <==> views(names@.take(i as int)).contains(x),
        decreases names.len() - i,
    {
        let name = &names[i];
        let nv = chars_of(name.as_str());
        let mut k: usize = 0;
        let mut found = false;
        let mut done = false;
        while k < r.len() && !done
            invariant
                k <= r.len(),
                nv@ == name@,
                strictly_sorted(views(r@)),
                !done ==> forall|j: int| 0 <= j < k ==> lex_lt(#[trigger] r@[j]@, name@),
                done ==> k < r.len() && (forall|j: int| 0 <= j < k ==> lex_lt(#[trigger] r@[j]@, name@))
                    && !lex_lt(r@[k as int]@, name@),
                found ==> done && r@[k as int]@ == name@,
                done && !found ==> lex_lt(name@, r@[k as int]@),
            decreases r.len() - k + (if done { 0int } else { 1int }),
        {
            let rv = chars_of(r[k].as_str());
            if lex_less(&rv, &nv) {
                k = k + 1;
            } else {
                done = true;
                proof {
                    lemma_lex_total(r@[k as int]@, name@);
                }
                if r[k] == *name {
                    found = true;
                }
            }
        }
        proof {
            assert(views(names@.take(i + 1)) =~= views(names@.take(i as int)).push(name@));
        }
        if !found {
            let ghost old_r = views(r@);
            r.insert(k, name.clone());
            proof {
                let nr = views(r@);
                assert(nr =~= old_r.take(k as int).push(name@) + old_r.skip(k as int));
                assert forall|a: int, b: int| 0 <= a < b < nr.len() implies lex_lt(#[trigger] nr[a], #[trigger] nr[b]) by {
                    if a < k && b == k {
                        assert(nr[a] == old_r[a]);
                    } else if a < k && b > k {
                        assert(nr[a] == old_r[a]);
                        assert(nr[b] == old_r[b - 1]);
                    } else if a == k && b > k {
                        assert(nr[b] == old_r[b - 1]);
                        if b - 1 > k {
                            lemma_lex_transitive(name@, old_r[k as int], old_r[b - 1]);
                        }
                    } else {
                        if a > k {
                            assert(nr[a] == old_r[a - 1]);
                            assert(nr[b] == old_r[b - 1]);
                        } else {
                            assert(nr[a] == old_r[a]);
                            assert(nr[b] == old_r[b]);
                        }
                    }
                }
                assert forall|x: Seq<char>| nr.contains(x) <==> views(names@.take(i + 1)).contains(x) by {
                    lemma_push_contains(views(names@.take(i as int)), name@, x);
                    if nr.contains(x) {
                        let w = choose|w: int| 0 <= w < nr.len() && nr[w] == x;
                        if w < k {
                            assert(old_r[w] == x);
                        } else if w > k {
                            assert(old_r[w - 1] == x);
                        }
                    }
                    if old_r.contains(x) {
                        let w = choose|w: int| 0 <= w < old_r.len() && old_r[w] == x;
                        if w < k {
                            assert(nr[w] == x);
                        } else {
                            assert(nr[w + 1] == x);
                        }
                    }
                    if x == name@ {
                        assert(nr[k as int] == x);
                    }
                }
            }
        } else {
            proof {
                assert(views(r@)[k as int] == name@);
                assert forall|x: Seq<char>| views(r@).contains(x) <==> views(names@.take(i + 1)).contains(x) by {
                    lemma_push_contains(views(names@.take(i as int)), name@, x);
                }
            }
        }
        i = i + 1;
    }
    proof {
        assert(names@.take(i as int) =~= names@);
    }
    r
}

} // verus!

