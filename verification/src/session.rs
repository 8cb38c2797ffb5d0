//! Session files: what one session log amounts to (its header, first prompt,
//! calls, token and error totals, models), how a project directory name is
//! shown, and which files a sync has to read again.
use vstd::prelude::*;
use crate::text::{
    owned, str_eq, chars_of, string_of, string_of_range, replace_all, replaced, join_strings,
    joined, before_char, after_char, find_char, byte_prefix, byte_prefix_len,
};
use crate::tree::{views, set_of, contains_id};

verus! {

broadcast use vstd::string::group_string_axioms;

/// Token counts of one model call, and a reference the reader of the file
/// keeps to find what else it read with them.
#[derive(Clone, Copy)]
pub struct Usage {
    pub input: u32,
    pub output: u32,
    pub cost_ref: usize,
}

/// One JSON line of a session file, as far as the summary reads it. Fields
/// absent from the line are empty or `None`.
pub struct LogLine {
    /// The `type` field.
    pub kind: String,
    /// The `id` field.
    pub id: String,
    /// The `timestamp` field.
    pub timestamp: String,
    /// The `parentSession` field ("" when the line has none).
    pub parent: String,
    /// Whether the line has a `message` field.
    pub has_message: bool,
    /// `message.role`.
    pub role: Option<String>,
    /// `message.content[0].text`.
    pub first_text: Option<String>,
    /// The top-level `usage` object.
    pub usage: Option<Usage>,
    /// The top-level `model`.
    pub model: Option<String>,
    /// The top-level `stopReason`.
    pub stop: Option<String>,
    /// `message.usage`.
    pub message_usage: Option<Usage>,
    /// `message.model`.
    pub message_model: Option<String>,
    /// `message.stopReason`.
    pub message_stop: Option<String>,
}

/// One model call of a session.
pub struct CallSummary {
    pub session_id: String,
    pub model: String,
    pub input_tokens: u32,
    pub output_tokens: u32,
    pub tokens: u32,
    pub is_error: bool,
    /// The index of the line it was read from.
    pub line: usize,
    /// The reference of the usage it was read from.
    pub cost_ref: usize,
}

/// What a session file amounts to.
pub struct SessionSummary {
    pub id: String,
    pub project: String,
    pub file_path: String,
    pub file_size: u64,
    pub date: String,
    pub time: String,
    pub prompt: String,
    pub models: String,
    pub total_calls: u32,
    pub total_tokens: u32,
    pub errors: u32,
    pub last_model: String,
    /// The raw `parentSession` of the session line, "" when the session has
    /// no parent.
    pub parent_session: String,
    pub calls: Vec<CallSummary>,
}

pub open spec fn session_word() -> Seq<char> {
    seq!['s', 'e', 's', 's', 'i', 'o', 'n']
}

pub open spec fn message_word() -> Seq<char> {
    seq!['m', 'e', 's', 's', 'a', 'g', 'e']
}

pub open spec fn user_word() -> Seq<char> {
    seq!['u', 's', 'e', 'r']
}

pub open spec fn error_word() -> Seq<char> {
    seq!['e', 'r', 'r', 'o', 'r']
}

pub open spec fn unknown_word() -> Seq<char> {
    seq!['u', 'n', 'k', 'n', 'o', 'w', 'n']
}

pub open spec fn opt_text(o: Option<String>) -> Option<Seq<char>> {
    match o {
        Some(s) => Some(s@),
        None => None,
    }
}

/// The usage a message line reports: its own, else its message's.
pub open spec fn line_usage(l: LogLine) -> Option<Usage> {
    if l.usage is Some {
        l.usage
    } else if l.has_message {
        l.message_usage
    } else {
        None
    }
}

/// Whether the message's own fields stand in for the line's missing ones.
pub open spec fn falls_back(l: LogLine) -> bool {
    l.usage is None && l.has_message
}

/// The model a message line names, "unknown" when none.
pub open spec fn line_model(l: LogLine) -> Seq<char> {
    let m = if falls_back(l) && l.model is None {
        l.message_model
    } else {
        l.model
    };
    match m {
        Some(s) => s@,
        None => unknown_word(),
    }
}

/// Whether a message line ended in an error.
pub open spec fn line_is_error(l: LogLine) -> bool {
    let e = if falls_back(l) && l.stop is None {
        l.message_stop
    } else {
        l.stop
    };
    match e {
        Some(s) => s@ == error_word(),
        None => false,
    }
}

/// The session id after the first `k` lines: that of the last session line.
pub open spec fn scan_id(lines: Seq<LogLine>, k: int) -> Seq<char>
    decreases k,
{
    if k <= 0 {
        Seq::<char>::empty()
    } else if lines[k - 1].kind@ == session_word() {
        lines[k - 1].id@
    } else {
        scan_id(lines, k - 1)
    }
}

/// The session timestamp after the first `k` lines.
pub open spec fn scan_timestamp(lines: Seq<LogLine>, k: int) -> Seq<char>
    decreases k,
{
    if k <= 0 {
        Seq::<char>::empty()
    } else if lines[k - 1].kind@ == session_word() {
        lines[k - 1].timestamp@
    } else {
        scan_timestamp(lines, k - 1)
    }
}

/// The parent session named by the session line, after the first `k` lines.
pub open spec fn scan_parent(lines: Seq<LogLine>, k: int) -> Seq<char>
    decreases k,
{
    if k <= 0 {
        Seq::<char>::empty()
    } else if lines[k - 1].kind@ == session_word() {
        lines[k - 1].parent@
    } else {
        scan_parent(lines, k - 1)
    }
}

/// The prompt after the first `k` lines: the first text of the first user
/// message that has a non-empty one.
pub open spec fn scan_prompt(lines: Seq<LogLine>, k: int) -> Seq<char>
    decreases k,
{
    if k <= 0 {
        Seq::<char>::empty()
    } else {
        let p = scan_prompt(lines, k - 1);
        let l = lines[k - 1];
        if l.kind@ == message_word() && opt_text(l.role) == Some(user_word()) && p.len() == 0
            && l.first_text is Some {
            l.first_text.unwrap()@
        } else {
            p
        }
    }
}

/// A call as the contracts see it: session id, model, input and output
/// tokens, error flag, line index.
pub type CallView = (Seq<char>, Seq<char>, u32, u32, bool, int);

/// The calls of the first `k` lines: one per message line with usage.
pub open spec fn calls_upto(lines: Seq<LogLine>, k: int) -> Seq<CallView>
    decreases k,
{
    if k <= 0 {
        Seq::<CallView>::empty()
    } else {
        let prev = calls_upto(lines, k - 1);
        let l = lines[k - 1];
        if l.kind@ == message_word() && line_usage(l) is Some {
            let u = line_usage(l).unwrap();
            prev.push((scan_id(lines, k - 1), line_model(l), u.input, u.output, line_is_error(l), k - 1))
        } else {
            prev
        }
    }
}

pub open spec fn token_sum(calls: Seq<CallView>) -> nat
    decreases calls.len(),
{
    if calls.len() == 0 {
        0
    } else {
        token_sum(calls.drop_last()) + (calls.last().2 as nat) + (calls.last().3 as nat)
    }
}

pub open spec fn error_count(calls: Seq<CallView>) -> nat
    decreases calls.len(),
{
    if calls.len() == 0 {
        0
    } else {
        error_count(calls.drop_last()) + if calls.last().4 { 1nat } else { 0nat }
    }
}

/// The distinct entries of `s`, in the order of their first occurrence.
pub open spec fn distinct(s: Seq<Seq<char>>) -> Seq<Seq<char>>
    decreases s.len(),
{
    if s.len() == 0 {
        s
    } else {
        let d = distinct(s.drop_last());
        if d.contains(s.last()) {
            d
        } else {
            d.push(s.last())
        }
    }
}

pub open spec fn call_models(calls: Seq<CallView>) -> Seq<Seq<char>> {
    calls.map_values(|c: CallView| c.1)
}

/// The date part of a timestamp: what comes before the first `T`.
pub open spec fn date_part(ts: Seq<char>) -> Seq<char> {
    before_char(ts, 'T')
}

/// The time part of a timestamp: the first five bytes of the piece after
/// the first `T`, or nothing when that piece has no character boundary there.
pub open spec fn time_part(ts: Seq<char>) -> Seq<char> {
    match after_char(ts, 'T') {
        None => Seq::<char>::empty(),
        Some(rest) => match byte_prefix(before_char(rest, 'T'), 5) {
            Some(p) => p,
            None => Seq::<char>::empty(),
        },
    }
}

pub open spec fn call_view(c: CallSummary) -> CallView {
    (c.session_id@, c.model@, c.input_tokens, c.output_tokens, c.is_error, c.line as int)
}

pub open spec fn call_views(cs: Seq<CallSummary>) -> Seq<CallView> {
    cs.map_values(|c: CallSummary| call_view(c))
}

pub proof fn lemma_calls_grow(lines: Seq<LogLine>, i: int, j: int)
    requires
        0 <= i <= j,
    ensures
        token_sum(calls_upto(lines, i)) <= token_sum(calls_upto(lines, j)),
        calls_upto(lines, i).len() <= calls_upto(lines, j).len(),
    decreases j - i,
{
    if i < j {
        lemma_calls_grow(lines, i, j - 1);
        let c = calls_upto(lines, j);
        if c.len() > calls_upto(lines, j - 1).len() {
            assert(c.drop_last() =~= calls_upto(lines, j - 1));
        }
    }
}

pub proof fn lemma_errors_bounded(calls: Seq<CallView>)
    ensures
        error_count(calls) <= calls.len(),
    decreases calls.len(),
{
    if calls.len() > 0 {
        lemma_errors_bounded(calls.drop_last());
    }
}

/// The text of an optional string, with `fallback` when there is none.
pub fn text_or(o: &Option<String>, fallback: &str) -> (r: String)
    ensures
        r@ == (match o {
            Some(s) => s@,
            None => fallback@,
        }),
{
    match o {
        Some(s) => s.clone(),
        None => owned(fallback),
    }
}

fn opt_is(o: &Option<String>, word: &str) -> (r: bool)
    ensures
        r == (opt_text(*o) == Some(word@)),
{
    match o {
        Some(s) => str_eq(s.as_str(), word),
        None => false,
    }
}

/// The date and time parts of a session timestamp.
pub fn split_timestamp(ts: &str) -> (r: (String, String))
    ensures
        r.0@ == date_part(ts@),
        r.1@ == time_part(ts@),
{
    let v = chars_of(ts);
    match find_char(&v, 'T') {
        None => (string_of(&v), String::new()),
        Some(i) => {
            let date = string_of_range(&v, 0, i);
            let rest = string_of_range(&v, i + 1, v.len());
            let rv = chars_of(rest.as_str());
            proof {
                assert(rv@ =~= v@.skip(i + 1));
            }
            let piece_end = match find_char(&rv, 'T') {
                None => rv.len(),
                Some(j) => j,
            };
            let piece = string_of_range(&rv, 0, piece_end);
            let pv = chars_of(piece.as_str());
            proof {
                assert(pv@ =~= before_char(rv@, 'T'));
            }
            let time = match byte_prefix_len(&pv, 5) {
                Some(k) => string_of_range(&pv, 0, k),
                None => String::new(),
            };
            proof {
                assert(date@ =~= v@.take(i as int));
            }
            (date, time)
        },
    }
}

/// The summary of a session file read as `lines`: `None` when no line names
/// the session.
pub fn summarize_session(lines: &Vec<LogLine>, project: &str, file_path: &str, file_size: u64) -> (r:
    Option<SessionSummary>)
    requires
        token_sum(calls_upto(lines@, lines@.len() as int)) <= u32::MAX,
        calls_upto(lines@, lines@.len() as int).len() <= u32::MAX,
    ensures
        r is None <==> scan_id(lines@, lines@.len() as int).len() == 0,
        r is Some ==> ({
            let s = r.unwrap();
            let calls = calls_upto(lines@, lines@.len() as int);
            let ts = scan_timestamp(lines@, lines@.len() as int);
            &&& s.id@ == scan_id(lines@, lines@.len() as int)
            &&& s.parent_session@ == scan_parent(lines@, lines@.len() as int)
            &&& s.project@ == project@
            &&& s.file_path@ == file_path@
            &&& s.file_size == file_size
            &&& s.date@ == date_part(ts)
            &&& s.time@ == time_part(ts)
            &&& s.prompt@ == scan_prompt(lines@, lines@.len() as int)
            &&& call_views(s.calls@) == calls
            &&& (forall|j: int|
                0 <= j < s.calls@.len() ==> #[trigger] s.calls@[j].tokens == s.calls@[j].input_tokens
                    + s.calls@[j].output_tokens)
            &&& (forall|j: int|
                0 <= j < s.calls@.len() ==> (#[trigger] s.calls@[j]).cost_ref == line_usage(
                    lines@[s.calls@[j].line as int],
                ).unwrap().cost_ref)
            &&& s.total_calls == calls.len()
            &&& s.total_tokens == token_sum(calls)
            &&& s.errors == error_count(calls)
            &&& s.models@ == joined(distinct(call_models(calls)), seq![' '])
            &&& s.last_model@ == (if calls.len() > 0 {
                calls.last().1
            } else {
                Seq::<char>::empty()
            })
        }),
{
    let mut id = String::new();
    let mut ts = String::new();
    let mut parent = String::new();
    let mut prompt = String::new();
    let mut calls: Vec<CallSummary> = Vec::new();
    let mut total_tokens: u32 = 0;
    let mut errors: u32 = 0;
    let mut models: Vec<String> = Vec::new();
    let mut i: usize = 0;
    proof {
        reveal_strlit("session");
        reveal_strlit("message");
        reveal_strlit("user");
        reveal_strlit("error");
        reveal_strlit("unknown");
        assert(call_views(calls@) =~= Seq::<CallView>::empty());
        assert(views(models@) =~= Seq::<Seq<char>>::empty());
    }
    while i < lines.len()
        invariant
            i <= lines.len(),
            token_sum(calls_upto(lines@, lines@.len() as int)) <= u32::MAX,
            calls_upto(lines@, lines@.len() as int).len() <= u32::MAX,
            id@ == scan_id(lines@, i as int),
            ts@ == scan_timestamp(lines@, i as int),
            parent@ == scan_parent(lines@, i as int),
            prompt@ == scan_prompt(lines@, i as int),
            call_views(calls@) == calls_upto(lines@, i as int),
            forall|j: int|
                0 <= j < calls@.len() ==> #[trigger] calls@[j].tokens == calls@[j].input_tokens
                    + calls@[j].output_tokens,
            forall|j: int|
                0 <= j < calls@.len() ==> (#[trigger] calls@[j]).line < lines@.len() && calls@[j].cost_ref
                    == line_usage(lines@[calls@[j].line as int]).unwrap().cost_ref,
            total_tokens == token_sum(calls_upto(lines@, i as int)),
            errors == error_count(calls_upto(lines@, i as int)),
            views(models@) == distinct(call_models(calls_upto(lines@, i as int))),
        decreases lines.len() - i,
    {
        let l = &lines[i];
        let ghost before = calls_upto(lines@, i as int);
        proof {
            reveal_strlit("session");
            reveal_strlit("message");
            reveal_strlit("user");
            reveal_strlit("error");
            reveal_strlit("unknown");
            assert("session"@ =~= session_word());
            assert("message"@ =~= message_word());
            assert("user"@ =~= user_word());
            assert("error"@ =~= error_word());
            assert("unknown"@ =~= unknown_word());
            lemma_calls_grow(lines@, i + 1, lines@.len() as int);
        }
        if str_eq(l.kind.as_str(), "session") {
            id = l.id.clone();
            ts = l.timestamp.clone();
            parent = l.parent.clone();
        } else if str_eq(l.kind.as_str(), "message") {
            let is_user = opt_is(&l.role, "user");
            if is_user && prompt.as_str().is_empty() {
                match &l.first_text {
                    Some(t) => {
                        prompt = t.clone();
                    },
                    None => {},
                }
            }
            let fallback = l.usage.is_none() && l.has_message;
            let usage = if l.usage.is_some() {
                l.usage
            } else if l.has_message {
                l.message_usage
            } else {
                None
            };
            match usage {
                Some(u) => {
                    let model = if fallback && l.model.is_none() {
                        text_or(&l.message_model, "unknown")
                    } else {
                        text_or(&l.model, "unknown")
                    };
                    let is_error = if fallback && l.stop.is_none() {
                        opt_is(&l.message_stop, "error")
                    } else {
                        opt_is(&l.stop, "error")
                    };
                    let ghost after = calls_upto(lines@, i + 1);
                    proof {
                        assert(after.drop_last() =~= before);
                        assert(token_sum(after) == token_sum(before) + u.input + u.output);
                    }
                    let tokens = u.input + u.output;
                    total_tokens = total_tokens + tokens;
                    if is_error {
                        proof {
                            lemma_errors_bounded(before);
                        }
                        errors = errors + 1;
                    }
                    let known = contains_id(&models, &model);
                    proof {
                        assert(call_models(after) =~= call_models(before).push(model@));
                        assert(call_models(after).drop_last() =~= call_models(before));
                        if known {
                            let w = choose|w: int| 0 <= w < models@.len() && #[trigger] models@[w]@ == model@;
                            assert(views(models@)[w] == model@);
                        } else {
                            assert forall|w: int| 0 <= w < views(models@).len() implies views(models@)[w] != model@ by {
                                assert(models@[w]@ == views(models@)[w]);
                                if models@[w]@ == model@ {
                                    assert(set_of(models@).contains(model@));
                                }
                            }
                        }
                    }
                    if !known {
                        models.push(model.clone());
                        proof {
                            assert(views(models@) =~= distinct(call_models(after)));
                        }
                    }
                    calls.push(
                        CallSummary {
                            session_id: id.clone(),
                            model,
                            input_tokens: u.input,
                            output_tokens: u.output,
                            tokens,
                            is_error,
                            line: i,
                            cost_ref: u.cost_ref,
                        },
                    );
                    proof {
                        assert(call_views(calls@) =~= after);
                    }
                },
                None => {},
            }
        }
        i = i + 1;
    }
    if id.as_str().is_empty() {
        return None;
    }
    let ghost all = calls_upto(lines@, lines@.len() as int);
    let (date, time) = split_timestamp(ts.as_str());
    let joined_models = join_strings(&models, " ");
    let last_model = if calls.len() > 0 {
        proof {
            assert(call_views(calls@)[calls@.len() - 1] == call_view(calls@[calls@.len() - 1]));
        }
        calls[calls.len() - 1].model.clone()
    } else {
        String::new()
    };
    proof {
        reveal_strlit(" ");
        assert(" "@ =~= seq![' ']);
        assert(models@.map_values(|p: String| p@) =~= views(models@));
    }
    Some(
        SessionSummary {
            id,
            project: owned(project),
            file_path: owned(file_path),
            file_size,
            date,
            time,
            prompt,
            models: joined_models,
            total_calls: calls.len() as u32,
            total_tokens,
            errors,
            last_model,
            parent_session: parent,
            calls,
        },
    )
}

/// A project directory name with its dashes read back as slashes (a double
/// dash first), and one leading and one trailing slash taken off.
pub open spec fn decoded_path(e: Seq<char>) -> Seq<char> {
    let a = replaced(replaced(e, seq!['-', '-'], seq!['/']), seq!['-'], seq!['/']);
    let b = if a.len() > 0 && a[0] == '/' {
        a.skip(1)
    } else {
        a
    };
    if b.len() > 0 && b.last() == '/' {
        b.drop_last()
    } else {
        b
    }
}

/// The path that a session directory's name stands for.
pub fn decode_path(encoded: &str) -> (r: String)
    ensures
        r@ == decoded_path(encoded@),
{
    let v = chars_of(encoded);
    let dd = chars_of("--");
    let slash = chars_of("/");
    let dash = chars_of("-");
    proof {
        reveal_strlit("--");
        reveal_strlit("/");
        reveal_strlit("-");
        assert(dd@ =~= seq!['-', '-']);
        assert(slash@ =~= seq!['/']);
        assert(dash@ =~= seq!['-']);
    }
    let a = replace_all(&v, &dd, &slash);
    let a = replace_all(&a, &dash, &slash);
    let start: usize = if a.len() > 0 && a[0] == '/' { 1 } else { 0 };
    let end: usize = if a.len() > start && a[a.len() - 1] == '/' { a.len() - 1 } else { a.len() };
    let r = string_of_range(&a, start, end);
    proof {
        let b = if a@.len() > 0 && a@[0] == '/' { a@.skip(1) } else { a@ };
        assert(b =~= a@.subrange(start as int, a@.len() as int));
        if b.len() > 0 && b.last() == '/' {
            assert(b.drop_last() =~= a@.subrange(start as int, end as int));
        } else {
            assert(b =~= a@.subrange(start as int, end as int));
        }
    }
    r
}

/// The text after the last `/` of a path (the whole path when it has none).
pub open spec fn last_segment(p: Seq<char>) -> Seq<char>
    decreases p.len(),
{
    if p.len() == 0 {
        p
    } else if p.last() == '/' {
        Seq::empty()
    } else {
        last_segment(p.drop_last()).push(p.last())
    }
}

/// A path whose file name every platform reads the same way: no backslash or
/// `:` (no Windows separator or prefix), not starting with `//` (no UNC
/// prefix), and its last `/`-segment is a plain name, neither empty nor
/// `.` nor `..`.
pub open spec fn plain_tail(p: Seq<char>) -> bool {
    &&& !p.contains('\\')
    &&& !p.contains(':')
    &&& !(p.len() >= 2 && p[0] == '/' && p[1] == '/')
    &&& last_segment(p).len() > 0
    &&& last_segment(p) != seq!['.']
    &&& last_segment(p) != seq!['.', '.']
}

/// Runs `std::path::Path::file_name` on `p` and turns the name into a
/// `String`. Trusted: when there is a name, it is a non-empty path component,
/// so it holds no `/`; when the path ends in a plain segment and holds no
/// platform prefix or backslash, the name is that last segment (the final
/// normal component, as the std documentation gives it). Paths that end in
/// `.`, `..` or `/`, or that hold a backslash, `:` or a leading `//`, are read by
/// each platform's own rules, and nothing more is stated of them.
#[verifier::external_body]
fn path_file_name(p: &str) -> (r: Option<String>)
    ensures
        r is Some ==> r.unwrap()@.len() > 0 && !r.unwrap()@.contains('/'),
        plain_tail(p@) ==> r is Some && r.unwrap()@ == last_segment(p@),
{
    std::path::Path::new(p).file_name().map(|n| n.to_string_lossy().into_owned())
}

/// The label of a project: the last component of its path, or the whole
/// path when it has none.
pub fn project_label(path: String, file_name: Option<String>) -> (r: String)
    ensures
        r@ == (match file_name {
            Some(n) => n@,
            None => path@,
        }),
{
    match file_name {
        Some(n) => n,
        None => path,
    }
}

/// How a session directory name is shown: the last component of the path
/// it stands for.
pub fn decode_project_name(encoded: &str) -> (r: String)
    ensures
        r@ == decoded_path(encoded@) || (r@.len() > 0 && !r@.contains('/')),
        plain_tail(decoded_path(encoded@)) ==> r@ == last_segment(decoded_path(encoded@)),
{
    let path = decode_path(encoded);
    let name = path_file_name(path.as_str());
    project_label(path, name)
}

/// The size a sync recorded for `path`: the last entry for it, as a map
/// filled in row order keeps it.
pub open spec fn cached_size(cache: Seq<(String, u64)>, path: Seq<char>) -> Option<u64>
    decreases cache.len(),
{
    if cache.len() == 0 {
        None
    } else if cache.last().0@ == path {
        Some(cache.last().1)
    } else {
        cached_size(cache.drop_last(), path)
    }
}

/// Whether a session file has to be read: it is not recorded, or recorded
/// with another size.
pub fn needs_parse(cache: &Vec<(String, u64)>, path: &String, size: u64) -> (r: bool)
    ensures
        r == (cached_size(cache@, path@) != Some(size)),
{
    let mut i: usize = cache.len();
    proof {
        assert(cache@.take(i as int) =~= cache@);
    }
    while i > 0 && cache[i - 1].0 != *path
        invariant
            i <= cache.len(),
            cached_size(cache@, path@) == cached_size(cache@.take(i as int), path@),
        decreases i,
    {
        proof {
            assert(cache@.take(i as int).drop_last() =~= cache@.take(i - 1));
        }
        i = i - 1;
    }
    if i == 0 {
        true
    } else {
        proof {
            assert(cache@.take(i as int).last() == cache@[i - 1]);
        }
        cache[i - 1].1 != size
    }
}

/// A session never has more errors than calls, and its token total is at
/// least that of any of its first lines.
pub proof fn law_errors_within_calls(lines: Seq<LogLine>, k: int)
    requires
        0 <= k <= lines.len(),
    ensures
        error_count(calls_upto(lines, lines.len() as int)) <= calls_upto(lines, lines.len() as int).len(),
        token_sum(calls_upto(lines, k)) <= token_sum(calls_upto(lines, lines.len() as int)),
{
    lemma_errors_bounded(calls_upto(lines, lines.len() as int));
    lemma_calls_grow(lines, k, lines.len() as int);
}

/// Once a file is recorded with its size, a sync no longer reads it; a file
/// recorded with another size, or not at all, is read.
pub proof fn law_recorded_file_skipped(cache: Seq<(String, u64)>, entry: (String, u64), size: u64)
    ensures
        cached_size(cache.push(entry), entry.0@) == Some(entry.1),
        (cached_size(cache.push(entry), entry.0@) != Some(size)) == (entry.1 != size),
{
    assert(cache.push(entry).last() == entry);
}

/// Whether the call count and the token total of a session file fit the
/// 32-bit counters of its summary.
pub fn totals_fit(lines: &Vec<LogLine>) -> (r: bool)
    ensures
        r == (token_sum(calls_upto(lines@, lines@.len() as int)) <= u32::MAX && calls_upto(
            lines@,
            lines@.len() as int,
        ).len() <= u32::MAX),
{
    let mut calls: u64 = 0;
    let mut tokens: u64 = 0;
    let mut i: usize = 0;
    proof {
        reveal_strlit("message");
        assert("message"@ =~= message_word());
    }
    while i < lines.len()
        invariant
            i <= lines.len(),
            "message"@ == message_word(),
            calls == calls_upto(lines@, i as int).len(),
            tokens == token_sum(calls_upto(lines@, i as int)),
            calls <= u32::MAX,
            tokens <= u32::MAX,
        decreases lines.len() - i,
    {
        let l = &lines[i];
        let ghost before = calls_upto(lines@, i as int);
        proof {
            lemma_calls_grow(lines@, i + 1, lines@.len() as int);
        }
        if str_eq(l.kind.as_str(), "message") {
            let usage = if l.usage.is_some() {
                l.usage
            } else if l.has_message {
                l.message_usage
            } else {
                None
            };
            match usage {
                Some(u) => {
                    proof {
                        let after = calls_upto(lines@, i + 1);
                        assert(after.drop_last() =~= before);
                    }
                    calls = calls + 1;
                    tokens = tokens + u.input as u64 + u.output as u64;
                    if calls > 0xffff_ffff || tokens > 0xffff_ffff {
                        return false;
                    }
                },
                None => {},
            }
        }
        i = i + 1;
    }
    true
}

} // verus!

