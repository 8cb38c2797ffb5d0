//! The command line as the program reads it, and what it decides to show.
use vstd::prelude::*;
use crate::text::str_eq;

verus! {

broadcast use vstd::string::group_string_axioms;

/// The options and subcommand of one run.
pub struct Cli {
    /// Show today's sessions.
    pub today: bool,
    /// Show the past seven days of sessions.
    pub week: bool,
    /// Show the past thirty days of sessions.
    pub month: bool,
    /// Show the activity heatmap (180 days).
    pub heatmap: bool,
    /// Show the summary dashboard.
    pub summary: bool,
    /// Pick a session to continue.
    pub continue_session: bool,
    /// Pick a session to inspect.
    pub inspect: bool,
    /// When inspecting, show the calls.
    pub calls: bool,
    /// Filter sessions by text (full-text search).
    pub query: Option<String>,
    /// Sort column: cost, tokens, calls or time.
    pub sort: String,
    /// Scope the picker to the last N days.
    pub days: Option<u32>,
    /// Refresh the model data from the APIs.
    pub refresh_api: bool,
    /// Read every session file again.
    pub refresh_sessions: bool,
    /// Print the help.
    pub help: Option<bool>,
    pub command: Option<Commands>,
}

/// The subcommands.
pub enum Commands {
    /// Model detail card or model picker.
    Model { query: Option<String>, refresh: bool },
    /// Compare models side by side.
    Compare { models: Vec<String>, spider: bool },
    /// Model rankings by benchmark score.
    Rankings { category: Option<String> },
    /// The settings picker.
    Settings,
    /// Print the session tree.
    Tree,
}

/// What a run shows.
#[derive(PartialEq, Eq, Structural)]
pub enum Route {
    Heatmap,
    Summary,
    Today,
    Week,
    Month,
    Search,
    Model,
    Compare,
    Rankings,
    Settings,
    Tree,
    /// The session picker; `true` to inspect the session, `false` to continue it.
    Pick(bool),
}

/// The view a command line asks for: the first of heatmap, summary, today,
/// week, month and search that is set, else the subcommand, else the picker.
pub open spec fn route_of(cli: Cli) -> Route {
    if cli.heatmap {
        Route::Heatmap
    } else if cli.summary {
        Route::Summary
    } else if cli.today {
        Route::Today
    } else if cli.week {
        Route::Week
    } else if cli.month {
        Route::Month
    } else if cli.query is Some {
        Route::Search
    } else {
        match cli.command {
            Some(Commands::Model { .. }) => Route::Model,
            Some(Commands::Compare { .. }) => Route::Compare,
            Some(Commands::Rankings { .. }) => Route::Rankings,
            Some(Commands::Settings) => Route::Settings,
            Some(Commands::Tree) => Route::Tree,
            None => Route::Pick(cli.inspect || cli.calls),
        }
    }
}

pub fn route(cli: &Cli) -> (r: Route)
    ensures
        r == route_of(*cli),
{
    if cli.heatmap {
        Route::Heatmap
    } else if cli.summary {
        Route::Summary
    } else if cli.today {
        Route::Today
    } else if cli.week {
        Route::Week
    } else if cli.month {
        Route::Month
    } else if cli.query.is_some() {
        Route::Search
    } else {
        match &cli.command {
            Some(Commands::Model { .. }) => Route::Model,
            Some(Commands::Compare { .. }) => Route::Compare,
            Some(Commands::Rankings { .. }) => Route::Rankings,
            Some(Commands::Settings) => Route::Settings,
            Some(Commands::Tree) => Route::Tree,
            None => Route::Pick(cli.inspect || cli.calls),
        }
    }
}

/// The row limit of a session list view.
pub open spec fn limit_of(r: Route) -> u32 {
    if r == Route::Month {
        200
    } else {
        100
    }
}

pub fn list_limit(r: &Route) -> (n: u32)
    ensures
        n == limit_of(*r),
{
    match r {
        Route::Month => 200,
        _ => 100,
    }
}

/// The word the picker prompt uses.
pub fn picker_label(inspect: bool) -> (r: &'static str)
    ensures
        r@ == (if inspect {
            "inspect"@
        } else {
            "continue"@
        }),
{
    if inspect {
        "inspect"
    } else {
        "continue"
    }
}

/// Whether the model data is fetched again: when forced, never fetched, or
/// last fetched on another day.
pub fn needs_refresh(force: bool, last_fetched: Option<&str>, today: &str) -> (r: bool)
    ensures
        r == (force || match last_fetched {
            None => true,
            Some(d) => d@ != today@,
        }),
{
    if force {
        return true;
    }
    match last_fetched {
        None => true,
        Some(d) => !str_eq(d, today),
    }
}

/// The program a session is resumed with: the first of `pi.cmd`, `pi.exe`,
/// `pi.bat` and `pi` found on the path, else `pi`.
pub open spec fn launcher_text(found: Seq<bool>) -> Seq<char> {
    if found.len() > 0 && found[0] {
        "pi.cmd"@
    } else if found.len() > 1 && found[1] {
        "pi.exe"@
    } else if found.len() > 2 && found[2] {
        "pi.bat"@
    } else {
        "pi"@
    }
}

pub fn launcher(found: &Vec<bool>) -> (r: &'static str)
    ensures
        r@ == launcher_text(found@),
{
    if found.len() > 0 && found[0] {
        "pi.cmd"
    } else if found.len() > 1 && found[1] {
        "pi.exe"
    } else if found.len() > 2 && found[2] {
        "pi.bat"
    } else {
        "pi"
    }
}

/// The names the launcher is looked up by, in order.
pub fn launcher_candidates() -> (r: Vec<&'static str>)
    ensures
        r@.len() == 4,
        r@[0]@ == "pi.cmd"@,
        r@[1]@ == "pi.exe"@,
        r@[2]@ == "pi.bat"@,
        r@[3]@ == "pi"@,
{
    let mut v: Vec<&'static str> = Vec::new();
    v.push("pi.cmd");
    v.push("pi.exe");
    v.push("pi.bat");
    v.push("pi");
    v
}

/// Whether a program can be found. On every platform but Windows the
/// launcher is run by name and the lookup is left to the system, so every
/// name counts as found.
pub fn which_exists(_cmd: &str) -> (r: bool)
    ensures
        r,
{
    true
}

} // verus!
