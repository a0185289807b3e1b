//! Command-line argument types and session detection.
//!
//! The command-line parser itself lives with the program; these are the
//! plain values it produces.

use vstd::prelude::*;
use crate::text::str_eq;

verus! {

/// Output format for search results.
#[derive(Copy, Clone, PartialEq, Eq, Debug, Default)]
pub enum OutputMode {
    /// Show only values (runtime, default, override)
    Minimal,
    /// Show summary with related resources
    #[default]
    Summary,
    /// Show all details including usage lines
    Full,
}

/// Display server session type.
#[derive(Copy, Clone, PartialEq, Eq, PartialOrd, Ord, Debug, Structural)]
pub enum Session {
    Wayland,
    X11,
}

/// Search filter type for narrowing results.
#[derive(Copy, Clone, PartialEq, Eq, PartialOrd, Ord, Debug, Structural)]
pub enum FilterType {
    Binding,
    Keyword,
    Resource,
}

/// Arguments for the search operation.
#[derive(Debug)]
pub struct SearchArgs {
    pub filter: FilterType,
    pub pattern: String,
}

impl SearchArgs {
    /// Creates new search arguments with the given pattern and filter.
    pub fn new(pattern: &str, filter: FilterType) -> (r: Self)
        ensures
            r.filter == filter,
            r.pattern@ == pattern@,
    {
        SearchArgs { filter, pattern: pattern.to_owned() }
    }

    /// Returns the filter type for this search.
    pub fn filter(&self) -> (r: FilterType)
        ensures
            r == self.filter,
    {
        self.filter
    }

    /// Returns the search pattern.
    pub fn pattern(&self) -> (r: &str)
        ensures
            r@ == self.pattern@,
    {
        self.pattern.as_str()
    }
}

/// Arguments for the eject operation.
#[derive(Debug)]
pub struct EjectArgs {
    pub filter: FilterType,
    pub output: Option<String>,
    pub pattern: String,
}

impl EjectArgs {
    /// Returns the filter type for this eject operation.
    pub fn filter(&self) -> (r: FilterType)
        ensures
            r == self.filter,
    {
        self.filter
    }

    /// Returns the output file path, if specified.
    pub fn output(&self) -> (r: Option<&String>)
        ensures
            match r {
                Some(o) => self.output == Some(*o),
                None => self.output.is_none(),
            },
    {
        match &self.output {
            Some(o) => Some(o),
            None => None,
        }
    }

    /// Returns the pattern to match.
    pub fn pattern(&self) -> (r: &str)
        ensures
            r@ == self.pattern@,
    {
        self.pattern.as_str()
    }
}

/// Arguments for the reconcile operation.
#[derive(Debug)]
pub struct ReconcileArgs {}

/// Arguments for the set-resource operation.
#[derive(Debug)]
pub struct SetResourceArgs {
    pub resource: String,
    pub value: String,
}

impl SetResourceArgs {
    /// Returns the resource name to set.
    pub fn resource(&self) -> (r: &str)
        ensures
            r@ == self.resource@,
    {
        self.resource.as_str()
    }

    /// Returns the value to assign.
    pub fn value(&self) -> (r: &str)
        ensures
            r@ == self.value@,
    {
        self.value.as_str()
    }
}

/// Available operations.
#[derive(Debug)]
pub enum OperationType {
    /// Get the details for a resource, keybinding, package or config file
    Search(SearchArgs),
    /// Create a copy of a config partial and disable its system instance
    Eject(EjectArgs),
    /// Help the user diff and reconcile upstream configs with their local versions
    Reconcile { name: String },
    /// Set the value of a resource in the user's Xresources file
    SetResource(SetResourceArgs),
}

/// Command-line arguments.
#[derive(Debug)]
pub struct CLIArguments {
    pub session: Option<Session>,
    pub minimal: bool,
    pub summary: bool,
    pub full: bool,
    pub sub_command: OperationType,
}

/// The output mode that the three mode flags select: `minimal` wins over
/// `full`, and with neither the mode is `Summary`.
pub open spec fn mode_of_flags(minimal: bool, full: bool) -> OutputMode {
    if minimal {
        OutputMode::Minimal
    } else if full {
        OutputMode::Full
    } else {
        OutputMode::Summary
    }
}

impl CLIArguments {
    /// Returns the explicitly specified session, if any.
    pub fn session(&self) -> (r: Option<Session>)
        ensures
            r == self.session,
    {
        self.session
    }

    /// Returns the operation to perform.
    pub fn sub_command(&self) -> (r: &OperationType)
        ensures
            *r == self.sub_command,
    {
        &self.sub_command
    }

    /// Returns the output mode for search results.
    pub fn output_mode(&self) -> (r: OutputMode)
        ensures
            r == mode_of_flags(self.minimal, self.full),
    {
        if self.minimal {
            OutputMode::Minimal
        } else if self.full {
            OutputMode::Full
        } else {
            OutputMode::Summary
        }
    }
}

/// The session that one environment variable names: `XDG_SESSION_TYPE`
/// set to exactly `wayland` or `x11`.
pub open spec fn session_of_var(name: Seq<char>, value: Seq<char>) -> Option<Session> {
    if name == "XDG_SESSION_TYPE"@ {
        if value == "wayland"@ {
            Some(Session::Wayland)
        } else if value == "x11"@ {
            Some(Session::X11)
        } else {
            None
        }
    } else {
        None
    }
}

/// The session named by the first variable that names one.
pub open spec fn session_of_vars(vars: Seq<(Seq<char>, Seq<char>)>) -> Option<Session>
    decreases vars.len(),
{
    if vars.len() == 0 {
        None
    } else {
        match session_of_var(vars[0].0, vars[0].1) {
            Some(s) => Some(s),
            None => session_of_vars(vars.drop_first()),
        }
    }
}

/// Detects the session type from the environment variables `vars`
/// (name, value), in the order the environment lists them.
///
/// Returns `Some(Session)` if `XDG_SESSION_TYPE` is set to exactly
/// `"wayland"` or `"x11"`, and `None` otherwise.
pub fn get_session_type(vars: &Vec<(String, String)>) -> (r: Option<Session>)
    ensures
        r == session_of_vars(crate::string_map::pair_views(vars@)),
{
    let ghost all = crate::string_map::pair_views(vars@);
    let mut i: usize = 0;
    assert(all.skip(0) =~= all);
    while i < vars.len()
        invariant
            0 <= i <= vars@.len(),
            all == crate::string_map::pair_views(vars@),
            session_of_vars(all) == session_of_vars(all.skip(i as int)),
        decreases vars@.len() - i,
    {
        let ghost rest = all.skip(i as int);
        let name = vars[i].0.as_str();
        let value = vars[i].1.as_str();
        assert(rest[0] == (name@, value@));
        if str_eq(name, "XDG_SESSION_TYPE") {
            if str_eq(value, "wayland") {
                return Some(Session::Wayland);
            }
            if str_eq(value, "x11") {
                return Some(Session::X11);
            }
        }
        assert(rest.drop_first() =~= all.skip(i + 1));
        i = i + 1;
    }
    None
}

} // verus!
