use vstd::prelude::*;
use crate::mode::Mode;

verus! {

/// The command line: the directory to scan, an optional owner and
/// repository that override the git remote, and the subcommand.
pub struct Cli {
    pub directory: String,
    pub owner: Option<String>,
    pub repository: Option<String>,
    pub command: Option<Commands>,
}

/// The subcommands.
pub enum Commands {
    /// List TODO comments.
    List { unreported: bool, reported: bool },
    /// Report TODO comments as issues.
    Report { yes: bool, remote: String, simulate: bool },
    /// Remove TODO comments whose issues are closed.
    Purge { remote: String },
}

/// The remote used when none is named.
pub open spec fn default_remote() -> Seq<char> {
    "origin"@
}

impl Cli {
    /// The git remote named on the command line, or `origin`.
    pub fn remote(&self) -> (r: &str)
        ensures
            self.command matches Some(Commands::Purge { remote }) ==> r@ == remote@,
            self.command matches Some(Commands::Report { remote, .. }) ==> r@ == remote@,
            !(self.command matches Some(Commands::Purge { .. })) && !(self.command matches Some(
                Commands::Report { .. },
            )) ==> r@ == default_remote(),
    {
        match &self.command {
            Some(Commands::Purge { remote }) => remote.as_str(),
            Some(Commands::Report { remote, .. }) => remote.as_str(),
            _ => "origin",
        }
    }

    /// Whether reporting is only simulated.
    pub fn simulate(&self) -> (r: bool)
        ensures
            r == (self.command matches Some(Commands::Report { simulate, .. }) && simulate),
    {
        match &self.command {
            Some(Commands::Report { simulate, .. }) => *simulate,
            _ => false,
        }
    }

    /// The mode: listing or purging when asked for, reporting otherwise.
    pub fn mode(&self) -> (r: Mode)
        ensures
            self.command matches Some(Commands::List { .. }) ==> r == Mode::Listing,
            self.command matches Some(Commands::Purge { .. }) ==> r == Mode::Purging,
            !(self.command matches Some(Commands::List { .. })) && !(self.command matches Some(
                Commands::Purge { .. },
            )) ==> r == Mode::Reporting,
    {
        match &self.command {
            Some(Commands::List { .. }) => Mode::Listing,
            Some(Commands::Purge { .. }) => Mode::Purging,
            _ => Mode::Reporting,
        }
    }
}

} // verus!
