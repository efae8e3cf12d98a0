use vstd::prelude::*;
use crate::cli::{Cli, Commands};
use crate::mode::Mode;
use crate::text::lossy_text;
use crate::util::{owner_repo, parse_owner_repo};

verus! {

/// Why a run cannot be configured.
#[derive(Copy, Clone, Debug, PartialEq, Eq, Structural)]
pub enum ConfigError {
    /// The API token is needed and was not given.
    MissingToken,
    /// No owner and repository were named, and none could be read from the
    /// git remote.
    NoOwnerRepo,
}

/// What a run needs to know: the project, the token (absent when listing),
/// the mode and whether reporting is simulated.
pub struct Settings {
    pub owner: String,
    pub repo: String,
    pub token: Option<String>,
    pub mode: Mode,
    pub simulate: bool,
}

/// The mode that a subcommand asks for.
pub open spec fn mode_of(c: Option<Commands>) -> Mode {
    match c {
        Some(Commands::List { .. }) => Mode::Listing,
        Some(Commands::Purge { .. }) => Mode::Purging,
        _ => Mode::Reporting,
    }
}

/// The owner and repository that the settings take: those of the command
/// line when both are given, else those that the remote URL names.
pub open spec fn project_of(cli: Cli, remote_url: Option<String>) -> Option<(Seq<char>, Seq<char>)> {
    if cli.owner is Some && cli.repository is Some {
        Some((cli.owner->Some_0@, cli.repository->Some_0@))
    } else {
        match remote_url {
            Some(u) => match owner_repo(vstd::utf8::encode_utf8(u@)) {
                Some((o, p)) => Some((lossy_text(o), lossy_text(p))),
                None => None,
            },
            None => None,
        }
    }
}

/// Settles the configuration from the command line, the token from the
/// environment, and the URL of the git remote: the token is required except
/// when listing; owner and repository come from the command line when both
/// are given, else from the remote URL.
pub fn settle(cli: &Cli, token: Option<String>, remote_url: Option<String>) -> (r: Result<
    Settings,
    ConfigError,
>)
    ensures
        mode_of(cli.command) != Mode::Listing && token is None ==> r == Err::<Settings, ConfigError>(
            ConfigError::MissingToken,
        ),
        !(mode_of(cli.command) != Mode::Listing && token is None) && project_of(*cli, remote_url)
            is None ==> r == Err::<Settings, ConfigError>(ConfigError::NoOwnerRepo),
        !(mode_of(cli.command) != Mode::Listing && token is None) ==> (project_of(*cli, remote_url)
            matches Some((o, p)) ==> (r matches Ok(s) && s.owner@ == o && s.repo@ == p && s.mode
            == mode_of(cli.command) && s.simulate == (cli.command matches Some(
            Commands::Report { simulate, .. },
        ) && simulate) && (if s.mode == Mode::Listing {
            s.token is None
        } else {
            s.token == token
        }))),
{
    let mode = cli.mode();
    let token = if mode == Mode::Listing {
        None
    } else {
        match token {
            None => {
                return Err(ConfigError::MissingToken);
            },
            Some(t) => Some(t),
        }
    };
    let (owner, repo) = match (&cli.owner, &cli.repository) {
        (Some(o), Some(p)) => (o.clone(), p.clone()),
        _ => match remote_url {
            None => {
                return Err(ConfigError::NoOwnerRepo);
            },
            Some(u) => match parse_owner_repo(u.as_str()) {
                None => {
                    return Err(ConfigError::NoOwnerRepo);
                },
                Some(x) => x,
            },
        },
    };
    Ok(Settings { owner, repo, token, mode, simulate: cli.simulate() })
}

} // verus!
