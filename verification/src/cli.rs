use vstd::prelude::*;

use crate::config::Config;
use runner::Runner;

pub mod runner;

verus! {

/// The parsed command line: the chosen subcommand, and the configuration
/// file the user pointed at, if any.
#[derive(Debug)]
pub struct Cli {
    pub command: Commands,
    pub config: Option<String>,
}

/// The subcommands the tool offers.
#[derive(Debug)]
pub enum Commands {
    /// Materialize a template under `path`, in a fresh root folder named
    /// `name`, or after the template when no name was given.
    Build { path: String, template: Option<String>, name: Option<String> },
    /// Name every template the registry holds.
    List,
    /// Show the structure of one template.
    Info { template: String },
}

/// A runner over the given command line and an already-loaded registry.
pub fn get_runner<'a>(cli: &'a Cli, config: Config) -> (r: Runner<'a>)
    ensures
        r.config == config,
        *r.command == cli.command,
{
    Runner::new(cli, config)
}

} // verus!
