//! The command line's already-parsed shape. Parsing the real command line
//! happens at the boundary; the library only consumes these values.

use vstd::prelude::*;
use vstd::string::*;

verus! {

/// The global flags and the chosen subcommand.
#[derive(Debug)]
pub struct Args {
    pub config: String,
    pub no_banner: bool,
    pub dry_run: bool,
    pub verbose: bool,
    pub eval_mode: bool,
    pub sort: bool,
    pub preview: Option<String>,
    pub preview_no_session: Option<String>,
    pub command: Option<Command>,
}

/// The subcommands: list and pick a session, switch to one by name, show
/// the configuration, or kill a session.
#[derive(Debug, Clone, PartialEq)]
pub enum Command {
    List { grouped: bool },
    Switch { grouped: bool, name: String },
    Config { example: bool },
    Kill { current: bool, name: Option<String> },
}

impl Default for Args {
    /// No flags set, no subcommand, no configuration path.
    fn default() -> (r: Args)
        ensures
            r.config@ == Seq::<char>::empty(),
            r.no_banner == false,
            r.dry_run == false,
            r.verbose == false,
            r.eval_mode == false,
            r.sort == false,
            r.preview is None,
            r.preview_no_session is None,
            r.command is None,
    {
        Args {
            config: String::new(),
            no_banner: false,
            dry_run: false,
            verbose: false,
            eval_mode: false,
            sort: false,
            preview: None,
            preview_no_session: None,
            command: None,
        }
    }
}

} // verus!
