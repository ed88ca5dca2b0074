//! Building the external compose invocation for one service, and the
//! argument suffix of each menu action.

use vstd::prelude::*;
use vstd::string::StringExecFns;

use crate::service::{Service, ServiceModel};
use crate::strutil::views_of;

verus! {

/// The two supported shapes of the external command. The shape is chosen
/// once from configuration before any dispatch; there is no runtime
/// fallback from one to the other.
#[derive(Clone, Copy, Debug, PartialEq, Eq)]
pub enum ComposeMode {
    /// The legacy single binary.
    Legacy,
    /// The compose subcommand of the modern binary.
    Modern,
}

impl ComposeMode {
    /// The mode the configuration flag selects.
    pub fn from_flag(legacy: bool) -> (r: ComposeMode)
        ensures
            r == (if legacy {
                ComposeMode::Legacy
            } else {
                ComposeMode::Modern
            }),
    {
        if legacy {
            ComposeMode::Legacy
        } else {
            ComposeMode::Modern
        }
    }
}

/// The program run in each mode.
pub open spec fn program_of(mode: ComposeMode) -> Seq<char> {
    match mode {
        ComposeMode::Legacy => "docker-compose"@,
        ComposeMode::Modern => "docker"@,
    }
}

/// The arguments that precede everything else: the subcommand word, in
/// modern mode.
pub open spec fn mode_prefix(mode: ComposeMode) -> Seq<Seq<char>> {
    match mode {
        ComposeMode::Legacy => Seq::empty(),
        ComposeMode::Modern => seq!["compose"@],
    }
}

/// One explicit-file flag per descriptor file, in order; none for an empty
/// list.
pub open spec fn file_args(files: Seq<Seq<char>>) -> Seq<Seq<char>>
    decreases files.len(),
{
    if files.len() == 0 {
        Seq::empty()
    } else {
        file_args(files.drop_last()) + seq!["-f"@, files.last()]
    }
}

/// The fixed argument list targeting one service.
pub open spec fn base_args(m: ServiceModel, mode: ComposeMode) -> Seq<Seq<char>> {
    mode_prefix(mode) + file_args(m.compose_files)
}

/// A composed invocation: the program, its fixed arguments, and the
/// directory to run it from.
pub struct ComposeInvocation {
    pub program: String,
    pub args: Vec<String>,
    pub dir: String,
}

/// Builds the invocation of the external tool for one service.
pub fn build_compose_cmd(service: &Service, mode: ComposeMode) -> (r: ComposeInvocation)
    ensures
        r.program@ == program_of(mode),
        views_of(r.args@) == base_args(service@, mode),
        r.dir@ == service@.path,
{
    let mut args: Vec<String> = Vec::new();
    let program: String = match mode {
        ComposeMode::Legacy => String::from_str("docker-compose"),
        ComposeMode::Modern => {
            args.push(String::from_str("compose"));
            String::from_str("docker")
        },
    };
    proof {
        assert(views_of(args@) =~= mode_prefix(mode));
    }
    let ghost fvs = views_of(service.compose_files@);
    let mut i: usize = 0;
    while i < service.compose_files.len()
        invariant
            i <= fvs.len(),
            fvs == views_of(service.compose_files@),
            service.compose_files@.len() == fvs.len(),
            views_of(args@) == mode_prefix(mode) + file_args(fvs.take(i as int)),
        decreases fvs.len() - i,
    {
        let ghost pre = args@;
        args.push(String::from_str("-f"));
        args.push(service.compose_files[i].clone());
        proof {
            assert(views_of(args@) =~= views_of(pre) + seq!["-f"@, fvs[i as int]]);
            assert(fvs.take(i + 1 as int).drop_last() =~= fvs.take(i as int));
            assert(fvs.take(i + 1 as int).last() == fvs[i as int]);
            assert(views_of(args@) =~= mode_prefix(mode) + file_args(fvs.take(i + 1 as int)));
        }
        i += 1;
    }
    proof {
        assert(fvs.take(fvs.len() as int) =~= fvs);
    }
    ComposeInvocation { program, args, dir: service.path.clone() }
}

/// The actions the main menu can choose.
#[derive(Clone, Copy, Debug, PartialEq, Eq)]
pub enum Action {
    Start,
    Stop,
    Restart,
    Status,
    Logs,
    Cleanup,
    Settings,
}

/// The argument suffix appended for each dispatched action. `Settings` is
/// handled entirely in the interface and runs no external command; `Logs`
/// streams through the live relay.
pub open spec fn action_args_spec(a: Action) -> Seq<Seq<char>> {
    match a {
        Action::Start => seq!["up"@, "-d"@],
        Action::Stop => seq!["down"@],
        Action::Restart => seq!["restart"@],
        Action::Status => seq!["ps"@, "-q"@],
        Action::Logs => seq!["logs"@, "-f"@],
        Action::Cleanup => seq!["down"@, "-v"@],
        Action::Settings => Seq::empty(),
    }
}

pub fn action_args(a: Action) -> (r: Vec<String>)
    ensures
        views_of(r@) == action_args_spec(a),
{
    let mut r: Vec<String> = Vec::new();
    match a {
        Action::Start => {
            r.push(String::from_str("up"));
            r.push(String::from_str("-d"));
        },
        Action::Stop => {
            r.push(String::from_str("down"));
        },
        Action::Restart => {
            r.push(String::from_str("restart"));
        },
        Action::Status => {
            r.push(String::from_str("ps"));
            r.push(String::from_str("-q"));
        },
        Action::Logs => {
            r.push(String::from_str("logs"));
            r.push(String::from_str("-f"));
        },
        Action::Cleanup => {
            r.push(String::from_str("down"));
            r.push(String::from_str("-v"));
        },
        Action::Settings => {},
    }
    proof {
        assert(views_of(r@) =~= action_args_spec(a));
    }
    r
}

/// The menu action behind each key of the main menu; `None` for the exit
/// key and anything unassigned.
pub open spec fn action_for_key(c: char) -> Option<Action> {
    if c == 's' {
        Option::Some(Action::Start)
    } else if c == 'p' {
        Option::Some(Action::Stop)
    } else if c == 'r' {
        Option::Some(Action::Restart)
    } else if c == 't' {
        Option::Some(Action::Status)
    } else if c == 'l' {
        Option::Some(Action::Logs)
    } else if c == 'c' {
        Option::Some(Action::Cleanup)
    } else if c == 'g' {
        Option::Some(Action::Settings)
    } else {
        Option::None
    }
}

pub fn action_of_key(c: char) -> (r: Option<Action>)
    ensures
        r == action_for_key(c),
{
    if c == 's' {
        Option::Some(Action::Start)
    } else if c == 'p' {
        Option::Some(Action::Stop)
    } else if c == 'r' {
        Option::Some(Action::Restart)
    } else if c == 't' {
        Option::Some(Action::Status)
    } else if c == 'l' {
        Option::Some(Action::Logs)
    } else if c == 'c' {
        Option::Some(Action::Cleanup)
    } else if c == 'g' {
        Option::Some(Action::Settings)
    } else {
        Option::None
    }
}

} // verus!
