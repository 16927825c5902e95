//! Run orchestration: from the requested action and the current pod
//! listing to the next step — no match, a single built command, or a
//! candidate menu awaiting disambiguation.  Listing pods, prompting and
//! executing stay outside; this decides.

use crate::command::{command_fragment, command_text, get_kub_command, Command};
use crate::normalize::{filled_with_middle_name, inserted};
use crate::pod::PodInfo;
use crate::resolve::{get_candidate_pod, resolve_post};
use vstd::prelude::*;

verus! {

/// The configuration a run starts from: the requested action and the
/// optional middle-name infix.
pub struct Args {
    pub cmd: Option<Command>,
    pub middle: Option<String>,
}

/// One resolution run over an immutable configuration.
pub struct Manager {
    pub args: Args,
}

/// What one resolution pass decided: a clean no-match, one command to
/// run, or several candidates that need disambiguation.
pub enum Resolution {
    NoMatch,
    Single { command: String },
    Multiple { candidates: Vec<PodInfo> },
}

/// The fragment a run resolves: the typed fragment, with the infix
/// inserted before its trailing digits when an infix is configured.
pub open spec fn fragment_of(args: Args) -> Seq<char> {
    match args.cmd {
        Some(c) => match args.middle {
            Some(m) => inserted(command_fragment(c), m@),
            None => command_fragment(c),
        },
        None => Seq::empty(),
    }
}

/// The step that follows from a candidate set `cands` resolved for
/// `frag`: empty means no match, one candidate means its built command,
/// more mean a menu of exactly those candidates.
pub open spec fn plan_decision(
    cmd: Command,
    frag: Seq<char>,
    pods: Seq<PodInfo>,
    w: int,
    cands: Seq<PodInfo>,
    r: Resolution,
) -> bool {
    &&& resolve_post(frag, pods, w, cands)
    &&& (cands.len() == 0 ==> r is NoMatch)
    &&& (cands.len() == 1 ==> (r matches Resolution::Single { command } && command@
        == command_text(cmd, cands[0].name@)))
    &&& (cands.len() > 1 ==> (r matches Resolution::Multiple { candidates } && candidates@
        == cands))
}

/// The fragment a command carries, as a borrowed value.
fn command_fragment_ref(cmd: &Command) -> (r: &String)
    ensures
        r@ == command_fragment(*cmd),
{
    match cmd {
        Command::DELETE { name } => name,
        Command::DESCRIBE { name } => name,
        Command::IMAGE { name } => name,
        Command::CONTAINER { name } => name,
        Command::LOG { name } => name,
        Command::EXEC { name } => name,
    }
}

impl Manager {
    /// Wraps the configuration of one run.
    pub fn new(args: Args) -> (m: Self)
        ensures
            m.args == args,
    {
        Manager { args }
    }

    /// One resolution pass: normalize the fragment, resolve it against
    /// the listing, and decide the next step.
    pub fn plan(&self, pods: &Vec<PodInfo>, window_size: usize) -> (r: Resolution)
        requires
            self.args.cmd is Some,
        ensures
            self.args.cmd matches Some(c) ==> exists|cands: Seq<PodInfo>|
                #[trigger] plan_decision(
                    c,
                    fragment_of(self.args),
                    pods@,
                    window_size as int,
                    cands,
                    r,
                ),
    {
        let cmd = match &self.args.cmd {
            Some(c) => c,
            None => vstd::pervasive::unreached(),
        };
        let frag_raw = command_fragment_ref(cmd);
        let frag = match &self.args.middle {
            Some(m) => filled_with_middle_name(frag_raw.as_str(), m.as_str()),
            None => frag_raw.clone(),
        };
        let cands = get_candidate_pod(frag.as_str(), pods, window_size);
        let ghost gcands = cands@;
        let r = if cands.len() == 0 {
            Resolution::NoMatch
        } else if cands.len() == 1 {
            Resolution::Single { command: get_kub_command(cmd, cands[0].name.as_str()) }
        } else {
            Resolution::Multiple { candidates: cands }
        };
        proof {
            assert(frag@ == fragment_of(self.args));
            assert(plan_decision(
                *cmd,
                fragment_of(self.args),
                pods@,
                window_size as int,
                gcands,
                r,
            ));
        }
        r
    }
}

} // verus!
