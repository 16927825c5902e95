//! The command builder: a pure mapping from a requested action and a
//! resolved pod name to the literal cluster command string, and the
//! batch form that turns a disambiguation choice into one command per
//! chosen candidate.

use crate::pod::PodInfo;
use crate::select::{choice_spec, parse_selection, Choice, InvalidSelection};
use vstd::prelude::*;

verus! {

/// A requested operation, carrying the pod-name fragment the operator
/// typed.
#[derive(Clone)]
pub enum Command {
    DELETE { name: String },
    DESCRIBE { name: String },
    IMAGE { name: String },
    CONTAINER { name: String },
    LOG { name: String },
    EXEC { name: String },
}

/// The fragment a command carries.
pub open spec fn command_fragment(cmd: Command) -> Seq<char> {
    match cmd {
        Command::DELETE { name } => name@,
        Command::DESCRIBE { name } => name@,
        Command::IMAGE { name } => name@,
        Command::CONTAINER { name } => name@,
        Command::LOG { name } => name@,
        Command::EXEC { name } => name@,
    }
}

/// The fixed invocation every built command starts with.
pub open spec fn kub_ctl() -> Seq<char> {
    "kubectl -s https://127.0.0.1:6443 --certificate-authority=/srv/kubernetes/ca.pem --client-certificate=/srv/kubernetes/admin.pem  --client-key=/srv/kubernetes/admin-key.pem"@
}

/// The literal command string an action on a named pod builds.
pub open spec fn command_text(cmd: Command, pod: Seq<char>) -> Seq<char> {
    match cmd {
        Command::DELETE { .. } => kub_ctl() + " delete po "@ + pod,
        Command::DESCRIBE { .. } => kub_ctl() + " describe po "@ + pod,
        Command::IMAGE { .. } => kub_ctl() + " describe po "@ + pod + " | grep Image"@,
        Command::CONTAINER { .. } => kub_ctl() + " describe po "@ + pod + " | grep container"@,
        Command::LOG { .. } => kub_ctl() + " logs "@ + pod,
        Command::EXEC { .. } => kub_ctl() + " exec -it "@ + pod,
    }
}

/// Builds the command string for one action on one resolved pod name.
/// Building never fails.
pub fn get_kub_command(command: &Command, pod_name: &str) -> (r: String)
    ensures
        r@ == command_text(*command, pod_name@),
{
    let mut r =
        "kubectl -s https://127.0.0.1:6443 --certificate-authority=/srv/kubernetes/ca.pem --client-certificate=/srv/kubernetes/admin.pem  --client-key=/srv/kubernetes/admin-key.pem".to_owned();
    match command {
        Command::DELETE { .. } => {
            r.append(" delete po ");
            r.append(pod_name);
        },
        Command::DESCRIBE { .. } => {
            r.append(" describe po ");
            r.append(pod_name);
        },
        Command::IMAGE { .. } => {
            r.append(" describe po ");
            r.append(pod_name);
            r.append(" | grep Image");
        },
        Command::CONTAINER { .. } => {
            r.append(" describe po ");
            r.append(pod_name);
            r.append(" | grep container");
        },
        Command::LOG { .. } => {
            r.append(" logs ");
            r.append(pod_name);
        },
        Command::EXEC { .. } => {
            r.append(" exec -it ");
            r.append(pod_name);
        },
    }
    r
}

/// How many of `n` candidates the menu displays for window `w`: the
/// window, hard-capped at 25, and never more than there are candidates.
pub open spec fn shown_count(w: int, n: int) -> int {
    crate::resolve::window_cap(w, n)
}

/// What a disambiguation input over the displayed candidates produces:
/// nothing for invalid input; otherwise one command per chosen pod, in
/// label order for `z`, or the single labelled candidate's command.
pub open spec fn selection_outcome(
    cmd: Command,
    cands: Seq<PodInfo>,
    w: int,
    line: Seq<char>,
) -> Option<Seq<Seq<char>>> {
    let shown = shown_count(w, cands.len() as int);
    match choice_spec(line, shown) {
        None => None,
        Some(Choice::All) => Some(
            Seq::new(shown as nat, |t: int| command_text(cmd, cands[t].name@)),
        ),
        Some(Choice::At(i)) => Some(seq![command_text(cmd, cands[i as int].name@)]),
    }
}

/// Resolves the operator's disambiguation input into the commands to
/// run: `z` yields one command per displayed candidate in label order,
/// a valid label yields that candidate's command alone, and anything
/// else is an invalid selection.
pub fn select_commands(
    command: &Command,
    candidate_pods: &Vec<PodInfo>,
    window_size: usize,
    input_line: &str,
) -> (r: Result<Vec<String>, InvalidSelection>)
    ensures
        r is Ok <==> selection_outcome(*command, candidate_pods@, window_size as int, input_line@)
            is Some,
        r matches Ok(v) ==> Some(v@.map_values(|s: String| s@)) == selection_outcome(
            *command,
            candidate_pods@,
            window_size as int,
            input_line@,
        ),
{
    let mut shown = window_size;
    if shown > 25 {
        shown = 25;
    }
    if shown > candidate_pods.len() {
        shown = candidate_pods.len();
    }
    match parse_selection(input_line, shown) {
        Err(_) => Err(InvalidSelection),
        Ok(Choice::All) => {
            let mut cmds: Vec<String> = Vec::new();
            let mut t: usize = 0;
            while t < shown
                invariant
                    t <= shown,
                    shown <= candidate_pods@.len(),
                    cmds@.len() == t,
                    forall|k: int|
                        0 <= k < t ==> cmds@[k]@ == command_text(
                            *command,
                            candidate_pods@[k].name@,
                        ),
                decreases shown - t,
            {
                let c = get_kub_command(command, candidate_pods[t].name.as_str());
                cmds.push(c);
                t = t + 1;
            }
            proof {
                assert(cmds@.map_values(|s: String| s@) =~= Seq::new(
                    shown as nat,
                    |k: int| command_text(*command, candidate_pods@[k].name@),
                ));
            }
            Ok(cmds)
        },
        Ok(Choice::At(i)) => {
            let mut cmds: Vec<String> = Vec::new();
            let c = get_kub_command(command, candidate_pods[i].name.as_str());
            cmds.push(c);
            proof {
                assert(cmds@.map_values(|s: String| s@) =~= seq![
                    command_text(*command, candidate_pods@[i as int].name@),
                ]);
            }
            Ok(cmds)
        },
    }
}

} // verus!
