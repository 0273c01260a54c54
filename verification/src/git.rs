//! The git procedures of the store, as steps: each call says which git
//! command to run next, or how the procedure ends, given the reply to the
//! previous command.
use vstd::prelude::*;
use crate::text::{concat, join, join_strs, push_str, seq_view_of, trim, trim_str};

verus! {

/// What to do next.
pub enum GitStep {
    /// Run `git` with these arguments in the store, and come back with
    /// its reply: its standard output, or the error.
    Run(Vec<String>),
    /// The procedure is over, with this outcome.
    Finish(Result<(), String>),
}

/// A step's arguments or outcome, as plain values.
pub open spec fn step_view(s: GitStep) -> Result<Seq<Seq<char>>, Result<(), Seq<char>>> {
    match s {
        GitStep::Run(args) => Ok(seq_view_of(args@)),
        GitStep::Finish(Ok(())) => Err(Ok(())),
        GitStep::Finish(Err(e)) => Err(Err(e@)),
    }
}

fn args1(a: &str) -> (r: Vec<String>)
    ensures
        seq_view_of(r@) == seq![a@],
{
    let mut v: Vec<String> = Vec::new();
    v.push(a.to_owned());
    assert(seq_view_of(v@) =~= seq![a@]);
    v
}

fn args2(a: &str, b: &str) -> (r: Vec<String>)
    ensures
        seq_view_of(r@) == seq![a@, b@],
{
    let mut v: Vec<String> = Vec::new();
    v.push(a.to_owned());
    v.push(b.to_owned());
    assert(seq_view_of(v@) =~= seq![a@, b@]);
    v
}

fn args3(a: &str, b: &str, c: &str) -> (r: Vec<String>)
    ensures
        seq_view_of(r@) == seq![a@, b@, c@],
{
    let mut v: Vec<String> = Vec::new();
    v.push(a.to_owned());
    v.push(b.to_owned());
    v.push(c.to_owned());
    assert(seq_view_of(v@) =~= seq![a@, b@, c@]);
    v
}

fn args4(a: &str, b: &str, c: &str, d: &str) -> (r: Vec<String>)
    ensures
        seq_view_of(r@) == seq![a@, b@, c@, d@],
{
    let mut v: Vec<String> = Vec::new();
    v.push(a.to_owned());
    v.push(b.to_owned());
    v.push(c.to_owned());
    v.push(d.to_owned());
    assert(seq_view_of(v@) =~= seq![a@, b@, c@, d@]);
    v
}

/// Where `init` stands.
pub enum InitPhase {
    Start,
    Initialized,
}

/// `git init` in the store.
pub fn init(phase: InitPhase, reply: Option<Result<String, String>>) -> (r: (InitPhase, GitStep))
    ensures
        match phase {
            InitPhase::Start => r.0 is Initialized && step_view(r.1) == Ok::<Seq<Seq<char>>, Result<(), Seq<char>>>(seq!["init"@]),
            InitPhase::Initialized => match reply {
                Some(Err(e)) => step_view(r.1) == Err::<Seq<Seq<char>>, Result<(), Seq<char>>>(Err(e@)),
                _ => step_view(r.1) == Err::<Seq<Seq<char>>, Result<(), Seq<char>>>(Ok(())),
            },
        },
{
    match phase {
        InitPhase::Start => (InitPhase::Initialized, GitStep::Run(args1("init"))),
        InitPhase::Initialized => match reply {
            Some(Err(e)) => (InitPhase::Initialized, GitStep::Finish(Err(e))),
            _ => (InitPhase::Initialized, GitStep::Finish(Ok(()))),
        },
    }
}

/// Where `add_and_commit` stands.
pub enum CommitPhase {
    Start,
    Added,
    Checked,
    Committed,
}

/// Stages every change, and commits with `message` when `git status
/// --porcelain` reports anything; the first failing command ends it with
/// its error.
pub fn add_and_commit(message: &str, phase: CommitPhase, reply: Option<Result<String, String>>) -> (r: (CommitPhase, GitStep))
    ensures
        match phase {
            CommitPhase::Start => r.0 is Added && step_view(r.1) == Ok::<Seq<Seq<char>>, Result<(), Seq<char>>>(seq!["add"@, "-A"@]),
            _ => match reply {
                Some(Err(e)) => step_view(r.1) == Err::<Seq<Seq<char>>, Result<(), Seq<char>>>(Err(e@)),
                Some(Ok(out)) => match phase {
                    CommitPhase::Added => r.0 is Checked && step_view(r.1) == Ok::<Seq<Seq<char>>, Result<(), Seq<char>>>(
                        seq!["status"@, "--porcelain"@],
                    ),
                    CommitPhase::Checked => if trim(out@).len() == 0 {
                        step_view(r.1) == Err::<Seq<Seq<char>>, Result<(), Seq<char>>>(Ok(()))
                    } else {
                        r.0 is Committed && step_view(r.1) == Ok::<Seq<Seq<char>>, Result<(), Seq<char>>>(
                            seq!["commit"@, "-m"@, message@],
                        )
                    },
                    _ => step_view(r.1) == Err::<Seq<Seq<char>>, Result<(), Seq<char>>>(Ok(())),
                },
                None => step_view(r.1) == Err::<Seq<Seq<char>>, Result<(), Seq<char>>>(Ok(())),
            },
        },
{
    match phase {
        CommitPhase::Start => (CommitPhase::Added, GitStep::Run(args2("add", "-A"))),
        _ => match reply {
            Some(Err(e)) => (CommitPhase::Committed, GitStep::Finish(Err(e))),
            Some(Ok(out)) => match phase {
                CommitPhase::Added => (CommitPhase::Checked, GitStep::Run(args2("status", "--porcelain"))),
                CommitPhase::Checked => {
                    let t = trim_str(out.as_str());
                    if t.as_str().is_empty() {
                        (CommitPhase::Committed, GitStep::Finish(Ok(())))
                    } else {
                        (CommitPhase::Committed, GitStep::Run(args3("commit", "-m", message)))
                    }
                },
                _ => (CommitPhase::Committed, GitStep::Finish(Ok(()))),
            },
            None => (CommitPhase::Committed, GitStep::Finish(Ok(()))),
        },
    }
}

/// Where `set_remote` stands.
pub enum RemotePhase {
    Start,
    Adding,
    SettingUrl,
}

/// Makes `url` the `origin` remote: added, or, if that fails, its URL set;
/// only a failure of the second command is an error.
pub fn set_remote(url: &str, phase: RemotePhase, reply: Option<Result<String, String>>) -> (r: (RemotePhase, GitStep))
    ensures
        match phase {
            RemotePhase::Start => r.0 is Adding && step_view(r.1) == Ok::<Seq<Seq<char>>, Result<(), Seq<char>>>(
                seq!["remote"@, "add"@, "origin"@, url@],
            ),
            RemotePhase::Adding => match reply {
                Some(Err(_)) => r.0 is SettingUrl && step_view(r.1) == Ok::<Seq<Seq<char>>, Result<(), Seq<char>>>(
                    seq!["remote"@, "set-url"@, "origin"@, url@],
                ),
                _ => step_view(r.1) == Err::<Seq<Seq<char>>, Result<(), Seq<char>>>(Ok(())),
            },
            RemotePhase::SettingUrl => match reply {
                Some(Err(e)) => step_view(r.1) == Err::<Seq<Seq<char>>, Result<(), Seq<char>>>(Err(e@)),
                _ => step_view(r.1) == Err::<Seq<Seq<char>>, Result<(), Seq<char>>>(Ok(())),
            },
        },
{
    match phase {
        RemotePhase::Start => (RemotePhase::Adding, GitStep::Run(args4("remote", "add", "origin", url))),
        RemotePhase::Adding => match reply {
            Some(Err(_)) => (RemotePhase::SettingUrl, GitStep::Run(args4("remote", "set-url", "origin", url))),
            _ => (RemotePhase::SettingUrl, GitStep::Finish(Ok(()))),
        },
        RemotePhase::SettingUrl => match reply {
            Some(Err(e)) => (RemotePhase::SettingUrl, GitStep::Finish(Err(e))),
            _ => (RemotePhase::SettingUrl, GitStep::Finish(Ok(()))),
        },
    }
}

/// The outcome of a git command that ran: its output when it succeeded,
/// else `git <args>: <stderr>`.
pub fn run_git_outcome(args: &Vec<String>, success: bool, stdout: String, stderr: &str) -> (r: Result<String, String>)
    ensures
        success ==> r == Ok::<String, String>(stdout),
        !success ==> (r matches Err(e) && e@ == "git "@ + join(seq_view_of(args@), " "@) + ": "@ + stderr@),
{
    if success {
        Ok(stdout)
    } else {
        let joined = join_strs(args, " ");
        let mut msg = concat("git ", joined.as_str());
        push_str(&mut msg, ": ");
        push_str(&mut msg, stderr);
        Err(msg)
    }
}

/// The outcome of `git <args>` run in the foreground.
pub fn passthrough(args: &Vec<String>, success: bool) -> (r: Result<(), String>)
    ensures
        success ==> r is Ok,
        !success ==> (r matches Err(e) && e@ == "git "@ + join(seq_view_of(args@), " "@) + " failed"@),
{
    if success {
        Ok(())
    } else {
        let joined = join_strs(args, " ");
        let mut msg = concat("git ", joined.as_str());
        push_str(&mut msg, " failed");
        Err(msg)
    }
}

} // verus!
