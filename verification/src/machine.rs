//! Where an agent's commands and file operations happen. A sandbox isolates them; a direct
//! machine runs them here as this user, in a working directory. Tools see no difference.

pub use crate::sandbox::{ExitStatus, OpenMode, Output, SandboxSpec};

use crate::sandbox;
use crate::sandbox::variable;
use vstd::prelude::*;

verus! {

/// The machine an agent runs on, persisted with the agent.
#[derive(Clone, Debug, PartialEq)]
pub enum MachineSpec {
    Sandbox(SandboxSpec),
    Direct(DirectSpec),
}

#[derive(Clone, Debug, PartialEq, Eq)]
pub struct DirectSpec {
    pub cwd: String,
    /// The complete environment for commands, or `None` to inherit the harness's.
    pub env: Option<Vec<(String, String)>>,
}

/// What `~` means on a direct machine: the home in its own environment, else the harness's
/// home, else the root.
pub open spec fn home_of(spec: DirectSpec, inherited: Option<Seq<char>>) -> Seq<char> {
    let own = match spec.env {
        Some(env) => sandbox::value_of(sandbox::pairs(env@), "HOME"@, 0),
        None => None,
    };
    match own {
        Some(home) => home,
        None => match inherited {
            Some(home) => home,
            None => "/"@,
        },
    }
}

/// A home that the machine's own environment gives counts first, then the harness's own.
pub proof fn law_home_is_the_nearest_one(
    spec: DirectSpec,
    inherited: Option<Seq<char>>,
    home: Seq<char>,
    i: int,
)
    ensures
        spec.env is Some && 0 <= i < spec.env->0@.len() && spec.env->0@[i].0@ == "HOME"@
            && spec.env->0@[i].1@ == home && (forall|k: int| #![trigger spec.env->0@[k]]
            0 <= k < i ==> spec.env->0@[k].0@ != "HOME"@) ==> home_of(spec, inherited) == home,
        spec.env is None && inherited is Some ==> home_of(spec, inherited) == inherited->0,
        spec.env is None && inherited is None ==> home_of(spec, inherited) == "/"@,
{
    match spec.env {
        Some(env) => {
            let all = sandbox::pairs(env@);
            if 0 <= i < env@.len() && env@[i].0@ == "HOME"@ && env@[i].1@ == home && (forall|k: int|
                #![trigger env@[k]]
                0 <= k < i ==> env@[k].0@ != "HOME"@) {
                let before = all.take(i);
                assert forall|k: int| #![trigger before[k]] 0 <= k < before.len() implies before[k].0
                    != "HOME"@ by {
                    assert(before[k].0 == env@[k].0@);
                }
                sandbox::law_the_first_variable_counts(before, "HOME"@, home, all.skip(i + 1));
                assert(before + seq![("HOME"@, home)] + all.skip(i + 1) =~= all);
            }
        },
        None => {},
    }
}

/// Runs commands on this machine as this user.
#[derive(Clone, Debug)]
pub struct Direct {
    pub spec: DirectSpec,
    pub home: String,
}

impl Direct {
    /// `inherited` is the home in the harness's environment.
    pub fn new(spec: DirectSpec, inherited: Option<String>) -> (direct: Self)
        ensures
            direct.spec == spec,
            direct.home@ == home_of(
                spec,
                match inherited {
                    Some(home) => Some(home@),
                    None => None,
                },
            ),
    {
        let own = match &spec.env {
            Some(env) => match variable(env, "HOME") {
                Some(home) => Some(home.to_owned()),
                None => None,
            },
            None => None,
        };
        let home = match own {
            Some(home) => home,
            None => match inherited {
                Some(home) => home,
                None => "/".to_owned(),
            },
        };
        Direct { spec, home }
    }

    /// Working directory for commands and relative paths.
    pub fn cwd(&self) -> (cwd: &str)
        ensures
            cwd@ == self.spec.cwd@,
    {
        self.spec.cwd.as_str()
    }

    /// What `~` means.
    pub fn home(&self) -> (home: &str)
        ensures
            home@ == self.home@,
    {
        self.home.as_str()
    }
}

/// Whether a command can be started: it names a program, and its directory is one.
pub fn check_start(argv: &Vec<String>, cwd: &str, is_dir: bool) -> (result: Result<(), String>)
    ensures
        if argv@.len() == 0 {
            result matches Err(error) && error@ == "empty command"@
        } else if !is_dir {
            result matches Err(error) && error@ == "Working directory does not exist: "@ + cwd@
        } else {
            result is Ok
        },
{
    if argv.len() == 0 {
        return Err("empty command".to_owned());
    }
    if !is_dir {
        let mut error = "Working directory does not exist: ".to_owned();
        error.append(cwd);
        return Err(error);
    }
    Ok(())
}

/// A kill reaches the process group of a command only while its leader was not reaped: once it
/// is, its number can belong to another process.
#[derive(Clone, Copy, Debug, PartialEq, Eq, Structural)]
pub struct Leader {
    pub pid: i32,
    pub reaped: bool,
}

impl Leader {
    /// The group to signal, where one may be signalled.
    pub fn group_to_kill(&self) -> (group: Option<i32>)
        requires
            self.pid > 0,
        ensures
            group == (if self.reaped {
                None
            } else {
                Some((-self.pid) as i32)
            }),
    {
        if self.reaped {
            None
        } else {
            Some(-self.pid)
        }
    }
}

} // verus!
