//! Getting write access to a settings key that the system owns, and telling whether a file can be read
//! by the service that has to load it.
//!
//! An administrator cannot write such a key until it is theirs: a privilege has to be enabled on the
//! process, the key's owner set, and its access list handed back to inheritance. What the system is
//! asked, and what its answers mean, is decided here; the asking is done outside.
use vstd::prelude::*;

verus! {

/// What to ask the system next.
#[derive(Clone, Copy, PartialEq, Eq, Structural, Debug)]
pub enum Task {
    /// Open this process's token, to adjust its privileges.
    OpenToken,
    /// Look up the privilege to take ownership.
    LookUpPrivilege,
    /// Enable it.
    AdjustPrivileges,
    /// Build the id of the administrators' group.
    BuildOwner,
    /// Make that group the key's owner.
    SetOwner,
    /// Hand the key's access list back to inheritance.
    InheritAccess,
}

/// What a task's answer leads to.
#[derive(Clone, Copy, PartialEq, Eq, Debug)]
pub enum Next {
    Do(Task),
    Done,
    /// It failed; by this name.
    Failed(&'static str),
}

/// The next thing after a task that succeeded.
pub open spec fn successor(t: Task) -> Next {
    match t {
        Task::OpenToken => Next::Do(Task::LookUpPrivilege),
        Task::LookUpPrivilege => Next::Do(Task::AdjustPrivileges),
        Task::AdjustPrivileges => Next::Do(Task::BuildOwner),
        Task::BuildOwner => Next::Do(Task::SetOwner),
        Task::SetOwner => Next::Do(Task::InheritAccess),
        Task::InheritAccess => Next::Done,
    }
}

/// The name that a task's failure goes by.
pub open spec fn failure_name(t: Task) -> Seq<char> {
    match t {
        Task::OpenToken => "OpenProcessToken"@,
        Task::LookUpPrivilege => "LookupPrivilegeValue"@,
        Task::AdjustPrivileges => "AdjustTokenPrivileges"@,
        Task::BuildOwner => "CreateWellKnownSid"@,
        Task::SetOwner => "SetNamedSecurityInfo (owner)"@,
        Task::InheritAccess => "SetNamedSecurityInfo (dacl)"@,
    }
}

/// Did a task do what it was asked? Enabling a privilege reports success even when it granted nothing,
/// so there the last error has the final word.
pub open spec fn did(t: Task, succeeded: bool, last_error: Option<i32>) -> bool {
    succeeded && (t == Task::AdjustPrivileges ==> last_error is None || last_error == Some(0i32))
}

/// Is the token given back afterwards? It is held from its opening until the privilege is
/// enabled or the attempt fails.
pub open spec fn closes_token(t: Task, done: bool) -> bool {
    t == Task::AdjustPrivileges || (t == Task::LookUpPrivilege && !done)
}

/// What follows from a task's answer: what to do next, and whether to give the token back first.
/// `last_error` is the system's last error code after enabling the privilege, where there is one.
pub fn take_ownership(task: Task, succeeded: bool, last_error: Option<i32>) -> (r: (Next, bool))
    ensures
        ({
            let done = did(task, succeeded, last_error);
            &&& r.1 == closes_token(task, done)
            &&& if done {
                r.0 == successor(task)
            } else {
                r.0 matches Next::Failed(name) && name@ == failure_name(task)
            }
        }),
{
    let granted: bool = match last_error {
        Some(code) => code == 0,
        None => true,
    };
    match task {
        Task::OpenToken => {
            if succeeded {
                (Next::Do(Task::LookUpPrivilege), false)
            } else {
                (Next::Failed("OpenProcessToken"), false)
            }
        },
        Task::LookUpPrivilege => {
            if succeeded {
                (Next::Do(Task::AdjustPrivileges), false)
            } else {
                (Next::Failed("LookupPrivilegeValue"), true)
            }
        },
        Task::AdjustPrivileges => {
            if succeeded && granted {
                (Next::Do(Task::BuildOwner), true)
            } else {
                (Next::Failed("AdjustTokenPrivileges"), true)
            }
        },
        Task::BuildOwner => {
            if succeeded {
                (Next::Do(Task::SetOwner), false)
            } else {
                (Next::Failed("CreateWellKnownSid"), false)
            }
        },
        Task::SetOwner => {
            if succeeded {
                (Next::Do(Task::InheritAccess), false)
            } else {
                (Next::Failed("SetNamedSecurityInfo (owner)"), false)
            }
        },
        Task::InheritAccess => {
            if succeeded {
                (Next::Done, false)
            } else {
                (Next::Failed("SetNamedSecurityInfo (dacl)"), false)
            }
        },
    }
}

/// The name of a settings key as an object with an owner.
pub fn object_name(key_path: &str) -> (r: String)
    ensures
        r@ == "MACHINE\\"@ + key_path@,
{
    let mut s: String = "MACHINE\\".to_owned();
    s.append(key_path);
    s
}

/// How often the token is given back from a task on, given whether each task does what it was asked.
pub open spec fn tokens_closed(t: Task, answers: spec_fn(Task) -> bool) -> nat
    decreases tasks_left(t),
{
    let done = answers(t);
    let here: nat = if closes_token(t, done) {
        1
    } else {
        0
    };
    match successor(t) {
        Next::Do(next) => if done && tasks_left(next) < tasks_left(t) {
            here + tokens_closed(next, answers)
        } else {
            here
        },
        _ => here,
    }
}

/// How many tasks there are from one on.
pub open spec fn tasks_left(t: Task) -> nat {
    match t {
        Task::OpenToken => 6,
        Task::LookUpPrivilege => 5,
        Task::AdjustPrivileges => 4,
        Task::BuildOwner => 3,
        Task::SetOwner => 2,
        Task::InheritAccess => 1,
    }
}

/// The tasks come to an end: each that succeeds leaves fewer to do.
pub proof fn law_tasks_come_to_an_end(t: Task)
    ensures
        match successor(t) {
            Next::Do(next) => tasks_left(next) + 1 == tasks_left(t),
            Next::Done => tasks_left(t) == 1,
            Next::Failed(_) => false,
        },
{
}

/// A token that was opened is given back exactly once, whichever of the later tasks fails.
pub proof fn law_token_is_given_back_once(answers: spec_fn(Task) -> bool)
    ensures
        answers(Task::OpenToken) ==> tokens_closed(Task::OpenToken, answers) == 1,
        !answers(Task::OpenToken) ==> tokens_closed(Task::OpenToken, answers) == 0,
{
    reveal_with_fuel(tokens_closed, 7);
}

/// The rights to read and to execute a file.
pub const REQUIRED_ACCESS: u32 = 0x0012_00a9;

/// Does some account have all the rights that loading takes?
pub open spec fn some_may_load(rights: Seq<Option<u32>>) -> bool {
    exists|i: int|
        0 <= i < rights.len() && (#[trigger] rights[i] matches Some(r) && r & REQUIRED_ACCESS
            == REQUIRED_ACCESS)
}

/// Can the audio service read and execute a file? `rights` holds what each account that would do has,
/// where it could be asked. `None` where the file's access list could not be read: a check that failed
/// must never read the same as access that is denied.
pub fn dll_readable_by_audiodg(list_read: bool, rights: &[Option<u32>]) -> (r: Option<bool>)
    ensures
        r == (if list_read {
            Some(some_may_load(rights@))
        } else {
            None
        }),
{
    if !list_read {
        return None;
    }
    let mut i: usize = 0;
    while i < rights.len()
        invariant
            i <= rights.len(),
            list_read,
            forall|j: int|
                0 <= j < i ==> !(#[trigger] rights@[j] matches Some(r) && r & REQUIRED_ACCESS
                    == REQUIRED_ACCESS),
        decreases rights.len() - i,
    {
        match rights[i] {
            Some(r) => {
                if r & REQUIRED_ACCESS == REQUIRED_ACCESS {
                    assert(rights@[i as int] == Some(r));
                    assert(some_may_load(rights@));
                    return Some(true);
                }
            },
            None => {},
        }
        i = i + 1;
    }
    Some(false)
}

/// Success alone moves on: a task that failed leads to nothing more, and enabling the privilege counts
/// as failed where the last error says that nothing was granted.
pub proof fn law_only_success_moves_on(t: Task, last_error: Option<i32>, code: i32)
    ensures
        !did(t, false, last_error),
        code != 0 ==> !did(Task::AdjustPrivileges, true, Some(code)),
        did(Task::AdjustPrivileges, true, Some(0i32)),
        did(Task::AdjustPrivileges, true, None),
        !(t is AdjustPrivileges) ==> did(t, true, last_error),
{
}

/// The owner is changed before the access is, and only with the privilege enabled; the token is given
/// back as soon as the privilege is, and where looking it up failed.
pub proof fn law_ownership_is_taken_in_order(done: bool)
    ensures
        successor(Task::OpenToken) == Next::Do(Task::LookUpPrivilege),
        successor(Task::LookUpPrivilege) == Next::Do(Task::AdjustPrivileges),
        successor(Task::AdjustPrivileges) == Next::Do(Task::BuildOwner),
        successor(Task::BuildOwner) == Next::Do(Task::SetOwner),
        successor(Task::SetOwner) == Next::Do(Task::InheritAccess),
        successor(Task::InheritAccess) == Next::Done,
        closes_token(Task::AdjustPrivileges, done),
        closes_token(Task::LookUpPrivilege, done) <==> !done,
        !closes_token(Task::OpenToken, done),
        !closes_token(Task::BuildOwner, done),
        !closes_token(Task::SetOwner, done),
        !closes_token(Task::InheritAccess, done),
{
}

/// A failure names the call that failed, and no two tasks go by one name.
pub proof fn law_failures_are_told_apart(t: Task, u: Task)
    ensures
        failure_name(t) == failure_name(u) <==> t == u,
        failure_name(Task::OpenToken) == "OpenProcessToken"@,
        failure_name(Task::LookUpPrivilege) == "LookupPrivilegeValue"@,
        failure_name(Task::AdjustPrivileges) == "AdjustTokenPrivileges"@,
        failure_name(Task::BuildOwner) == "CreateWellKnownSid"@,
        failure_name(Task::SetOwner) == "SetNamedSecurityInfo (owner)"@,
        failure_name(Task::InheritAccess) == "SetNamedSecurityInfo (dacl)"@,
{
    reveal_strlit("OpenProcessToken");
    reveal_strlit("LookupPrivilegeValue");
    reveal_strlit("AdjustTokenPrivileges");
    reveal_strlit("CreateWellKnownSid");
    reveal_strlit("SetNamedSecurityInfo (owner)");
    reveal_strlit("SetNamedSecurityInfo (dacl)");
    assert("OpenProcessToken"@.len() == 16 && "LookupPrivilegeValue"@.len() == 20);
    assert("AdjustTokenPrivileges"@.len() == 21 && "CreateWellKnownSid"@.len() == 18);
    assert("SetNamedSecurityInfo (owner)"@.len() == 28);
    assert("SetNamedSecurityInfo (dacl)"@.len() == 27);
}

/// One account with every right that reading and executing take is enough, an account that could not
/// be asked or that lacks one of them counts for nothing, and more accounts never take access away.
pub proof fn law_access_takes_every_right(rights: Seq<Option<u32>>, more: Option<u32>)
    ensures
        some_may_load(rights.push(more)) <==> some_may_load(rights) || (more matches Some(r) && r
            & 0x0012_00a9 == 0x0012_00a9),
        !some_may_load(Seq::empty()),
{
    let all = rights.push(more);
    if some_may_load(rights) {
        let i = choose|i: int|
            0 <= i < rights.len() && (#[trigger] rights[i] matches Some(r) && r & REQUIRED_ACCESS
                == REQUIRED_ACCESS);
        assert(all[i] == rights[i]);
    }
    assert(all[rights.len() as int] == more);
}

} // verus!
