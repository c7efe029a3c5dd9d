//! Decisions at the edges of the program: before it starts, and while it waits
//! for `zpool`.

use vstd::prelude::*;

verus! {

/// What was found before the interactive view starts on live pools.
#[derive(Debug, Clone, Copy, PartialEq, Eq, Structural)]
pub enum Preflight {
    /// There is no ZFS on this host.
    NoZfs,
    /// There are no pools.
    NoPools,
    /// No pool has run a scan yet. The view works all the same.
    NoScansYet,
    Ready,
}

/// Whether there is anything to observe. `scanned` says of each visible pool
/// whether it has a scan record; `pinned` says that one pool was named.
pub open spec fn preflight_of(has_zfs: bool, scanned: Seq<bool>, pinned: bool) -> Preflight {
    if !has_zfs {
        Preflight::NoZfs
    } else if scanned.len() == 0 {
        Preflight::NoPools
    } else if !pinned && !scanned.contains(true) {
        Preflight::NoScansYet
    } else {
        Preflight::Ready
    }
}

/// Decides whether there is anything to observe.
pub fn preflight(has_zfs: bool, scanned: &Vec<bool>, pinned: bool) -> (r: Preflight)
    ensures
        r == preflight_of(has_zfs, scanned@, pinned),
{
    if !has_zfs {
        return Preflight::NoZfs;
    }
    if scanned.len() == 0 {
        return Preflight::NoPools;
    }
    let mut any: bool = false;
    let mut i: usize = 0;
    while i < scanned.len()
        invariant
            i <= scanned@.len(),
            any <==> exists|k: int| 0 <= k < i && #[trigger] scanned@[k],
        decreases scanned@.len() - i,
    {
        if scanned[i] {
            any = true;
        }
        i += 1;
    }
    proof {
        if any {
            let k = choose|k: int| 0 <= k < i && #[trigger] scanned@[k];
            assert(scanned@[k] == true);
            assert(scanned@.contains(true));
        }
    }
    if !pinned && !any {
        Preflight::NoScansYet
    } else {
        Preflight::Ready
    }
}

/// Whether the program stops there.
pub fn refuses(p: Preflight) -> (r: bool)
    ensures
        r == (p is NoZfs || p is NoPools),
{
    match p {
        Preflight::NoZfs | Preflight::NoPools => true,
        Preflight::NoScansYet | Preflight::Ready => false,
    }
}

/// The poll interval in seconds: one at least.
pub fn poll_secs(given: u64) -> (r: u64)
    ensures
        r == (if given == 0 {
            1
        } else {
            given
        }),
{
    if given == 0 {
        1
    } else {
        given
    }
}

/// How long `zpool status` may take, in milliseconds.
pub const STATUS_TIMEOUT_MS: u64 = 5_000;

/// What is known of a child process at one look.
#[derive(Debug, PartialEq)]
pub enum ChildState {
    /// It could not be started, for the given reason.
    NotStarted(String),
    /// It has ended well.
    Succeeded,
    /// It has ended badly, with the given status.
    Failed(String),
    /// It still runs.
    Running,
    /// It could not be looked at, for the given reason.
    Unknown(String),
}

/// What to do about a child process.
#[derive(Debug, PartialEq)]
pub enum ChildStep {
    /// Take what it has written.
    Take,
    /// Give up, with the given error.
    GiveUp(String),
    /// Kill it and give up, with the given error.
    Kill(String),
    /// Look again later.
    Wait,
}

/// Decides what to do about a child process after `waited_ms` milliseconds.
pub fn child_step(state: ChildState, waited_ms: u64) -> (r: ChildStep)
    ensures
        match state {
            ChildState::NotStarted(e) => r matches ChildStep::GiveUp(m) && m@
                == "zpool spawn failed: "@ + e@,
            ChildState::Succeeded => r is Take,
            ChildState::Failed(s) => r matches ChildStep::GiveUp(m) && m@ == "zpool exited with "@
                + s@,
            ChildState::Running => if waited_ms >= STATUS_TIMEOUT_MS {
                r matches ChildStep::Kill(m) && m@ == "zpool timed out"@
            } else {
                r is Wait
            },
            ChildState::Unknown(e) => r matches ChildStep::GiveUp(m) && m@ == "wait failed: "@
                + e@,
        },
{
    match state {
        ChildState::NotStarted(e) => {
            let mut m = "zpool spawn failed: ".to_owned();
            m.append(e.as_str());
            ChildStep::GiveUp(m)
        },
        ChildState::Succeeded => ChildStep::Take,
        ChildState::Failed(s) => {
            let mut m = "zpool exited with ".to_owned();
            m.append(s.as_str());
            ChildStep::GiveUp(m)
        },
        ChildState::Running => {
            if waited_ms >= STATUS_TIMEOUT_MS {
                ChildStep::Kill("zpool timed out".to_owned())
            } else {
                ChildStep::Wait
            }
        },
        ChildState::Unknown(e) => {
            let mut m = "wait failed: ".to_owned();
            m.append(e.as_str());
            ChildStep::GiveUp(m)
        },
    }
}

} // verus!
