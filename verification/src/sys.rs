use vstd::prelude::*;
use nix::errno::Errno;
use nix::sys::signal::{killpg, Signal};
use nix::sys::wait::{waitpid, WaitPidFlag, WaitStatus};
use nix::unistd::Pid;
use crate::jobs::{reports_on, WaitEvent, WaitMode};

verus! {

/// What one `waitpid` call was handed and what it reported. Only the calls in
/// this module make one, so its target and mode are those of a real call.
#[derive(Debug, Clone, Copy)]
pub struct Waited {
    target: i32,
    mode: WaitMode,
    event: WaitEvent,
}

/// The value of a [`Waited`]: the process or group asked about (negative for a
/// group), how, and what came back.
pub struct WaitedView {
    pub target: i32,
    pub mode: WaitMode,
    pub event: WaitEvent,
}

impl View for Waited {
    type V = WaitedView;

    closed spec fn view(&self) -> WaitedView {
        WaitedView { target: self.target, mode: self.mode, event: self.event }
    }
}

impl Waited {
    /// The process or group that was asked about.
    pub fn target(&self) -> (t: i32)
        ensures
            t == self@.target,
    {
        self.target
    }

    /// How it was asked.
    pub fn mode(&self) -> (m: WaitMode)
        ensures
            m == self@.mode,
    {
        self.mode
    }

    /// What came back.
    pub fn event(&self) -> (e: WaitEvent)
        ensures
            e == self@.event,
    {
        self.event
    }
}

/// What one `killpg` call with `SIGCONT` was handed and what it answered. Only
/// the call in this module makes one, so its group is that of a real call.
#[derive(Debug, Clone, Copy)]
pub struct Signalled {
    group: i32,
    answer: Result<(), i32>,
}

/// The value of a [`Signalled`]: the process group signalled, and `Ok(())` or
/// the error number.
pub struct SignalledView {
    pub group: i32,
    pub answer: Result<(), i32>,
}

impl View for Signalled {
    type V = SignalledView;

    closed spec fn view(&self) -> SignalledView {
        SignalledView { group: self.group, answer: self.answer }
    }
}

impl Signalled {
    /// The process group that was signalled.
    pub fn group(&self) -> (g: i32)
        ensures
            g == self@.group,
    {
        self.group
    }

    /// `Ok(())` if the signal was sent, otherwise the error number.
    pub fn answer(&self) -> (a: Result<(), i32>)
        ensures
            a == self@.answer,
    {
        self.answer
    }
}

/// `nix::sys::signal::killpg` with `SIGCONT`: asks the process group `pgid` to
/// continue, and records the group it was handed with the answer. Whether the
/// signal can be delivered depends on the system, so nothing is claimed of the
/// answer: `Ok(())` on success, otherwise the error number.
#[verifier::external_body]
pub(crate) fn continue_group(pgid: i32) -> (s: Signalled)
    ensures
        s@.group == pgid,
{
    let answer = match killpg(Pid::from_raw(pgid), Signal::SIGCONT) {
        Ok(()) => Ok(()),
        Err(e) => Err(e as i32),
    };
    Signalled { group: pgid, answer }
}

/// `nix::sys::wait::waitpid` on `pid` (a negative value names a process group),
/// with `WNOHANG` or `WUNTRACED`; the target and mode it was handed are recorded
/// with the report. Which report comes back depends on the children's state and
/// is left open; the status and error are carried over one for one (`ECHILD` as
/// `NoChild`, the trace and continue statuses as `Other`).
/// Claimed: nix reports `StillAlive` only when the call returned 0, which by its
/// documentation (and POSIX `waitpid`) happens only with `WNOHANG`; a reported
/// process is the call's return value, a process ID, which POSIX `waitpid`
/// (linked from nix's documentation) makes `pid` itself when `pid` is positive.
#[verifier::external_body]
pub(crate) fn wait_for(pid: i32, mode: WaitMode) -> (w: Waited)
    ensures
        w@.target == pid,
        w@.mode == mode,
        mode == WaitMode::Untraced ==> !(w@.event is StillAlive),
        reports_on(w@.event, pid as int),
{
    let flag = match mode {
        WaitMode::NoHang => WaitPidFlag::WNOHANG,
        WaitMode::Untraced => WaitPidFlag::WUNTRACED,
    };
    let event = match waitpid(Pid::from_raw(pid), Some(flag)) {
        Ok(WaitStatus::Exited(p, s)) => WaitEvent::Exited { pid: p.as_raw(), status: s },
        Ok(WaitStatus::Signaled(p, g, _)) => WaitEvent::Signaled { pid: p.as_raw(), signal: g as i32 },
        Ok(WaitStatus::Stopped(p, g)) => WaitEvent::Stopped { pid: p.as_raw(), signal: g as i32 },
        Ok(WaitStatus::StillAlive) => WaitEvent::StillAlive,
        Ok(_) => WaitEvent::Other,
        Err(Errno::ECHILD) => WaitEvent::NoChild,
        Err(e) => WaitEvent::Failed { errno: e as i32 },
    };
    Waited { target: pid, mode, event }
}

} // verus!
