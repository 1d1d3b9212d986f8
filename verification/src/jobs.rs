use vstd::prelude::*;
use crate::parser::{command_line, command_views, construct_string, Commands};
use crate::sys::{continue_group, wait_for, Signalled, Waited};
use crate::text::{decimal, push_char, push_decimal, push_signed_decimal, signed_decimal};

verus! {

/// Whether a job runs or is stopped.
#[derive(Debug, Clone, Copy, PartialEq, Eq, Structural)]
pub enum JobState {
    Running,
    Suspended,
}

/// A job: a process group started by the shell that is still in its table.
pub struct Job {
    pub pgid: i32,
    pub state: JobState,
    pub command: String,
}

/// The mathematical value of a [`Job`].
pub struct JobView {
    pub pgid: i32,
    pub state: JobState,
    pub command: Seq<char>,
}

impl View for Job {
    type V = JobView;

    open spec fn view(&self) -> JobView {
        JobView { pgid: self.pgid, state: self.state, command: self.command@ }
    }
}

/// The values of a job table.
pub open spec fn job_views(jobs: Seq<Job>) -> Seq<JobView> {
    jobs.map_values(|j: Job| j@)
}

/// Why a job could not be resumed.
#[derive(Debug, Clone, Copy, PartialEq, Eq, Structural)]
pub enum JobError {
    /// The job number is larger than the table.
    OutOfBounds,
}

/// How `waitpid` is asked to wait.
#[derive(Debug, Clone, Copy, PartialEq, Eq, Structural)]
pub enum WaitMode {
    /// Return at once when nothing has changed (`WNOHANG`).
    NoHang,
    /// Also report children that stopped (`WUNTRACED`).
    Untraced,
}

/// What one `waitpid` call reported.
#[derive(Debug, Clone, Copy, PartialEq, Eq, Structural)]
pub enum WaitEvent {
    Exited { pid: i32, status: i32 },
    Signaled { pid: i32, signal: i32 },
    Stopped { pid: i32, signal: i32 },
    /// Nothing changed yet (only with `WNOHANG`).
    StillAlive,
    /// A continue or trace status.
    Other,
    /// There is no such child (`ECHILD`).
    NoChild,
    /// Any other error, by number.
    Failed { errno: i32 },
}

/// The table with job `k` set to `state`.
pub open spec fn with_state(jobs: Seq<JobView>, k: int, state: JobState) -> Seq<JobView> {
    jobs.update(k, JobView { state, ..jobs[k] })
}

/// The process group of the job numbered `jobid` (counted from 1), if the
/// table has such a job.
pub open spec fn target(jobs: Seq<JobView>, jobid: int) -> Result<i32, JobError> {
    if jobid > jobs.len() {
        Err(JobError::OutOfBounds)
    } else {
        Ok(jobs[jobid - 1].pgid)
    }
}

/// Finds the process group of the job numbered `jobid` (counted from 1).
pub fn job_target(jobs: &Vec<Job>, jobid: usize) -> (r: Result<i32, JobError>)
    requires
        jobid >= 1,
    ensures
        r == target(job_views(jobs@), jobid as int),
{
    if jobid > jobs.len() {
        Err(JobError::OutOfBounds)
    } else {
        Ok(jobs[jobid - 1].pgid)
    }
}

/// Continues the job numbered `jobid` (counted from 1) with `SIGCONT`: the job's
/// own process group is the one signalled. Whether the signal goes through
/// depends on the system and is recorded in the answer.
pub fn resume_job(jobs: &Vec<Job>, jobid: usize) -> (r: Result<Signalled, JobError>)
    requires
        jobid >= 1,
    ensures
        match r {
            Err(e) => e == JobError::OutOfBounds && jobid > jobs.len(),
            Ok(s) => jobid <= jobs.len() && s@.group == jobs[jobid - 1].pgid,
        },
{
    match job_target(jobs, jobid) {
        Err(e) => Err(e),
        Ok(p) => Ok(continue_group(p)),
    }
}

/// The table after continuing the job at `k` answered `answer`: the job is
/// running if the signal was sent, and the table is unchanged otherwise.
pub open spec fn resumed_table(jobs: Seq<JobView>, k: int, answer: Result<(), i32>) -> Seq<JobView> {
    if answer is Ok {
        with_state(jobs, k, JobState::Running)
    } else {
        jobs
    }
}

/// Marks the job at index `k` running if continuing it answered `Ok`.
pub fn mark_resumed(jobs: &mut Vec<Job>, k: usize, answer: Result<(), i32>)
    requires
        k < old(jobs).len(),
    ensures
        job_views(final(jobs)@) == resumed_table(job_views(old(jobs)@), k as int, answer),
{
    if answer.is_ok() {
        let ghost before = job_views(jobs@);
        jobs[k].state = JobState::Running;
        assert(job_views(jobs@) =~= with_state(before, k as int, JobState::Running));
    }
}

/// `bg`: continues job `jobid` (counted from 1), the job's own process group,
/// and marks it running if the signal was sent; the table is unchanged otherwise.
pub fn bg(jobs: &mut Vec<Job>, jobid: usize) -> (r: Result<Signalled, JobError>)
    requires
        jobid >= 1,
    ensures
        match r {
            Err(e) => e == JobError::OutOfBounds && jobid > old(jobs).len() && final(jobs)@
                == old(jobs)@,
            Ok(s) => jobid <= old(jobs).len() && s@.group == old(jobs)[jobid - 1].pgid
                && job_views(final(jobs)@) == resumed_table(
                job_views(old(jobs)@),
                jobid - 1,
                s@.answer,
            ),
        },
{
    match resume_job(jobs, jobid) {
        Err(e) => Err(e),
        Ok(s) => {
            mark_resumed(jobs, jobid - 1, s.answer());
            Ok(s)
        },
    }
}

/// The process that `ev` reports on, if it reports on one.
pub open spec fn reported_pid(ev: WaitEvent) -> Option<i32> {
    match ev {
        WaitEvent::Exited { pid, .. } => Some(pid),
        WaitEvent::Signaled { pid, .. } => Some(pid),
        WaitEvent::Stopped { pid, .. } => Some(pid),
        _ => None,
    }
}

/// Whether `ev` fits a `waitpid` call on `target`: a process it reports on is a
/// real process (a positive ID), and is `target` itself when `target` names a
/// single process.
pub open spec fn reports_on(ev: WaitEvent, target: int) -> bool {
    match reported_pid(ev) {
        Some(p) => p > 0 && (target > 0 ==> p == target),
        None => true,
    }
}

/// The table after the foreground job at `k` reported `ev`: a job that exited or
/// was killed leaves the table, a job that stopped is marked suspended, and any
/// other report leaves the table as it is.
pub open spec fn settle(jobs: Seq<JobView>, k: int, ev: WaitEvent) -> Seq<JobView> {
    match ev {
        WaitEvent::Exited { .. } | WaitEvent::Signaled { .. } => jobs.remove(k),
        WaitEvent::Stopped { .. } => with_state(jobs, k, JobState::Suspended),
        _ => jobs,
    }
}

/// Updates the table after the foreground job at index `k` reported `ev`.
pub fn settle_job(jobs: &mut Vec<Job>, k: usize, ev: WaitEvent)
    requires
        k < old(jobs).len(),
    ensures
        job_views(final(jobs)@) == settle(job_views(old(jobs)@), k as int, ev),
{
    let ghost before = job_views(jobs@);
    match ev {
        WaitEvent::Exited { .. } | WaitEvent::Signaled { .. } => {
            jobs.remove(k);
            assert(job_views(jobs@) =~= before.remove(k as int));
        },
        WaitEvent::Stopped { .. } => {
            jobs[k].state = JobState::Suspended;
            assert(job_views(jobs@) =~= with_state(before, k as int, JobState::Suspended));
        },
        _ => {},
    }
}

/// `fg`, once the job has the terminal: waits until job `jobid` (counted from 1)
/// exits, is killed or stops, and updates the table by what was reported. The
/// report is whatever `waitpid` gave for the job's process group; it is never
/// `StillAlive`, and a process it names has a positive ID.
pub fn await_job(jobs: &mut Vec<Job>, jobid: usize) -> (w: Waited)
    requires
        1 <= jobid <= old(jobs).len(),
        old(jobs)[jobid - 1].pgid != i32::MIN,
    ensures
        w@.target == -old(jobs)[jobid - 1].pgid,
        w@.mode == WaitMode::Untraced,
        job_views(final(jobs)@) == settle(job_views(old(jobs)@), jobid - 1, w@.event),
        !(w@.event is StillAlive),
        reports_on(w@.event, w@.target as int),
{
    let pgid = jobs[jobid - 1].pgid;
    let w = wait_for(-pgid, WaitMode::Untraced);
    settle_job(jobs, jobid - 1, w.event());
    w
}

/// Whether the shell takes the terminal back after `fg` saw `ev`: when the job
/// exited, was killed or stopped.
pub fn fg_reclaims_terminal(ev: WaitEvent) -> (b: bool)
    ensures
        b <==> (ev is Exited || ev is Signaled || ev is Stopped),
{
    match ev {
        WaitEvent::Exited { .. } | WaitEvent::Signaled { .. } | WaitEvent::Stopped { .. } => true,
        _ => false,
    }
}

/// The table with a new job at its end.
pub open spec fn appended(jobs: Seq<JobView>, pgid: i32, state: JobState, command: Seq<char>) -> Seq<
    JobView,
> {
    jobs.push(JobView { pgid, state, command })
}

/// Adds a job to the end of the table.
pub fn add_job(jobs: &mut Vec<Job>, pgid: i32, state: JobState, command: String)
    ensures
        job_views(final(jobs)@) == appended(job_views(old(jobs)@), pgid, state, command@),
{
    let ghost before = job_views(jobs@);
    let ghost name = command@;
    jobs.push(Job { pgid, state, command });
    assert(job_views(jobs@) =~= appended(before, pgid, state, name));
}

/// The table after a foreground command reported `ev`: a command that stopped
/// becomes a suspended job; otherwise the table is unchanged.
pub open spec fn record_stop(jobs: Seq<JobView>, pgid: i32, command: Seq<char>, ev: WaitEvent) -> Seq<
    JobView,
> {
    if ev is Stopped {
        appended(jobs, pgid, JobState::Suspended, command)
    } else {
        jobs
    }
}

/// Updates the table after a foreground command of group `pgid` reported `ev`.
pub fn record_foreground(jobs: &mut Vec<Job>, pgid: i32, command: &String, ev: WaitEvent)
    ensures
        job_views(final(jobs)@) == record_stop(job_views(old(jobs)@), pgid, command@, ev),
{
    if let WaitEvent::Stopped { .. } = ev {
        add_job(jobs, pgid, JobState::Suspended, command.clone());
    }
}

/// Waits for the foreground command started as `pid` (alone, or as the leader of
/// its whole group when `whole_group` holds) to change state, and records it as
/// a suspended job if it stopped. The report is whatever `waitpid` gave; it is
/// never `StillAlive`, and a process it names has a positive ID, which is `pid`
/// itself when the command is waited for alone.
pub fn await_foreground(jobs: &mut Vec<Job>, pid: i32, whole_group: bool, command: &String) -> (w:
    Waited)
    requires
        whole_group ==> pid != i32::MIN,
    ensures
        w@.target == if whole_group {
            -pid
        } else {
            pid as int
        },
        w@.mode == WaitMode::Untraced,
        job_views(final(jobs)@) == record_stop(job_views(old(jobs)@), pid, command@, w@.event),
        !(w@.event is StillAlive),
        reports_on(w@.event, w@.target as int),
{
    let target = if whole_group {
        -pid
    } else {
        pid
    };
    let w = wait_for(target, WaitMode::Untraced);
    record_foreground(jobs, pid, command, w.event());
    w
}

/// What the shell does after a single foreground command reported `ev`.
#[derive(Debug, Clone, Copy, PartialEq, Eq, Structural)]
pub enum CommandFollowup {
    /// Take the terminal back; failing to is fatal.
    Reclaim,
    /// Take the terminal back; a failure is reported.
    ReclaimOrReport,
    /// Report the error of `waitpid`.
    Report,
    /// Nothing.
    Nothing,
}

/// The follow-up to a single foreground command's report: an exit or a kill
/// gives the terminal back, a stop gives it back and tells of a failure, an
/// error is reported, and any other report leaves things as they are.
pub fn command_followup(ev: WaitEvent) -> (f: CommandFollowup)
    ensures
        f == (match ev {
            WaitEvent::Exited { .. } | WaitEvent::Signaled { .. } => CommandFollowup::Reclaim,
            WaitEvent::Stopped { .. } => CommandFollowup::ReclaimOrReport,
            WaitEvent::NoChild | WaitEvent::Failed { .. } => CommandFollowup::Report,
            _ => CommandFollowup::Nothing,
        }),
{
    match ev {
        WaitEvent::Exited { .. } | WaitEvent::Signaled { .. } => CommandFollowup::Reclaim,
        WaitEvent::Stopped { .. } => CommandFollowup::ReclaimOrReport,
        WaitEvent::NoChild | WaitEvent::Failed { .. } => CommandFollowup::Report,
        _ => CommandFollowup::Nothing,
    }
}

/// What the shell does after a foreground pipeline reported `ev`.
#[derive(Debug, Clone, Copy, PartialEq, Eq, Structural)]
pub enum PipelineStep {
    /// A process ended: take the terminal back (failing to is fatal) and keep waiting.
    ReclaimAndWait,
    /// Keep waiting.
    Wait,
    /// The pipeline stopped: take the terminal back, report a failure, stop waiting.
    ReclaimAndStop,
    /// No process of the group is left: stop waiting.
    Stop,
    /// Report the error of `waitpid` and stop waiting.
    ReportAndStop,
}

/// The step after a foreground pipeline's report: an exit or a kill gives the
/// terminal back and waits on, any other status waits on, a stop ends the wait
/// with the terminal given back, `ECHILD` ends it, and another error is reported
/// and ends it.
pub fn pipeline_step(ev: WaitEvent) -> (s: PipelineStep)
    ensures
        s == (match ev {
            WaitEvent::Exited { .. } | WaitEvent::Signaled { .. } => PipelineStep::ReclaimAndWait,
            WaitEvent::Stopped { .. } => PipelineStep::ReclaimAndStop,
            WaitEvent::NoChild => PipelineStep::Stop,
            WaitEvent::Failed { .. } => PipelineStep::ReportAndStop,
            _ => PipelineStep::Wait,
        }),
{
    match ev {
        WaitEvent::Exited { .. } | WaitEvent::Signaled { .. } => PipelineStep::ReclaimAndWait,
        WaitEvent::Stopped { .. } => PipelineStep::ReclaimAndStop,
        WaitEvent::NoChild => PipelineStep::Stop,
        WaitEvent::Failed { .. } => PipelineStep::ReportAndStop,
        _ => PipelineStep::Wait,
    }
}

/// What becomes of a background job after one poll.
#[derive(Debug, Clone, Copy, PartialEq, Eq, Structural)]
pub enum ReapStep {
    /// A process of the group ended (reported): poll the group again.
    PollAgain,
    /// Keep the job.
    Keep,
    /// The group is gone: drop the job.
    Drop,
}

/// The step after polling a background job: an exit or kill is reported and the
/// group polled again, `ECHILD` drops the job, anything else keeps it.
pub fn reap_step(ev: WaitEvent) -> (s: ReapStep)
    ensures
        s == (match ev {
            WaitEvent::Exited { .. } | WaitEvent::Signaled { .. } => ReapStep::PollAgain,
            WaitEvent::NoChild => ReapStep::Drop,
            _ => ReapStep::Keep,
        }),
{
    match ev {
        WaitEvent::Exited { .. } | WaitEvent::Signaled { .. } => ReapStep::PollAgain,
        WaitEvent::NoChild => ReapStep::Drop,
        _ => ReapStep::Keep,
    }
}

/// Polls the process group `pgid` of a background job without blocking. The
/// report is whatever `waitpid` gave; a process it names has a positive ID.
pub fn poll_job(pgid: i32) -> (w: Waited)
    requires
        pgid != i32::MIN,
    ensures
        w@.target == -pgid,
        w@.mode == WaitMode::NoHang,
        reports_on(w@.event, w@.target as int),
{
    wait_for(-pgid, WaitMode::NoHang)
}

/// The jobs whose flag is set, in their order.
pub open spec fn kept(jobs: Seq<JobView>, keep: Seq<bool>) -> Seq<JobView>
    decreases jobs.len(),
{
    if jobs.len() == 0 {
        seq![]
    } else {
        let rest = kept(jobs.drop_last(), keep);
        if keep[jobs.len() - 1] {
            rest.push(jobs.last())
        } else {
            rest
        }
    }
}

/// Keeps the jobs whose flag is set, in their order, and drops the others.
pub fn retain_jobs(jobs: &mut Vec<Job>, keep: &Vec<bool>)
    requires
        keep.len() == old(jobs).len(),
    ensures
        job_views(final(jobs)@) == kept(job_views(old(jobs)@), keep@),
{
    let ghost all = job_views(jobs@);
    let mut out: Vec<Job> = Vec::new();
    let n = jobs.len();
    let mut i: usize = 0;
    while i < n
        invariant
            i <= n == keep.len(),
            jobs.len() == n - i,
            all.len() == n,
            job_views(jobs@) == all.skip(i as int),
            job_views(out@) == kept(all.take(i as int), keep@),
        decreases n - i,
    {
        let ghost pre = jobs@;
        assert(job_views(pre)[0] == all.skip(i as int)[0]);
        let j = jobs.remove(0);
        let ghost jv = j@;
        assert(jv == all[i as int]);
        assert(job_views(jobs@) =~= job_views(pre).drop_first());
        assert(all.take(i + 1).drop_last() =~= all.take(i as int));
        if keep[i] {
            let ghost o = job_views(out@);
            out.push(j);
            assert(job_views(out@) =~= o.push(jv));
        }
        i = i + 1;
        assert(job_views(jobs@) =~= all.skip(i as int));
    }
    assert(all.take(n as int) =~= all);
    *jobs = out;
}

/// How the job list names a state.
pub open spec fn state_label(s: JobState) -> Seq<char> {
    match s {
        JobState::Running => "Running"@,
        JobState::Suspended => "Suspended"@,
    }
}

/// The first line of the job list.
pub open spec fn list_header() -> Seq<char> {
    "Index Status Command PGID"@
}

/// The line of the job list for job `j` shown as number `number`:
/// number, state, command and process group, separated by spaces.
pub open spec fn job_line(number: nat, j: JobView) -> Seq<char> {
    decimal(number) + seq![' '] + state_label(j.state) + seq![' '] + j.command + seq![' ']
        + signed_decimal(j.pgid as int)
}

/// The job list, as the `jobs` builtin prints it: a header, then one line per
/// job, numbered from 1 in table order.
pub fn job_list(jobs: &[Job]) -> (lines: Vec<String>)
    ensures
        lines.len() == jobs.len() + 1,
        lines[0]@ == list_header(),
        forall|k: int| 0 <= k < jobs.len() ==> #[trigger] lines[k + 1]@ == job_line((k + 1) as nat, jobs[k]@),
{
    let mut lines: Vec<String> = Vec::new();
    lines.push(String::from_str("Index Status Command PGID"));
    let mut i: usize = 0;
    while i < jobs.len()
        invariant
            i <= jobs.len(),
            lines.len() == i + 1,
            lines[0]@ == list_header(),
            forall|k: int| 0 <= k < i ==> #[trigger] lines[k + 1]@ == job_line((k + 1) as nat, jobs[k]@),
        decreases jobs.len() - i,
    {
        let j = &jobs[i];
        let mut line = String::new();
        push_decimal(&mut line, (i + 1) as u64);
        push_char(&mut line, ' ');
        let label = match j.state {
            JobState::Running => String::from_str("Running"),
            JobState::Suspended => String::from_str("Suspended"),
        };
        line.append(label.as_str());
        push_char(&mut line, ' ');
        line.append(j.command.as_str());
        push_char(&mut line, ' ');
        push_signed_decimal(&mut line, j.pgid);
        assert(line@ =~= job_line((i + 1) as nat, jobs[i as int]@));
        lines.push(line);
        i = i + 1;
    }
    lines
}

/// Settling the foreground job touches no other job: either that job leaves
/// the table and the others keep their order, or the table keeps its size, every
/// other job is unchanged, and that job keeps its process group and command.
pub proof fn lemma_settle_keeps_other_jobs(jobs: Seq<JobView>, k: int, ev: WaitEvent)
    requires
        0 <= k < jobs.len(),
    ensures
        ({
            let r = settle(jobs, k, ev);
            ||| r == jobs.remove(k)
            ||| {
                &&& r.len() == jobs.len()
                &&& forall|j: int| 0 <= j < jobs.len() && j != k ==> #[trigger] r[j] == jobs[j]
                &&& r[k].pgid == jobs[k].pgid
                &&& r[k].command == jobs[k].command
            }
        }),
{
}

/// Resuming a job in the background touches no other job, and keeps the
/// resumed job's process group and command.
pub proof fn lemma_resume_keeps_other_jobs(jobs: Seq<JobView>, k: int)
    requires
        0 <= k < jobs.len(),
    ensures
        ({
            let r = with_state(jobs, k, JobState::Running);
            &&& r.len() == jobs.len()
            &&& forall|j: int| 0 <= j < jobs.len() && j != k ==> #[trigger] r[j] == jobs[j]
            &&& r[k] == (JobView { state: JobState::Running, ..jobs[k] })
        }),
{
}

/// Polling keeps exactly the jobs whose flag is set, in order: the result is
/// never longer than the table, and with every flag set it is the table itself.
pub proof fn lemma_kept_is_ordered_selection(jobs: Seq<JobView>, keep: Seq<bool>)
    requires
        keep.len() == jobs.len(),
    ensures
        kept(jobs, keep).len() <= jobs.len(),
        (forall|i: int| 0 <= i < keep.len() ==> #[trigger] keep[i]) ==> kept(jobs, keep) == jobs,
    decreases jobs.len(),
{
    if jobs.len() > 0 {
        lemma_kept_is_ordered_selection(jobs.drop_last(), keep.drop_last());
        lemma_kept_prefix_flags(jobs.drop_last(), keep);
        if forall|i: int| 0 <= i < keep.len() ==> #[trigger] keep[i] {
            assert(keep[keep.len() - 1]);
            assert forall|i: int| 0 <= i < keep.drop_last().len() implies #[trigger] keep.drop_last()[i] by {
                assert(keep.drop_last()[i] == keep[i]);
            }
            assert(jobs.drop_last().push(jobs.last()) =~= jobs);
        }
    }
}

/// Only the flags of the jobs present matter.
proof fn lemma_kept_prefix_flags(jobs: Seq<JobView>, keep: Seq<bool>)
    requires
        jobs.len() <= keep.len(),
    ensures
        kept(jobs, keep) == kept(jobs, keep.take(jobs.len() as int)),
    decreases jobs.len(),
{
    if jobs.len() > 0 {
        lemma_kept_prefix_flags(jobs.drop_last(), keep);
        lemma_kept_prefix_flags(jobs.drop_last(), keep.take(jobs.len() as int));
        assert(keep.take(jobs.len() as int).take(jobs.len() - 1) =~= keep.take(jobs.len() - 1));
    }
}

/// The job shown as number `n` by the job list is the one that `fg n` and
/// `bg n` act on: its line starts with `n` and ends with the process group
/// that the number selects.
pub proof fn lemma_list_numbers_select_jobs(jobs: Seq<JobView>, n: int)
    requires
        1 <= n <= jobs.len(),
    ensures
        target(jobs, n) == Ok::<i32, JobError>(jobs[n - 1].pgid),
        job_line(n as nat, jobs[n - 1]).take(decimal(n as nat).len() as int) == decimal(n as nat),
        ({
            let line = job_line(n as nat, jobs[n - 1]);
            let p = signed_decimal(jobs[n - 1].pgid as int);
            line.skip(line.len() - p.len()) == p
        }),
{
    let j = jobs[n - 1];
    let line = job_line(n as nat, j);
    let d = decimal(n as nat);
    let p = signed_decimal(j.pgid as int);
    let mid = seq![' '] + state_label(j.state) + seq![' '] + j.command + seq![' '];
    assert(line =~= d + mid + p);
    assert((d + mid + p).take(d.len() as int) =~= d);
    assert((d + mid + p).skip((d + mid + p).len() - p.len()) =~= p);
}

/// Where a freshly started command line goes.
#[derive(Debug)]
pub enum Placement {
    /// It runs in the background and is now the last job of the table.
    Background,
    /// It runs in the foreground under this name, to be waited for.
    Foreground(String),
}

/// Places a command line just started as process group `pgid`: a line ending in
/// `&` becomes a running job named by its text; any other is left to be waited
/// for in the foreground, with that name, and the table is unchanged.
pub fn place_job(jobs: &mut Vec<Job>, pgid: i32, command: &Commands) -> (p: Placement)
    ensures
        command.bg ==> p is Background && job_views(final(jobs)@) == appended(
            job_views(old(jobs)@),
            pgid,
            JobState::Running,
            command_line(command_views(command.command@)),
        ),
        !command.bg ==> final(jobs)@ == old(jobs)@ && (p matches Placement::Foreground(name)
            && name@ == command_line(command_views(command.command@))),
{
    let name = construct_string(command.command.as_slice());
    if command.bg {
        add_job(jobs, pgid, JobState::Running, name);
        Placement::Background
    } else {
        Placement::Foreground(name)
    }
}

/// The bracketed process group that starts a report line.
pub open spec fn group_tag(pgid: i32) -> Seq<char> {
    seq!['['] + signed_decimal(pgid as int) + seq![']']
}

/// The line the shell prints for a background job's report `ev`: an exit with
/// its status, a kill with the signal named by `detail`, the end of the job, or
/// a `waitpid` error described by `detail`; no line for other reports.
pub open spec fn reap_report(pgid: i32, ev: WaitEvent, detail: Seq<char>) -> Option<Seq<char>> {
    match ev {
        WaitEvent::Exited { pid, status } => Some(
            group_tag(pgid) + " process "@ + signed_decimal(pid as int) + " exited with status "@
                + signed_decimal(status as int),
        ),
        WaitEvent::Signaled { pid, .. } => Some(
            group_tag(pgid) + " process "@ + signed_decimal(pid as int) + " terminated by "@
                + detail,
        ),
        WaitEvent::NoChild => Some(group_tag(pgid) + " job finished"@),
        WaitEvent::Failed { .. } => Some("waitpid error for "@ + group_tag(pgid) + ": "@ + detail),
        _ => None,
    }
}

fn push_group_tag(s: &mut String, pgid: i32)
    ensures
        final(s)@ == old(s)@ + group_tag(pgid),
{
    push_char(s, '[');
    push_signed_decimal(s, pgid);
    push_char(s, ']');
    assert(s@ =~= old(s)@ + group_tag(pgid));
}

/// The line to print for a background job's report (`detail` names the signal
/// of a kill, or describes the error of a failure).
pub fn reap_message(pgid: i32, ev: WaitEvent, detail: &str) -> (m: Option<String>)
    ensures
        m.deep_view() == reap_report(pgid, ev, detail@),
{
    let mut s = String::new();
    match ev {
        WaitEvent::Exited { pid, status } => {
            push_group_tag(&mut s, pgid);
            s.append(" process ");
            push_signed_decimal(&mut s, pid);
            s.append(" exited with status ");
            push_signed_decimal(&mut s, status);
            assert(s@ =~= reap_report(pgid, ev, detail@)->0);
            Some(s)
        },
        WaitEvent::Signaled { pid, .. } => {
            push_group_tag(&mut s, pgid);
            s.append(" process ");
            push_signed_decimal(&mut s, pid);
            s.append(" terminated by ");
            s.append(detail);
            assert(s@ =~= reap_report(pgid, ev, detail@)->0);
            Some(s)
        },
        WaitEvent::NoChild => {
            push_group_tag(&mut s, pgid);
            s.append(" job finished");
            assert(s@ =~= reap_report(pgid, ev, detail@)->0);
            Some(s)
        },
        WaitEvent::Failed { .. } => {
            s.append("waitpid error for ");
            push_group_tag(&mut s, pgid);
            s.append(": ");
            s.append(detail);
            assert(s@ =~= reap_report(pgid, ev, detail@)->0);
            Some(s)
        },
        _ => None,
    }
}

/// A foreground command or pipeline enters the job table only when it stopped,
/// as a suspended job at the end named by its text; after an exit, a kill or
/// any other report the table is unchanged.
pub proof fn lemma_only_stopped_commands_become_jobs(
    jobs: Seq<JobView>,
    pgid: i32,
    command: Seq<char>,
    ev: WaitEvent,
)
    ensures
        ev is Stopped ==> record_stop(jobs, pgid, command, ev) == jobs.push(
            JobView { pgid, state: JobState::Suspended, command },
        ),
        !(ev is Stopped) ==> record_stop(jobs, pgid, command, ev) == jobs,
        (ev is Exited || ev is Signaled) ==> record_stop(jobs, pgid, command, ev).len()
            == jobs.len(),
{
}

/// `bg n` changes only the entry of job `n`: the table keeps its length, every
/// other job is unchanged, and job `n` keeps its process group and command and
/// is running if the signal was sent, or keeps its state if it was not.
pub proof fn lemma_resume_changes_only_its_job(
    jobs: Seq<JobView>,
    k: int,
    answer: Result<(), i32>,
)
    requires
        0 <= k < jobs.len(),
    ensures
        ({
            let r = resumed_table(jobs, k, answer);
            &&& r.len() == jobs.len()
            &&& forall|j: int| 0 <= j < jobs.len() && j != k ==> #[trigger] r[j] == jobs[j]
            &&& r[k].pgid == jobs[k].pgid
            &&& r[k].command == jobs[k].command
            &&& r[k].state == if answer is Ok {
                JobState::Running
            } else {
                jobs[k].state
            }
        }),
{
}

/// Settling the foreground job changes only that job: an exit or kill removes
/// exactly it, a stop marks exactly it suspended, and anything else leaves the
/// table as it is.
pub proof fn lemma_settle_changes_only_its_job(jobs: Seq<JobView>, k: int, ev: WaitEvent)
    requires
        0 <= k < jobs.len(),
    ensures
        ({
            let r = settle(jobs, k, ev);
            &&& (ev is Exited || ev is Signaled) ==> r.len() == jobs.len() - 1 && (forall|j: int|
                0 <= j < k ==> #[trigger] r[j] == jobs[j]) && (forall|j: int|
                k < j < jobs.len() ==> #[trigger] r[j - 1] == jobs[j])
            &&& ev is Stopped ==> r.len() == jobs.len() && (forall|j: int|
                0 <= j < jobs.len() && j != k ==> #[trigger] r[j] == jobs[j]) && r[k]
                == JobView { state: JobState::Suspended, ..jobs[k] }
            &&& !(ev is Exited || ev is Signaled || ev is Stopped) ==> r == jobs
        }),
{
}

/// The jobs paired with their flags.
pub open spec fn flagged(jobs: Seq<JobView>, keep: Seq<bool>) -> Seq<(JobView, bool)> {
    Seq::new(jobs.len(), |i: int| (jobs[i], keep[i]))
}

/// The pairs of a job and its flag whose flag is set, in order.
pub open spec fn set_pairs(ps: Seq<(JobView, bool)>) -> Seq<(JobView, bool)> {
    ps.filter(|p: (JobView, bool)| p.1)
}

/// The jobs of a sequence of pairs.
pub open spec fn pair_jobs(ps: Seq<(JobView, bool)>) -> Seq<JobView> {
    ps.map_values(|p: (JobView, bool)| p.0)
}

/// Polling keeps exactly the jobs whose flag is set, in table order: the
/// result is the table filtered by the flags.
pub proof fn lemma_kept_is_flag_filter(jobs: Seq<JobView>, keep: Seq<bool>)
    requires
        keep.len() >= jobs.len(),
    ensures
        kept(jobs, keep) == pair_jobs(set_pairs(flagged(jobs, keep))),
    decreases jobs.len(),
{
    let ps = flagged(jobs, keep);
    if jobs.len() == 0 {
        reveal(Seq::filter);
        assert(set_pairs(ps) =~= Seq::<(JobView, bool)>::empty());
        assert(pair_jobs(set_pairs(ps)) =~= Seq::<JobView>::empty());
    } else {
        lemma_kept_is_flag_filter(jobs.drop_last(), keep);
        reveal(Seq::filter);
        assert(ps.drop_last() =~= flagged(jobs.drop_last(), keep));
        let rest = set_pairs(flagged(jobs.drop_last(), keep));
        assert(ps.last() == (jobs.last(), keep[jobs.len() - 1]));
        if keep[jobs.len() - 1] {
            assert(set_pairs(ps) == rest.push(ps.last()));
            assert(pair_jobs(rest.push(ps.last())) =~= pair_jobs(rest).push(jobs.last()));
        } else {
            assert(set_pairs(ps) == rest);
        }
    }
}

} // verus!
