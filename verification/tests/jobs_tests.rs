use shell::jobs::{
    add_job, bg, command_followup, fg_reclaims_terminal, job_list, pipeline_step, poll_job,
    place_job, reap_step, record_foreground, resume_job, retain_jobs, settle_job,
    await_foreground, CommandFollowup, Job, JobError, JobState, PipelineStep, Placement, ReapStep,
    WaitEvent, WaitMode, reap_message,
};

fn job(pgid: i32, state: JobState, command: &str) -> Job {
    Job { pgid, state, command: command.to_string() }
}

fn table() -> Vec<Job> {
    vec![
        job(100, JobState::Running, "sleep 10"),
        job(200, JobState::Suspended, "vim"),
        job(300, JobState::Running, "yes | head"),
    ]
}

#[test]
fn job_list_numbers_jobs_from_one() {
    let lines = job_list(&table());
    assert_eq!(
        lines,
        vec![
            "Index Status Command PGID",
            "1 Running sleep 10 100",
            "2 Suspended vim 200",
            "3 Running yes | head 300",
        ]
    );
    assert_eq!(job_list(&[]), vec!["Index Status Command PGID"]);
    assert_eq!(job_list(&[job(-7, JobState::Running, "x")])[1], "1 Running x -7");
}

#[test]
fn resume_rejects_numbers_past_the_table() {
    let jobs = table();
    assert!(matches!(resume_job(&jobs, 4), Err(JobError::OutOfBounds)));
}

#[test]
fn resume_reports_signal_failure() {
    // No process group has this number, so continuing it fails with ESRCH.
    let jobs = vec![job(i32::MAX, JobState::Suspended, "ghost")];
    let s = resume_job(&jobs, 1).unwrap();
    assert_eq!(s.group(), i32::MAX);
    assert_eq!(s.answer(), Err(nix::errno::Errno::ESRCH as i32));
}

#[test]
fn bg_out_of_bounds_leaves_table() {
    let mut jobs = table();
    assert!(matches!(bg(&mut jobs, 9), Err(JobError::OutOfBounds)));
    assert_eq!(jobs.len(), 3);
}

#[test]
fn bg_failure_leaves_table() {
    let mut jobs = vec![job(i32::MAX, JobState::Suspended, "ghost")];
    let s = bg(&mut jobs, 1).unwrap();
    assert_eq!(s.group(), i32::MAX);
    assert!(s.answer().is_err());
    assert_eq!(jobs[0].state, JobState::Suspended);
}

#[test]
fn settle_removes_finished_job() {
    let mut jobs = table();
    settle_job(&mut jobs, 1, WaitEvent::Exited { pid: 200, status: 0 });
    assert_eq!(jobs.iter().map(|j| j.pgid).collect::<Vec<_>>(), vec![100, 300]);
    let mut jobs = table();
    settle_job(&mut jobs, 0, WaitEvent::Signaled { pid: 100, signal: 9 });
    assert_eq!(jobs.iter().map(|j| j.pgid).collect::<Vec<_>>(), vec![200, 300]);
}

#[test]
fn settle_marks_stopped_job_suspended() {
    let mut jobs = table();
    settle_job(&mut jobs, 2, WaitEvent::Stopped { pid: 300, signal: 20 });
    assert_eq!(jobs.len(), 3);
    assert_eq!(jobs[2].state, JobState::Suspended);
    assert_eq!(jobs[0].state, JobState::Running);
    assert_eq!(jobs[2].command, "yes | head");
}

#[test]
fn settle_keeps_table_on_other_reports() {
    let mut jobs = table();
    settle_job(&mut jobs, 0, WaitEvent::Failed { errno: 4 });
    settle_job(&mut jobs, 0, WaitEvent::NoChild);
    settle_job(&mut jobs, 0, WaitEvent::StillAlive);
    assert_eq!(jobs.len(), 3);
    assert_eq!(jobs[0].state, JobState::Running);
}

#[test]
fn fg_reclaims_terminal_when_job_ends_or_stops() {
    assert!(fg_reclaims_terminal(WaitEvent::Exited { pid: 1, status: 0 }));
    assert!(fg_reclaims_terminal(WaitEvent::Signaled { pid: 1, signal: 2 }));
    assert!(fg_reclaims_terminal(WaitEvent::Stopped { pid: 1, signal: 20 }));
    assert!(!fg_reclaims_terminal(WaitEvent::NoChild));
    assert!(!fg_reclaims_terminal(WaitEvent::Other));
}

#[test]
fn add_job_appends() {
    let mut jobs = table();
    add_job(&mut jobs, 400, JobState::Running, "make".to_string());
    assert_eq!(jobs.len(), 4);
    assert_eq!(jobs[3].pgid, 400);
    assert_eq!(jobs[3].command, "make");
}

#[test]
fn record_foreground_adds_stopped_command() {
    let mut jobs = Vec::new();
    let name = "vim notes".to_string();
    record_foreground(&mut jobs, 55, &name, WaitEvent::Exited { pid: 55, status: 0 });
    assert!(jobs.is_empty());
    record_foreground(&mut jobs, 55, &name, WaitEvent::Stopped { pid: 55, signal: 20 });
    assert_eq!(jobs.len(), 1);
    assert_eq!(jobs[0].state, JobState::Suspended);
    assert_eq!(jobs[0].command, "vim notes");
}

#[test]
fn await_foreground_without_child_reports_no_child() {
    let mut jobs = table();
    let w = await_foreground(&mut jobs, 999_999, false, &"x".to_string());
    assert_eq!((w.target(), w.mode(), w.event()), (999_999, WaitMode::Untraced, WaitEvent::NoChild));
    let w = await_foreground(&mut jobs, 999_999, true, &"x".to_string());
    assert_eq!((w.target(), w.mode(), w.event()), (-999_999, WaitMode::Untraced, WaitEvent::NoChild));
    assert_eq!(jobs.len(), 3);
}

#[test]
fn poll_without_child_reports_no_child() {
    let w = poll_job(999_999);
    assert_eq!((w.target(), w.mode(), w.event()), (-999_999, WaitMode::NoHang, WaitEvent::NoChild));
    assert_eq!(reap_step(poll_job(999_999).event()), ReapStep::Drop);
}

#[test]
fn command_followups() {
    assert_eq!(command_followup(WaitEvent::Exited { pid: 1, status: 3 }), CommandFollowup::Reclaim);
    assert_eq!(
        command_followup(WaitEvent::Stopped { pid: 1, signal: 20 }),
        CommandFollowup::ReclaimOrReport
    );
    assert_eq!(command_followup(WaitEvent::Signaled { pid: 1, signal: 2 }), CommandFollowup::Reclaim);
    assert_eq!(command_followup(WaitEvent::NoChild), CommandFollowup::Report);
    assert_eq!(command_followup(WaitEvent::Failed { errno: 4 }), CommandFollowup::Report);
    assert_eq!(command_followup(WaitEvent::Other), CommandFollowup::Nothing);
}

#[test]
fn pipeline_steps() {
    assert_eq!(pipeline_step(WaitEvent::Exited { pid: 1, status: 0 }), PipelineStep::ReclaimAndWait);
    assert_eq!(
        pipeline_step(WaitEvent::Signaled { pid: 1, signal: 9 }),
        PipelineStep::ReclaimAndWait
    );
    assert_eq!(pipeline_step(WaitEvent::Stopped { pid: 1, signal: 20 }), PipelineStep::ReclaimAndStop);
    assert_eq!(pipeline_step(WaitEvent::NoChild), PipelineStep::Stop);
    assert_eq!(pipeline_step(WaitEvent::Failed { errno: 4 }), PipelineStep::ReportAndStop);
    assert_eq!(pipeline_step(WaitEvent::Other), PipelineStep::Wait);
}

#[test]
fn reap_steps() {
    assert_eq!(reap_step(WaitEvent::Exited { pid: 1, status: 0 }), ReapStep::PollAgain);
    assert_eq!(reap_step(WaitEvent::Signaled { pid: 1, signal: 9 }), ReapStep::PollAgain);
    assert_eq!(reap_step(WaitEvent::StillAlive), ReapStep::Keep);
    assert_eq!(reap_step(WaitEvent::Stopped { pid: 1, signal: 20 }), ReapStep::Keep);
    assert_eq!(reap_step(WaitEvent::Failed { errno: 4 }), ReapStep::Keep);
    assert_eq!(reap_step(WaitEvent::NoChild), ReapStep::Drop);
}

#[test]
fn retain_keeps_flagged_jobs_in_order() {
    let mut jobs = table();
    retain_jobs(&mut jobs, &vec![true, false, true]);
    assert_eq!(jobs.iter().map(|j| j.pgid).collect::<Vec<_>>(), vec![100, 300]);
    let mut jobs = table();
    retain_jobs(&mut jobs, &vec![true, true, true]);
    assert_eq!(jobs.len(), 3);
    let mut jobs = table();
    retain_jobs(&mut jobs, &vec![false, false, false]);
    assert!(jobs.is_empty());
}

#[test]
fn bg_marks_only_the_resumed_job_running() {
    // Continuing our own (running) process group succeeds and changes nothing else.
    let own = nix::unistd::getpgrp().as_raw();
    let mut jobs = vec![
        job(i32::MAX, JobState::Suspended, "other"),
        job(own, JobState::Suspended, "self"),
    ];
    let s = resume_job(&jobs, 2).unwrap();
    assert_eq!((s.group(), s.answer()), (own, Ok(())));
    let s = bg(&mut jobs, 2).unwrap();
    assert_eq!((s.group(), s.answer()), (own, Ok(())));
    assert_eq!(jobs[1].state, JobState::Running);
    assert_eq!(jobs[1].command, "self");
    assert_eq!(jobs[0].state, JobState::Suspended);
    assert_eq!(jobs.len(), 2);
}

#[test]
fn place_job_records_background_lines() {
    let mut jobs = table();
    let line = shell::parser::parse("sleep 5 | cat &");
    assert!(matches!(place_job(&mut jobs, 700, &line), Placement::Background));
    assert_eq!(jobs.len(), 4);
    assert_eq!(jobs[3].pgid, 700);
    assert_eq!(jobs[3].state, JobState::Running);
    assert_eq!(jobs[3].command, "sleep 5 | cat");
}

#[test]
fn place_job_leaves_foreground_lines_to_wait() {
    let mut jobs = table();
    let line = shell::parser::parse("vim  notes");
    match place_job(&mut jobs, 800, &line) {
        Placement::Foreground(name) => assert_eq!(name, "vim notes"),
        Placement::Background => panic!("foreground line placed in background"),
    }
    assert_eq!(jobs.len(), 3);
}

#[test]
fn reap_messages() {
    assert_eq!(
        reap_message(12, WaitEvent::Exited { pid: 13, status: 0 }, "").as_deref(),
        Some("[12] process 13 exited with status 0")
    );
    assert_eq!(
        reap_message(12, WaitEvent::Signaled { pid: 14, signal: 9 }, "SIGKILL").as_deref(),
        Some("[12] process 14 terminated by SIGKILL")
    );
    assert_eq!(reap_message(12, WaitEvent::NoChild, "").as_deref(), Some("[12] job finished"));
    assert_eq!(
        reap_message(12, WaitEvent::Failed { errno: 4 }, "EINTR: Interrupted system call").as_deref(),
        Some("waitpid error for [12]: EINTR: Interrupted system call")
    );
    assert_eq!(reap_message(12, WaitEvent::StillAlive, "x"), None);
}

#[test]
fn mark_resumed_follows_the_answer() {
    let mut jobs = table();
    shell::jobs::mark_resumed(&mut jobs, 1, Err(3));
    assert_eq!(jobs[1].state, JobState::Suspended);
    shell::jobs::mark_resumed(&mut jobs, 1, Ok(()));
    assert_eq!(jobs[1].state, JobState::Running);
}
