use shell::builtins::BuiltinResult;
use shell::jobs::{
    builtin_jobs, clear_finished_jobs, done_notice, reap_exited_jobs, register_background_job,
    report_finished_jobs, running_pids, sorted_ids, JobContext,
};

fn output_text(r: BuiltinResult) -> (Option<String>, Option<String>) {
    match r {
        BuiltinResult::Output(o) => (o.stdout, o.stderr),
        BuiltinResult::Exit => panic!("unexpected exit"),
    }
}

fn two_jobs() -> JobContext {
    let mut jobs = JobContext::new();
    let a = register_background_job(&mut jobs, "sleep", &["5".to_string()], 100);
    let b = register_background_job(&mut jobs, "sleep", &["10".to_string()], 200);
    assert_eq!((a, b), (1, 2));
    jobs
}

#[test]
fn jobs_new_is_empty() {
    let jobs = JobContext::new();
    assert!(jobs.job_table.is_empty());
    assert_eq!(jobs.recent_job_id, 0);
}

#[test]
fn jobs_register_records_running_job() {
    let jobs = two_jobs();
    assert_eq!(jobs.recent_job_id, 2);
    let job = &jobs.job_table[&1];
    assert_eq!(job.command, "sleep 5");
    assert_eq!(job.pid, Some(100));
    assert_eq!(&job.status[..7], b"Running");
    assert!(job.status[7..].iter().all(|b| *b == b' '));
    assert_eq!(running_pids(&jobs.job_table), vec![100, 200]);
    assert_eq!(sorted_ids(&jobs.job_table), vec![1, 2]);
}

#[test]
fn jobs_register_without_args_keeps_trailing_space() {
    let mut jobs = JobContext::new();
    register_background_job(&mut jobs, "ls", &[], 7);
    assert_eq!(jobs.job_table[&1].command, "ls ");
}

#[test]
fn jobs_builtin_lists_and_clears_done() {
    let mut jobs = two_jobs();
    let (out, err) = output_text(builtin_jobs(&[], &mut jobs, &[(100, 0)]));
    assert_eq!(out.unwrap(), "[1]- Done sleep 5\n[2]+ Running sleep 10");
    assert!(err.is_none());
    assert_eq!(jobs.job_table.len(), 1);
    assert!(jobs.job_table.contains_key(&2));
    assert_eq!(jobs.recent_job_id, 2);
}

#[test]
fn jobs_builtin_on_empty_table_prints_nothing() {
    let mut jobs = JobContext::new();
    let (out, err) = output_text(builtin_jobs(&[], &mut jobs, &[]));
    assert!(out.is_none() && err.is_none());
}

#[test]
fn jobs_markers_for_three_jobs() {
    let mut jobs = JobContext::new();
    for pid in [11, 12, 13] {
        register_background_job(&mut jobs, "job", &[pid.to_string()], pid);
    }
    let (out, _) = output_text(builtin_jobs(&[], &mut jobs, &[]));
    assert_eq!(out.unwrap(), "[1]  Running job 11\n[2]- Running job 12\n[3]+ Running job 13");
}

#[test]
fn jobs_reap_marks_done_and_reports_events() {
    let mut jobs = two_jobs();
    let events = reap_exited_jobs(&mut jobs.job_table, &[(200, 3), (999, 1)]);
    assert_eq!(events.len(), 1);
    assert_eq!(events[0].job_id, 2);
    assert_eq!(events[0].pid, 200);
    assert_eq!(events[0].exit_code, 3);
    assert_eq!(events[0].command, "sleep 10");
    assert_eq!(jobs.job_table[&2].pid, None);
    assert_eq!(&jobs.job_table[&2].status[..4], b"Done");
    assert_eq!(jobs.job_table[&1].pid, Some(100));
    assert_eq!(done_notice(&events[0]), "[2]+ Done\tsleep 10");
}

#[test]
fn jobs_first_exit_code_counts() {
    let mut jobs = two_jobs();
    let events = reap_exited_jobs(&mut jobs.job_table, &[(100, 5), (100, 6)]);
    assert_eq!(events[0].exit_code, 5);
}

#[test]
fn jobs_clear_finished_keeps_running() {
    let mut jobs = two_jobs();
    reap_exited_jobs(&mut jobs.job_table, &[(100, 0)]);
    clear_finished_jobs(&mut jobs.job_table);
    assert_eq!(sorted_ids(&jobs.job_table), vec![2]);
}

#[test]
fn jobs_report_finished_only() {
    let mut jobs = two_jobs();
    let lines = report_finished_jobs(&mut jobs.job_table, &[(100, 0)]);
    assert_eq!(lines, vec!["[1]- Done sleep 5"]);
    assert_eq!(sorted_ids(&jobs.job_table), vec![2]);
}

#[test]
fn jobs_unknown_status_bytes() {
    let mut jobs = two_jobs();
    jobs.job_table.get_mut(&1).unwrap().status = [0xff; 24];
    let (out, _) = output_text(builtin_jobs(&[], &mut jobs, &[]));
    assert_eq!(out.unwrap(), "[1]- Unknown sleep 5\n[2]+ Running sleep 10");
}

#[test]
fn jobs_ids_keep_growing_after_clear() {
    let mut jobs = two_jobs();
    builtin_jobs(&[], &mut jobs, &[(100, 0), (200, 0)]);
    assert!(jobs.job_table.is_empty());
    let id = register_background_job(&mut jobs, "true", &[], 300);
    assert_eq!(id, 3);
}
