use ish::alias::AliasMap;
use ish::env_changes::EnvChange;
use ish::exec::{
    child_step, continuation_after, exec_failure, execute, exit_status, expand_redirect,
    format_segments, next_segment, pipeline_status, plan_pipeline, plan_redirect,
    prepare_command, set_env_temp, show_pipeline, splice_alias, split_env_prefix,
    var_assignment_pos, wiring, ChildStep, ExecStep, OpenMode, RunPlan, WaitStatus, SUSPENDED,
};
use ish::external::{
    clear_screen, external, foreground_end, pipeline_child_end, spawn_failure, stopped_report,
    External, SpawnError,
};
use ish::job::{finish_resume, resume_job, Job, ResumeStart};
use ish::parse::{parse, CommandLine, Connector, Redirect, RedirectKind};

fn strings(v: &[&str]) -> Vec<String> {
    v.iter().map(|s| s.to_string()).collect()
}

#[test]
fn var_assignment_detection() {
    assert_eq!(var_assignment_pos("FOO=bar"), Some(3));
    assert_eq!(var_assignment_pos("A="), Some(1));
    assert_eq!(var_assignment_pos("_X=1"), Some(2));
    assert_eq!(var_assignment_pos("PATH=/usr/bin"), Some(4));
    // Not assignments
    assert_eq!(var_assignment_pos("=bar"), None);
    assert_eq!(var_assignment_pos("echo"), None);
    assert_eq!(var_assignment_pos("1FOO=bar"), None);
    assert_eq!(var_assignment_pos("FOO-X=bar"), None);
}

#[test]
fn env_prefix_splitting() {
    let mut argv = strings(&["FOO=bar", "echo", "hi"]);
    let env = split_env_prefix(&mut argv);
    assert_eq!(env, vec![("FOO".to_string(), "bar".to_string())]);
    assert_eq!(argv, vec!["echo", "hi"]);

    // Multiple assignments
    let mut argv = strings(&["A=1", "B=2", "cmd"]);
    let env = split_env_prefix(&mut argv);
    assert_eq!(env.len(), 2);
    assert_eq!(argv, vec!["cmd"]);

    // No assignments
    let mut argv = strings(&["echo", "FOO=bar"]);
    let env = split_env_prefix(&mut argv);
    assert!(env.is_empty());
    assert_eq!(argv, vec!["echo", "FOO=bar"]);

    // Bare assignment (all entries are assignments)
    let mut argv = strings(&["FOO=bar"]);
    let env = split_env_prefix(&mut argv);
    assert_eq!(env, vec![("FOO".to_string(), "bar".to_string())]);
    assert!(argv.is_empty());
}

#[test]
fn prefix_assignments_are_undone() {
    let env = vec![
        ("A".to_string(), "1".to_string()),
        ("A".to_string(), "2".to_string()),
        ("B".to_string(), "3".to_string()),
    ];
    let temp = set_env_temp(&env, &vec![Some("0".to_string()), Some("0".to_string()), None]);
    let mut a = Some("0".to_string());
    let mut b: Option<String> = None;
    for c in temp.set.iter().chain(temp.undo.iter()) {
        let (key, value) = match c {
            EnvChange::Assign(k, v) => (k, Some(v.clone())),
            EnvChange::Unset(k) => (k, None),
        };
        match key.as_str() {
            "A" => a = value,
            "B" => b = value,
            other => panic!("{other}"),
        }
    }
    assert_eq!(a, Some("0".to_string()));
    assert_eq!(b, None);
}

#[test]
fn alias_stands_in_for_the_command_once() {
    let mut aliases = AliasMap::new();
    aliases.set("ls".to_string(), strings(&["ls", "-l"]));
    assert_eq!(
        splice_alias(&strings(&["A=1", "ls", "ls"]), &aliases),
        strings(&["A=1", "ls", "-l", "ls"])
    );
    assert_eq!(splice_alias(&strings(&["cat"]), &aliases), strings(&["cat"]));
    assert_eq!(splice_alias(&strings(&["A=1"]), &aliases), strings(&["A=1"]));
}

#[test]
fn bare_assignment_runs_nothing() {
    assert!(prepare_command(strings(&["A=1"]), Vec::new(), false).is_none());
    let c = prepare_command(strings(&["A=1", "make"]), Vec::new(), true).unwrap();
    assert_eq!(c.argv, ["make"]);
    assert_eq!(c.env.len(), 1);
    assert!(c.pipe_stderr);
}

#[test]
fn one_builtin_runs_in_process() {
    let cmd = |v: &[&str]| prepare_command(strings(v), Vec::new(), false).unwrap();
    assert_eq!(plan_pipeline(&Vec::new()), RunPlan::Nothing);
    assert_eq!(plan_pipeline(&vec![cmd(&["cd", "/"])]), RunPlan::InProcess);
    assert_eq!(plan_pipeline(&vec![cmd(&["make"])]), RunPlan::Fork);
    assert_eq!(plan_pipeline(&vec![cmd(&["cd"]), cmd(&["cd"])]), RunPlan::Fork);
    assert_eq!(
        show_pipeline(&vec![cmd(&["A=1", "make", "x"]), cmd(&["wc"])]),
        "A=1 make x | wc"
    );
}

/// Runs a line whose pipelines end with given statuses; returns what ran and the last status.
fn run(line: &CommandLine, entry: Option<(i32, Connector)>, ends: &[i32]) -> (Vec<usize>, i32) {
    let mut ran = None;
    let mut order = Vec::new();
    loop {
        match execute(line, entry, ran, 0) {
            ExecStep::Run(i) => {
                order.push(i);
                ran = Some((i, ends[i]));
            }
            ExecStep::Done(status) => return (order, status),
            ExecStep::Suspended { .. } => return (order, SUSPENDED),
        }
    }
}

#[test]
fn connectors_decide_what_runs() {
    let line = parse("a && b || c ; d").unwrap();
    assert_eq!(run(&line, None, &[0, 0, 0, 5]), (vec![0, 1, 3], 5));
    assert_eq!(run(&line, None, &[1, 0, 0, 0]), (vec![0, 2, 3], 0));
    assert_eq!(run(&line, None, &[0, 1, 2, 3]), (vec![0, 1, 2, 3], 3));
    assert_eq!(next_segment(&line.segments, None, 1, 1), 2);
}

#[test]
fn resumed_chain_continues() {
    let line = parse("a && b || c ; d").unwrap();
    assert_eq!(run(&line, None, &[SUSPENDED, 0, 0, 7]), (vec![0], SUSPENDED));
    let left = match execute(&line, None, Some((0, SUSPENDED)), 0) {
        ExecStep::Suspended { cmd, continuation } => {
            assert_eq!(cmd, "a && b || c; d");
            continuation.unwrap()
        }
        _ => unreachable!(),
    };
    assert_eq!(left.connector, Connector::And);
    let rest = CommandLine { segments: left.segments };
    assert_eq!(rest.segments.len(), 3);
    // `a` succeeded: `b` runs, `c` does not
    assert_eq!(run(&rest, Some((0, Connector::And)), &[0, 0, 7]), (vec![0, 2], 7));
    // `a` failed: `b` does not run, `c` does
    assert_eq!(run(&rest, Some((1, Connector::And)), &[0, 0, 7]), (vec![1, 2], 7));
    assert!(continuation_after(&line.segments, 3).is_none());
}

#[test]
fn lines_are_shown_with_their_pipes() {
    let line = parse("a x &| b | c && d").unwrap();
    assert_eq!(format_segments(&line.segments), "a x &| b | c && d");
}

#[test]
fn statuses_of_processes() {
    assert_eq!(exit_status(WaitStatus::Exited(3)), 3);
    assert_eq!(exit_status(WaitStatus::Signaled(9)), 137);
    assert_eq!(exit_status(WaitStatus::Unknown), 1);
    assert_eq!(
        pipeline_status(&vec![WaitStatus::Exited(1), WaitStatus::Exited(0)]),
        0
    );
    assert_eq!(
        pipeline_status(&vec![WaitStatus::Stopped, WaitStatus::Exited(0)]),
        SUSPENDED
    );
}

#[test]
fn pipes_connect_neighbours() {
    let first = wiring(0, 2, true);
    assert!(first.leads && !first.input && first.output && first.errors);
    let last = wiring(1, 2, true);
    assert!(!last.leads && last.input && !last.output && !last.errors);
}

#[test]
fn redirections_open_their_targets() {
    assert_eq!(plan_redirect(RedirectKind::Append).mode, OpenMode::Append);
    let all = plan_redirect(RedirectKind::All);
    assert!(all.stdout && all.stderr && !all.stdin);
    let input = plan_redirect(RedirectKind::In);
    assert!(input.stdin && input.mode == OpenMode::Read);
    let r = Redirect { kind: RedirectKind::Out, target: "a\0$b".to_string() };
    assert_eq!(expand_redirect(&r, &None).target, "a$b");
    assert_eq!(expand_redirect(&r, &Some(strings(&["x", "y"]))).target, "x y");
}

#[test]
fn words_with_nul_are_refused() {
    assert!(matches!(child_step(&strings(&["pwd"])), ChildStep::Builtin));
    assert!(matches!(child_step(&strings(&["make", "x"])), ChildStep::Exec));
    match child_step(&strings(&["a\0b"])) {
        ChildStep::Fail { status, message } => {
            assert_eq!(status, 127);
            assert_eq!(message, "ish: invalid command name\n");
        }
        _ => unreachable!(),
    }
    match child_step(&strings(&["make", "a\0b"])) {
        ChildStep::Fail { status, message } => {
            assert_eq!(status, 126);
            assert_eq!(message, "ish: argument contains NUL byte\n");
        }
        _ => unreachable!(),
    }
    assert_eq!(
        exec_failure("x", true, "not here"),
        (127, "ish: x: not here\n".to_string())
    );
    assert_eq!(exec_failure("x", false, "denied").0, 126);
}

#[test]
fn suspended_job_is_resumed_once() {
    let mut job: Option<Job> = None;
    match resume_job(&mut job) {
        ResumeStart::Refused { report, status } => {
            assert_eq!(report, "ish: fg: no suspended job\n");
            assert_eq!(status, 1);
        }
        ResumeStart::Wake { .. } => unreachable!(),
    }
    job = Some(Job { pgid: 7, cmd: "vim".to_string(), continuation: None });
    let woken = match resume_job(&mut job) {
        ResumeStart::Wake { job, report } => {
            assert_eq!(report, "ish: resuming: vim\n");
            job
        }
        ResumeStart::Refused { .. } => unreachable!(),
    };
    assert!(job.is_none());
    let (status, left) = finish_resume(&mut job, woken, WaitStatus::Stopped);
    assert_eq!(status, SUSPENDED);
    assert!(left.is_none());
    assert_eq!(job.as_ref().unwrap().cmd, "vim");
    let again = match resume_job(&mut job) {
        ResumeStart::Wake { job, .. } => job,
        ResumeStart::Refused { .. } => unreachable!(),
    };
    assert_eq!(finish_resume(&mut job, again, WaitStatus::Exited(4)).0, 4);
    assert!(job.is_none());
}

#[test]
fn evaluator_is_answered() {
    match external(&strings(&["l", "-a", "x"])) {
        External::List(args) => assert_eq!(args, ["-a", "x"]),
        _ => unreachable!(),
    }
    assert!(matches!(external(&strings(&["c"])), External::Clear));
    assert!(matches!(external(&strings(&["history"])), External::History));
    assert!(matches!(external(&strings(&["make"])), External::Spawn));
    assert_eq!(clear_screen(), "\x1b[H\x1b[2J");
    assert_eq!(
        spawn_failure("x", SpawnError::NotFound),
        Some((127, "x: not found\n".to_string()))
    );
    assert_eq!(
        spawn_failure("x", SpawnError::PermissionDenied),
        Some((126, "x: permission denied\n".to_string()))
    );
    assert_eq!(spawn_failure("x", SpawnError::Other), None);
    assert_eq!(foreground_end(WaitStatus::Stopped), None);
    assert_eq!(foreground_end(WaitStatus::Signaled(2)), Some(130));
    assert_eq!(pipeline_child_end(None), 128);
    assert_eq!(pipeline_child_end(Some(3)), 3);
    assert_eq!(stopped_report("vim", 12), "ish: stopped: vim (pgid=12)\n");
}
