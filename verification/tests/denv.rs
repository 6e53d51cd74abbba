use ish::denv::{
    active_path, allow_dir, allowed_report, apply_bash_output_bench, cached_dir, command,
    command_outcome, data_dir, denied_report, diff_dotenv_only, dir_to_check, envrc_path,
    escape_newlines,
    eval_script, find_env_files, finish_refresh, init, is_allowed, is_up_to_date, load_active,
    loading_report, parse_denv_state, print_summary, push_sh_escaped, refresh, refresh_failed,
    save_active, start_refresh, state_var_fast_path_ok, state_var_matches, trust_key, trust_mark,
    unescape_newlines, ActiveState, DenvAction, EnvFiles, Load,
};
use ish::env_changes::{apply_diff, capture_prev, EnvChange};
use ish::env_files::{diff_sorted_env, parse_dotenv, parse_env_null, EnvDiff};
use std::collections::BTreeMap;

fn pairs(v: &[(&str, &str)]) -> Vec<(String, String)> {
    v.iter().map(|(k, w)| (k.to_string(), w.to_string())).collect()
}

fn text(s: &str) -> Option<String> {
    Some(s.to_string())
}

fn apply(env: &mut BTreeMap<String, String>, changes: &[EnvChange]) {
    for c in changes {
        match c {
            EnvChange::Assign(k, v) => {
                env.insert(k.clone(), v.clone());
            }
            EnvChange::Unset(k) => {
                env.remove(k);
            }
        }
    }
}

fn show(changes: &[EnvChange]) -> Vec<String> {
    changes
        .iter()
        .map(|c| match c {
            EnvChange::Assign(k, v) => format!("{k}={v}"),
            EnvChange::Unset(k) => format!("-{k}"),
        })
        .collect()
}

#[test]
fn parse_dotenv_skips_empty_and_comments() {
    assert!(parse_dotenv("").is_empty());
    assert!(parse_dotenv("# comment\n\n# another\n").is_empty());
}

#[test]
fn parse_dotenv_plain_and_export_prefix() {
    let entries = parse_dotenv("FOO=bar\nexport BAZ=qux");
    assert_eq!(entries.len(), 2);
    assert_eq!(entries[0].0, "FOO");
    assert_eq!(entries[0].1, "bar");
    assert_eq!(entries[1].0, "BAZ");
    assert_eq!(entries[1].1, "qux");
}

#[test]
fn parse_dotenv_double_quotes_unescape_common_sequences() {
    let entries = parse_dotenv("A=\"a\\nb\"\nB=\"c\\td\"\nC=\"say \\\"hi\\\"\"\nD=\"cost \\$5\"");
    assert_eq!(entries[0].1, "a\nb");
    assert_eq!(entries[1].1, "c\td");
    assert_eq!(entries[2].1, "say \"hi\"");
    assert_eq!(entries[3].1, "cost $5");
}

#[test]
fn parse_dotenv_single_quotes_are_literal() {
    let entries = parse_dotenv("A='a\\nb'");
    assert_eq!(entries[0].1, "a\\nb");
}

#[test]
fn parse_env_null_skips_shell_internal_vars() {
    let parsed = parse_env_null(&b"PWD=/tmp\0OLDPWD=/old\0SHLVL=1\0KEEP=yes\0".to_vec());
    assert_eq!(parsed, pairs(&[("KEEP", "yes")]));
}

#[test]
fn diff_sorted_env_reports_sets_and_unsets() {
    let before = pairs(&[("A", "1"), ("B", "2"), ("C", "3")]);
    let after = pairs(&[("A", "1"), ("B", "changed"), ("D", "4")]);
    let diff = diff_sorted_env(&before, &after);
    assert_eq!(
        diff.set,
        vec![
            ("B".to_string(), "changed".to_string()),
            ("D".to_string(), "4".to_string())
        ]
    );
    assert_eq!(diff.unset, vec!["C".to_string()]);
}

#[test]
fn escape_roundtrip_preserves_newlines_and_backslashes() {
    let original = "line1\nline2\\tail";
    let escaped = escape_newlines(original);
    assert_eq!(escaped, "line1\\nline2\\\\tail");
    let restored = unescape_newlines(&escaped);
    assert_eq!(restored, original);
}

#[test]
fn push_sh_escaped_handles_single_quotes() {
    let mut out = String::new();
    push_sh_escaped(&mut out, "it's here");
    assert_eq!(out, "'it'\\''s here'");
}

#[test]
fn parse_denv_state_supports_spaces_in_dir() {
    let parsed = parse_denv_state("1 2 /tmp/path with spaces").unwrap();
    assert_eq!(parsed.0, 1);
    assert_eq!(parsed.1, 2);
    assert_eq!(parsed.2, "/tmp/path with spaces");
    assert!(parse_denv_state("1 2").is_none());
    assert!(parse_denv_state("x 2 /tmp").is_none());
}

#[test]
fn apply_bash_output_bench_counts_directives() {
    let count = apply_bash_output_bench("export A='1';\nunset B;\nexport C='3';");
    assert_eq!(count, 3);
    assert_eq!(apply_bash_output_bench("export A\necho hi\n"), 0);
}

#[test]
fn state_var_fast_path_ok_uses_cached_dir() {
    let state = text("17 0 /tmp/project");
    assert_eq!(cached_dir(&state, "/tmp/project/src"), text("/tmp/project"));
    assert!(state_var_fast_path_ok(&state, "/tmp/project", Some(17), None));
    assert!(!state_var_fast_path_ok(&state, "/tmp/project", Some(18), None));
    assert!(!state_var_fast_path_ok(&state, "/tmp/project", None, None));
    assert!(!state_var_fast_path_ok(&state, "/tmp/projects", Some(17), None));
    assert!(!state_var_fast_path_ok(&None, "/tmp/project", Some(17), None));
    assert_eq!(cached_dir(&state, "/tmp"), None);
}

#[test]
fn leaving_restores_the_environment() {
    let mut env: BTreeMap<String, String> = BTreeMap::new();
    env.insert("A".into(), "1".into());
    env.insert("C".into(), "old".into());
    let before = env.clone();
    let diff = EnvDiff {
        set: pairs(&[("A", "2"), ("B", "new")]),
        unset: vec!["C".to_string(), "NOT_SET".to_string()],
    };
    let set_values: Vec<Option<String>> = diff.set.iter().map(|p| env.get(&p.0).cloned()).collect();
    let unset_values: Vec<Option<String>> = diff.unset.iter().map(|k| env.get(k).cloned()).collect();
    let prev = capture_prev(&diff, &set_values, &unset_values);
    assert_eq!(show(&prev), ["A=1", "-B", "C=old"]);
    let found = EnvFiles { dir: "/p".to_string(), envrc: Some(5), dotenv: None };
    let (step, active) = finish_refresh(&found, "/p", &diff, prev);
    apply(&mut env, &step.changes);
    assert_eq!(env["A"], "2");
    assert_eq!(env["B"], "new");
    assert!(!env.contains_key("C"));
    assert_eq!(env["__DENV_STATE"], "5 0 /p");
    assert_eq!(env["__DENV_DIR"], "/p");
    assert_eq!(step.report, "denv: +A +B -C -NOT_SET\n");

    let leave = start_refresh(&None, &Some(active), true, "", "");
    assert_eq!(leave.load, Load::Nothing);
    assert_eq!(leave.report, "denv: -A -B -C\n");
    apply(&mut env, &leave.changes);
    assert_eq!(env, before);
}

#[test]
fn difference_leads_from_one_environment_to_the_other() {
    let before = pairs(&[("A", "1"), ("B", "2"), ("C", "3")]);
    let after = pairs(&[("B", "2"), ("C", "4"), ("D", "5")]);
    let mut env: BTreeMap<String, String> = before.iter().cloned().collect();
    apply(&mut env, &apply_diff(&diff_sorted_env(&before, &after)));
    assert_eq!(env, after.into_iter().collect::<BTreeMap<_, _>>());
}

#[test]
fn active_state_is_read_back() {
    let state = ActiveState {
        dir: "/tmp/a b".to_string(),
        envrc_mtime: 12,
        dotenv_mtime: 0,
        prev: vec![
            EnvChange::Assign("PATH".to_string(), "one\ntwo\\three=four".to_string()),
            EnvChange::Unset("X".to_string()),
        ],
    };
    let content = save_active(&state);
    assert_eq!(content, "/tmp/a b\n12 0\nPATH=one\\ntwo\\\\three=four\nX\n");
    let back = load_active(&content).unwrap();
    assert_eq!(back.dir, "/tmp/a b");
    assert_eq!((back.envrc_mtime, back.dotenv_mtime), (12, 0));
    assert_eq!(show(&back.prev), show(&state.prev));
    assert!(load_active("/tmp\n").is_none());
    assert!(load_active("/tmp\n12\n").is_none());
    assert!(load_active("").is_none());
}

#[test]
fn trust_lasts_until_the_file_is_modified() {
    assert_eq!(trust_key("/a"), "2f61");
    assert_ne!(trust_key("/a"), trust_key("/b"));
    let mark = trust_mark(1700000000);
    assert_eq!(mark, "1700000000");
    assert!(is_allowed(&Some(mark.clone()), Some(1700000000)));
    assert!(is_allowed(&Some(format!("{mark}\n")), Some(1700000000)));
    assert!(!is_allowed(&Some(mark), Some(1700000001)));
    assert!(!is_allowed(&None, Some(1)));
    assert!(!is_allowed(&text("junk"), Some(1)));
    assert!(!is_allowed(&text("1"), None));
}

#[test]
fn data_directory_prefers_its_own_variable() {
    assert_eq!(data_dir(&text("/d"), &text("/x"), &text("/h")).unwrap(), "/d");
    assert_eq!(data_dir(&None, &text("/x"), &text("/h")).unwrap(), "/x/denv");
    assert_eq!(data_dir(&None, &None, &text("/h")).unwrap(), "/h/.local/share/denv");
    assert_eq!(
        data_dir(&None, &None, &None).unwrap_err(),
        "HOME, XDG_DATA_HOME, and DENV_DATA_DIR are all unset"
    );
    assert_eq!(allow_dir("/d"), "/d/allow");
    assert_eq!(active_path("/d", 42), "/d/active_42");
}

#[test]
fn innermost_files_hold() {
    let dirs = vec![
        EnvFiles { dir: "/a/b".to_string(), envrc: None, dotenv: None },
        EnvFiles { dir: "/a".to_string(), envrc: None, dotenv: Some(3) },
        EnvFiles { dir: "/".to_string(), envrc: Some(4), dotenv: None },
    ];
    let found = find_env_files(&dirs).unwrap();
    assert_eq!(found.dir, "/a");
    assert_eq!(found.dotenv, Some(3));
    assert_eq!(loading_report(&found), "denv: loading .env\n");
    let step = start_refresh(&Some(found), &None, false, "/p", "");
    assert_eq!(step.load, Load::Dotenv);
    assert!(find_env_files(&Vec::new()).is_none());
}

#[test]
fn blocked_files_are_not_loaded() {
    let found = Some(EnvFiles { dir: "/p".to_string(), envrc: Some(5), dotenv: None });
    let step = start_refresh(&found, &None, false, "/p", "/p/.envrc");
    assert_eq!(step.load, Load::Nothing);
    assert_eq!(
        step.report,
        "denv: /p/.envrc is blocked. Run `denv allow` to trust it.\n"
    );
    assert_eq!(
        show(&step.changes),
        ["__DENV_DIR=/p", "__DENV_DIRTY=1", "-__DENV_STATE"]
    );
    let step = start_refresh(&found, &None, true, "/p", "/p/.envrc");
    assert_eq!(step.load, Load::Script);
    assert!(step.changes.is_empty());
}

#[test]
fn failed_files_leave_a_mark() {
    let step = refresh_failed("/p", ".envrc evaluation failed");
    assert_eq!(step.report, "denv: .envrc evaluation failed\n");
    assert_eq!(
        show(&step.changes),
        ["__DENV_DIR=/p", "__DENV_DIRTY=1", "-__DENV_STATE"]
    );
}

#[test]
fn loaded_files_are_not_loaded_again() {
    let found = EnvFiles { dir: "/p".to_string(), envrc: Some(5), dotenv: None };
    assert!(state_var_matches(&found, &text("5 0 /p"), &None));
    assert!(state_var_matches(&found, &text("5 0 /real"), &text("/real")));
    assert!(!state_var_matches(&found, &text("6 0 /p"), &None));
    let active = Some(ActiveState {
        dir: "/p".to_string(),
        envrc_mtime: 5,
        dotenv_mtime: 0,
        prev: Vec::new(),
    });
    let found = Some(found);
    assert!(is_up_to_date(&found, &None, &None, &active, true));
    assert!(!is_up_to_date(&found, &None, &None, &active, false));
    assert!(!is_up_to_date(&None, &text("5 0 /p"), &None, &active, true));
}

#[test]
fn dotenv_alone_sets_what_differs() {
    let entries = pairs(&[("A", "1"), ("B", "2")]);
    let diff = diff_dotenv_only(&entries, &vec![text("1"), None]);
    assert_eq!(diff.set, pairs(&[("B", "2")]));
    assert!(diff.unset.is_empty());
}

#[test]
fn commands_of_denv() {
    let args = |s: &str| vec![s.to_string()];
    assert!(matches!(command(&args("allow")), DenvAction::Allow));
    assert!(matches!(command(&args("deny")), DenvAction::Deny));
    assert!(matches!(command(&args("reload")), DenvAction::Reload));
    assert!(matches!(command(&args("other")), DenvAction::Usage));
    assert!(matches!(command(&[]), DenvAction::Usage));
    let (outcome, told) = command_outcome(Err("no .envrc found".to_string()));
    assert_eq!(outcome.status, 1);
    assert!(outcome.changes.is_empty());
    assert_eq!(told, "denv: no .envrc found\n");
    let (outcome, told) = command_outcome(Ok(vec![EnvChange::Unset("A".to_string())]));
    assert_eq!(outcome.status, 0);
    assert_eq!(show(&outcome.changes), ["-A"]);
    assert!(told.is_empty());
}

#[test]
fn summary_hides_its_own_variables() {
    let names = |v: &[&str]| v.iter().map(|s| s.to_string()).collect::<Vec<_>>();
    assert_eq!(
        print_summary(&names(&["A", "__DENV_DIR"]), &names(&["B"])),
        "denv: +A -B\n"
    );
    assert_eq!(print_summary(&names(&["__DENV_DIR"]), &Vec::new()), "");
}

#[test]
fn script_copies_the_environment_before_and_after() {
    let script = eval_script(
        "set -e",
        "/d/before_1",
        &text("/p/.envrc"),
        &pairs(&[("A", "it's")]),
        "/d/after_1",
    );
    assert_eq!(
        script,
        "set -e\nenv -0 > '/d/before_1'\n. '/p/.envrc'\nexport A='it'\\''s'\nenv -0 > '/d/after_1'\n"
    );
}

#[test]
fn start_tells_programs_of_the_shell() {
    assert_eq!(show(&init(7)), ["__DENV_PID=7", "__DENV_SHELL=bash"]);
}

#[test]
fn only_an_envrc_can_be_trusted() {
    let files = |envrc| EnvFiles { dir: "/w".to_string(), envrc, dotenv: Some(5) };
    assert_eq!(envrc_path(&Some(files(Some(7)))), Ok("/w/.envrc".to_string()));
    assert_eq!(envrc_path(&Some(files(None))), Err("no .envrc found".to_string()));
    assert_eq!(envrc_path(&None), Err("no .envrc or .env found".to_string()));
    assert_eq!(allowed_report("/w/.envrc"), "denv: allowed /w/.envrc\n");
    assert_eq!(denied_report("/w/.envrc", true), "denv: denied /w/.envrc\n");
    assert_eq!(denied_report("/w/.envrc", false), "denv: not currently allowed\n");
}

#[test]
fn a_reload_is_forced() {
    let found = Some(EnvFiles { dir: "/p".to_string(), envrc: Some(5), dotenv: None });
    let state = text("5 0 /p");
    assert!(refresh(false, &found, &state, &None, &None, false, true, "/p", "/p/.envrc").is_none());
    let step = refresh(true, &found, &state, &None, &None, false, true, "/p", "/p/.envrc").unwrap();
    assert_eq!(step.load, Load::Script);
    assert!(step.changes.is_empty());
    assert_eq!(dir_to_check(false, &state, "/p/x").as_deref(), Some("/p"));
    assert_eq!(dir_to_check(true, &state, "/p/x"), None);
    let gone = refresh(false, &None, &state, &None, &None, false, true, "", "").unwrap();
    assert_eq!(gone.load, Load::Nothing);
    assert_eq!(gone.changes.len(), 3);
}
