use ish::frecency::{builtin_z, candidates, extract_cd_target, no_match, z_target, ZStep};
use ish::fuzzy::{classify_match, subsequence_match};
use ish::history::{render_history_file, score_match, History, SyncStep};
use ish::history_cache::{encode_cache, parse_cache, parse_v4, shrink_refused, TS_EPOCH_MILLIS};
use ish::history_store::{CacheFile, SaveStep};
use ish::history_log::{
    escape_history_field, format_history_record, format_history_record_with_cwd,
    parse_history_line, unescape_history_field,
};
use ish::startup::{cache_path_for, history_path, history_path_for_home, lock_path_for};

fn strings(v: &[&str]) -> Vec<String> {
    v.iter().map(|s| s.to_string()).collect()
}

fn history(v: &[&str]) -> History {
    History::from_entries(&strings(v), 1000, 1)
}

#[test]
fn subsequence() {
    let q: Vec<char> = "gco".chars().collect();
    let (positions, count) = subsequence_match(&q, "git checkout").unwrap();
    assert_eq!(count, 3);
    assert_eq!(&positions[..3], &[0, 4, 9]);
}

#[test]
fn subsequence_no_match() {
    let q: Vec<char> = "xyz".chars().collect();
    assert!(subsequence_match(&q, "hello").is_none());
}

#[test]
fn recency_breaks_ties_within_same_tier() {
    let entries: Vec<String> = (0..100).map(|i| format!("cargo test {i}")).collect();
    let h = History::from_entries(&entries, 1000, 1);
    let results = h.fuzzy_search("cargo");
    assert_eq!(results[0].entry_idx, 99);
}

#[test]
fn prefix_tier_beats_boundary_substring() {
    let h = history(&["echo cargo", "cargo build"]);
    let results = h.fuzzy_search("cargo");
    assert_eq!(h.get(results[0].entry_idx), "cargo build");
}

#[test]
fn boundary_substring_tier_beats_plain_substring() {
    let h = history(&["foocargobar", "echo cargo"]);
    let results = h.fuzzy_search("cargo");
    assert_eq!(h.get(results[0].entry_idx), "echo cargo");
}

#[test]
fn substring_tier_beats_subsequence_fallback() {
    let h = history(&[
        "git remote add origin https://github.com/joshuarli/smtp-server.git",
        "ls target/debug/",
    ]);
    let results = h.fuzzy_search("target");
    assert_eq!(h.get(results[0].entry_idx), "ls target/debug/");
}

#[test]
fn search_into_sorts_before_limit() {
    let mut entries = vec!["cargo build".to_string()];
    entries.extend((0..220).map(|i| format!("c-x-{i}-a-x-r-x-g-x-o")));
    let h = History::from_entries(&entries, 1000, 1);
    let mut results = Vec::new();
    h.fuzzy_search_into("cargo", &mut results, 200, "ish");
    assert_eq!(h.get(results[0].entry_idx), "cargo build");
    assert!(results.iter().any(|m| h.get(m.entry_idx) == "cargo build"));
    assert_eq!(results.len(), 200);
}

#[test]
fn cwd_weight_prefers_ancestor_entries() {
    let mut hist = History::new(1);
    hist.add_in_dir("echo cargo", &Some("/work/project".to_string()), 1);
    hist.add_in_dir("cargo build", &Some("/other".to_string()), 2);

    let results = hist.fuzzy_search_in_dir("cargo", "/work/project/src");
    assert_eq!(hist.get(results[0].entry_idx), "echo cargo");
    assert_eq!(results[0].score, 6);

    let results = hist.fuzzy_search_in_dir("cargo", "/work/projects");
    assert_eq!(hist.get(results[0].entry_idx), "cargo build");
}

#[test]
fn cwd_metadata_round_trips_in_text_and_cache() {
    let cwd = "/tmp/dir/project\twith\\escapes";
    let mut hist = History::new(7);
    hist.add_in_dir("echo cwd", &Some(cwd.to_string()), 5);

    let mut file = Vec::new();
    for record in hist.records() {
        file.extend_from_slice(record.as_bytes());
        file.push(b'\n');
    }
    let loaded = History::load_from_text(&file, 0, 7);
    assert_eq!(loaded.entry_cwd(0).as_deref(), Some(cwd));

    let data = encode_cache(&hist.cache_entries());
    let parsed = parse_cache(&data).expect("v5 cache parse failed");
    assert_eq!(parsed[0].cwd.as_deref(), Some(cwd));
    let back = History::from_cache(&parsed, 7);
    assert_eq!(back.entry_cwd(0).as_deref(), Some(cwd));
    assert_eq!(back.get(0), "echo cwd");
}

#[test]
fn legacy_history_has_unknown_cwd() {
    let file = format_history_record(111, 7, "echo legacy").into_bytes();
    let hist = History::load_from_text(&file, 0, 1);
    assert_eq!(hist.get(0), "echo legacy");
    assert_eq!(hist.entry_cwd(0), None);
}

#[test]
fn parallel_vecs_sync_after_add() {
    let mut h = history(&["aaa", "bbb", "ccc"]);
    assert_eq!(h.len(), 3);
    assert_eq!(h.cache_entries().len(), 3);

    // Add duplicate — should remove old and append new
    h.add_in_dir("bbb", &None, 2000);
    assert_eq!(h.len(), 3); // aaa, ccc, bbb
    assert_eq!(h.cache_entries().len(), 3);
    assert_eq!(h.get(h.len() - 1), "bbb");

    // Add new
    h.add_in_dir("ddd", &None, 2001);
    assert_eq!(h.len(), 4);
    assert_eq!(h.cache_entries().len(), 4);
}

#[test]
fn timestamps_are_set() {
    let mut h = history(&["old"]);
    let before = 5000;
    h.add_in_dir("new_cmd", &None, 5001);
    let after = 5002;
    let ts = h.timestamp(h.len() - 1);
    assert!(ts >= before && ts <= after);
    assert_eq!(ts, 5001);
}

#[test]
fn v4_round_trip() {
    let entries = ["ls -la", "git status", "cargo test"];
    let ts: u64 = TS_EPOCH_MILLIS + 1234;
    let mut arena_buf: Vec<u8> = Vec::new();
    for e in entries {
        arena_buf.extend_from_slice(e.as_bytes());
        arena_buf.push(0);
    }
    let mut buf: Vec<u8> = Vec::new();
    buf.extend_from_slice(b"ISH\x04");
    buf.extend_from_slice(&3u32.to_le_bytes());
    buf.extend_from_slice(&(arena_buf.len() as u32).to_le_bytes());
    for _ in entries {
        buf.extend_from_slice(&ts.wrapping_sub(TS_EPOCH_MILLIS).to_le_bytes());
    }
    buf.extend_from_slice(&arena_buf);

    let parsed = parse_v4(&buf).expect("v4 round-trip failed");
    assert_eq!(parsed.len(), 3);
    assert_eq!(parsed[0].text, "ls -la");
    assert_eq!(parsed[1].text, "git status");
    assert_eq!(parsed[2].text, "cargo test");
    // Timestamps survive the round-trip
    for i in 0..3 {
        assert_eq!(parsed[i].timestamp, ts);
    }
    let hist = History::from_cache(&parse_cache(&buf).unwrap(), 1);
    assert_eq!(hist.len(), 3);
    assert_eq!(hist.get(2), "cargo test");
}

#[test]
fn structured_log_load_preserves_metadata() {
    let mut file = String::new();
    for record in [
        format_history_record(111, 7, "echo one"),
        format_history_record(222, 8, "echo two"),
        format_history_record(333, 9, "echo one"),
    ] {
        file.push_str(&record);
        file.push('\n');
    }
    let hist = History::load_from_text(&file.into_bytes(), 0, 1);
    assert_eq!(hist.len(), 2);
    assert_eq!(hist.get(0), "echo two");
    assert_eq!(hist.timestamp(0), 222);
    assert_eq!(hist.entry_session(0), 8);
    assert_eq!(hist.get(1), "echo one");
    assert_eq!(hist.timestamp(1), 333);
    assert_eq!(hist.entry_session(1), 9);
}

#[test]
fn render_history_file_strips_metadata() {
    let file = format!(
        "{}\nplain legacy line\n",
        format_history_record(111, 7, "echo one")
    );
    let rendered = render_history_file(&file.into_bytes(), 0);
    assert_eq!(rendered, "echo one\nplain legacy line\n");
}

#[test]
fn records_are_read_back() {
    let field = "a\tb\nc\\d";
    assert_eq!(
        unescape_history_field(&escape_history_field(field)).as_deref(),
        Some(field)
    );
    let record = format_history_record_with_cwd(9, 4, "/a\tb", "echo\n1");
    let back = parse_history_line(&record, 0).unwrap();
    assert_eq!(back.command, "echo\n1");
    assert_eq!(back.timestamp, 9);
    assert_eq!(back.session_id, 4);
    assert_eq!(back.cwd.as_deref(), Some("/a\tb"));
    assert!(parse_history_line("", 0).is_none());
    let legacy = parse_history_line("plain", 77).unwrap();
    assert_eq!(legacy.command, "plain");
    assert_eq!(legacy.timestamp, 77);
}

#[test]
fn corrupt_caches_are_refused() {
    assert!(parse_cache(&Vec::new()).is_none());
    assert!(parse_cache(&b"XXXX".to_vec()).is_none());
    let mut data = encode_cache(&history(&["a", "b"]).cache_entries());
    assert!(parse_cache(&data).is_some());
    assert!(shrink_refused(&data, 2).is_none());
    data.truncate(data.len() - 1);
    assert!(parse_cache(&data).is_none());
}

#[test]
fn prefix_search_goes_back() {
    let h = history(&["git status", "ls", "git log"]);
    assert_eq!(h.prefix_search("git", 0), Some("git log"));
    assert_eq!(h.prefix_search("git", 1), Some("git status"));
    assert_eq!(h.prefix_search("git", 2), None);
}

#[test]
fn added_command_is_recalled_first() {
    let mut h = history(&["a", "b"]);
    h.add_in_dir("  a  ", &None, 2000);
    assert_eq!(h.len(), 2);
    assert_eq!(h.prefix_search("", 0), Some("a"));
    assert!(h.add_in_dir("   ", &None, 3000).is_none());
    assert_eq!(h.len(), 2);
}

#[test]
fn longer_queries_narrow_the_search() {
    let h = history(&["cargo build", "cat x", "ls"]);
    let short = h.fuzzy_search("ca");
    let long = h.fuzzy_search("car");
    assert_eq!(short.len(), 2);
    assert_eq!(long.len(), 1);
    let mut candidates = Vec::new();
    h.visible_entry_indices_into(&mut candidates);
    let mut matched = Vec::new();
    let mut results = Vec::new();
    h.fuzzy_search_subset_into("car", &candidates, &mut matched, &mut results, 10);
    assert_eq!(results[0].entry_idx, long[0].entry_idx);
    assert_eq!(matched, [0]);
}

#[test]
fn searches_ignore_case() {
    let q: Vec<char> = "éa".chars().collect();
    let m = classify_match(&q, "xÉAy", 3).unwrap();
    assert_eq!(m.entry_idx, 3);
    assert_eq!(&m.match_positions[..2], &[1, 2]);
}

#[test]
fn other_shells_are_synced() {
    let mut h = history(&["a"]);
    h.start_session(5000, 10, false);
    assert!(matches!(h.sync_step(10), SyncStep::Nothing));
    assert!(matches!(h.sync_step(20), SyncStep::ReadTail));
    let tail = format!("{}\n", format_history_record(6000, 99, "from elsewhere"));
    h.sync(&tail, 6000, 20);
    assert_eq!(h.file_pos(), 20);
    assert_eq!(h.len(), 2);
    // What another shell ran after this one started does not show in it.
    assert_eq!(h.prefix_search("from", 0), Some("from elsewhere"));
    assert_eq!(h.session_prefix_search("from", 0), None);
}

#[test]
fn places_of_the_history() {
    let some = |s: &str| Some(s.as_bytes().to_vec());
    assert_eq!(history_path_for_home(&some("/h")), b"/h/.local/share/ish/history");
    assert_eq!(history_path_for_home(&None), b"/tmp/ish_history");
    assert_eq!(history_path(&some("/x"), &some("/h")), b"/x/ish/history");
    assert_eq!(history_path(&None, &some("/h")), b"/h/.local/share/ish/history");
    let path = b"/x/ish/history".to_vec();
    assert_eq!(cache_path_for(&path), b"/x/ish/history.bin");
    assert_eq!(lock_path_for(&path), b"/x/ish/history.lock");
    let path = vec![b'/', 0xff, b'/', 0xc3];
    assert_eq!(cache_path_for(&path), [b'/', 0xff, b'/', 0xc3, b'.', b'b', b'i', b'n']);
}

#[test]
fn history_path_uses_non_utf8_home() {
    let raw = vec![b'/', b't', b'm', b'p', b'/', 0xf0, 0x80, 0x80, b'h'];
    let path = history_path_for_home(&Some(raw.clone()));
    let mut expected = raw;
    expected.extend_from_slice(b"/.local/share/ish/history");
    assert_eq!(path, expected);
}

#[test]
fn extract_cd_simple() {
    assert_eq!(extract_cd_target("cd /tmp").as_deref(), Some("/tmp"));
    assert_eq!(extract_cd_target("cd ~/d/ish").as_deref(), Some("~/d/ish"));
    assert_eq!(extract_cd_target("z ish").as_deref(), Some("ish"));
}

#[test]
fn extract_cd_chained() {
    assert_eq!(extract_cd_target("cd /tmp && ls").as_deref(), Some("/tmp"));
    assert_eq!(extract_cd_target("cd src; make").as_deref(), Some("src"));
}

#[test]
fn extract_cd_no_match() {
    assert_eq!(extract_cd_target("git commit -m fix"), None);
    assert_eq!(extract_cd_target("echo cd"), None);
}

#[test]
fn extract_cd_dash() {
    assert_eq!(extract_cd_target("cd -").as_deref(), Some("-"));
    // The caller filters out "-"
    let found = candidates("-", &history(&["cd -", "cd -x"]), "/h");
    assert!(found.is_empty());
}

#[test]
fn frequent_and_recent_directories_come_first() {
    let h = history(&["cd /srv/ishmael", "cd ~/d/ish", "ls", "z /srv/ISH2", "cd /srv/other"]);
    let found = candidates("ish", &h, "/home/u");
    let paths: Vec<&str> = found.iter().map(|c| c.path.as_str()).collect();
    assert_eq!(paths, ["/srv/ISH2", "/home/u/d/ish", "/srv/ishmael"]);
    assert_eq!(found[0].score, 4);
    assert_eq!(
        z_target(&found, &vec![false, true, true]).as_deref(),
        Some("/home/u/d/ish")
    );
    assert_eq!(z_target(&found, &vec![false, false, false]), None);
    assert_eq!(no_match("ish"), "ish: z: no match for 'ish'\n");
    match builtin_z(&[], false, &h, "/home/u") {
        ZStep::Go(dir) => assert_eq!(dir, "/home/u"),
        ZStep::Choose(_) => unreachable!(),
    }
    match builtin_z(&strings(&["/tmp"]), true, &h, "/home/u") {
        ZStep::Go(dir) => assert_eq!(dir, "/tmp"),
        ZStep::Choose(_) => unreachable!(),
    }
    match builtin_z(&strings(&["ish"]), false, &h, "/home/u") {
        ZStep::Choose(c) => assert_eq!(c.len(), 3),
        ZStep::Go(_) => unreachable!(),
    }
}

#[test]
fn literal_tiers_of_positions() {
    let mut positions = [0u16; 32];
    positions[..3].copy_from_slice(&[0, 1, 2]);
    assert_eq!(score_match(&positions, 3, "git status", "ish"), 3);
    positions[..3].copy_from_slice(&[4, 5, 6]);
    assert_eq!(score_match(&positions, 3, "git status", "ish"), 2);
    positions[..3].copy_from_slice(&[5, 6, 7]);
    assert_eq!(score_match(&positions, 3, "git status", "ish"), 1);
    positions[..3].copy_from_slice(&[0, 4, 9]);
    assert_eq!(score_match(&positions, 3, "git checkout", "ish"), 0);
    assert_eq!(score_match(&positions, 0, "git checkout", "ish"), 0);
}

#[test]
fn session_get_counts_back_from_the_last() {
    let mut h = history(&["a", "b", "c"]);
    h.start_session(2000, 0, false);
    assert_eq!(h.session_get(0), Some("c"));
    assert_eq!(h.session_get(2), Some("a"));
    assert_eq!(h.session_get(3), None);
}

#[test]
fn searches_in_a_directory_agree() {
    let mut h = History::new(1);
    h.add_in_dir("make test", &Some("/work/ish".to_string()), 10);
    h.add_in_dir("make doc", &None, 20);
    let scored = h.fuzzy_search_scored("make", "/work/ish/src");
    assert_eq!(h.get(scored[0].entry_idx), "make test");
    let mut into = Vec::new();
    h.fuzzy_search_into_in_dir("make", &mut into, 1, "/work/ish");
    assert_eq!(into.len(), 1);
    assert_eq!(h.get(into[0].entry_idx), "make test");
    let mut matched = Vec::new();
    let mut results = Vec::new();
    h.fuzzy_search_subset_into_in_dir(
        "make",
        &vec![0, 1],
        &mut matched,
        &mut results,
        10,
        "/elsewhere",
    );
    assert_eq!(matched, vec![0, 1]);
    assert_eq!(h.get(results[0].entry_idx), "make doc");
}

#[test]
fn first_launch_builds_the_cache_from_the_log() {
    let log = b"ls\ngit status\nls\n".to_vec();
    let (h, save, report) = History::load_from(&CacheFile::Missing, &Some(log.clone()), 50, 9);
    assert!(save);
    assert_eq!(report, "");
    assert_eq!(h.len(), 2);
    assert_eq!(h.get(1), "ls");
    assert_eq!(h.file_pos(), log.len() as u64);
    assert_eq!(h.session_id(), 9);
    let (empty, save, _) = History::load_from(&CacheFile::Missing, &None, 50, 9);
    assert!(empty.is_empty() && !save);
}

#[test]
fn saved_history_is_loaded() {
    let mut h = History::new(3);
    h.add_in_dir("cargo test", &Some("/work".to_string()), 1_000_000_000_000);
    h.add_in_dir("ls", &None, 1_000_000_000_001);
    let SaveStep::Write(bytes) = h.save_cache(&None) else {
        panic!("the cache is written");
    };
    let log = b"git log\n".to_vec();
    let cache = CacheFile::Bytes(bytes);
    let (back, save, report) = History::load_from(&cache, &Some(log), 70, 4);
    assert!(!save);
    assert_eq!(report, "");
    assert_eq!(back.len(), 3);
    assert_eq!(back.get(0), "cargo test");
    assert_eq!(back.entry_cwd(0), Some("/work".to_string()));
    assert_eq!(back.timestamp(1), 1_000_000_000_001);
    assert_eq!(back.get(2), "git log");
}

#[test]
fn a_corrupt_cache_is_left_alone() {
    let cache = CacheFile::Bytes(b"nonsense".to_vec());
    let (h, save, report) = History::load_from(&cache, &Some(b"ls\n".to_vec()), 50, 1);
    assert!(!save);
    assert!(h.is_cache_dirty());
    assert_eq!(
        report,
        "ish: history cache corrupt (8 bytes) \u{2014} loading text file only\n"
    );
    assert_eq!(h.get(0), "ls");
    assert!(matches!(h.save_cache(&None), SaveStep::Keep));
    let (h, _, report) = History::load_from(&CacheFile::Unreadable, &None, 50, 1);
    assert!(h.is_cache_dirty());
    assert_eq!(report, "");
}

#[test]
fn a_large_cache_is_not_shrunk() {
    let many: Vec<String> = (0..300).map(|i| format!("echo {i}")).collect();
    let SaveStep::Write(large) = History::from_entries(&many, 10, 1).save_cache(&None) else {
        panic!("the cache is written");
    };
    let small = history(&["ls", "pwd"]);
    match small.save_cache(&Some(large)) {
        SaveStep::Refuse(text) => assert_eq!(
            text,
            "ish: refusing to shrink history cache from 300 to 2 entries\n"
        ),
        _ => panic!("refused"),
    }
}

#[test]
fn compacting_reads_the_log_from_its_start() {
    let mut h = history(&["ls"]);
    h.start_session(2000, 100, false);
    let step = h.compact(&Some(b"pwd\n".to_vec()), &None, 3000);
    assert!(matches!(step, SaveStep::Write(_)));
    assert_eq!(h.len(), 2);
    assert_eq!(h.get(1), "pwd");
    assert_eq!(h.file_pos(), 4);
}

#[test]
fn catching_up_with_a_shorter_or_invalid_log() {
    let mut h = history(&["ls"]);
    h.start_session(2000, 100, false);
    h.catch_up(&Some(b"pwd\n".to_vec()), 3000);
    assert_eq!(h.len(), 1);
    assert_eq!(h.file_pos(), 4);
    h.catch_up(&Some(vec![b'p', b'w', b'd', b'\n', 0xff]), 3000);
    assert_eq!(h.file_pos(), 4);
    h.catch_up(&None, 3000);
    assert_eq!(h.file_pos(), 4);
}

#[test]
fn rebuilding_starts_from_the_log() {
    let mut h = history(&["ls", "pwd"]);
    let (cache, report) = h.rebuild(&Some(b"make\n".to_vec()), 3000);
    assert_eq!(cache, encode_cache(&h.cache_entries()));
    assert_eq!(report, "ish: rebuilt history cache \u{2014} 1 entries\n");
    assert_eq!(h.len(), 1);
    assert_eq!(h.get(0), "make");
    assert_eq!(h.session_id(), 1);
}

#[test]
fn shells_share_what_they_record() {
    let mut first = History::new(1);
    let mut second = history(&["ls"]);
    second.start_session(2000, 0, false);
    let cwd = Some("/w\tith\ntabs".to_string());
    let record = first.add_in_dir("  echo a\nb  ", &cwd, 3000).unwrap();
    assert_eq!(record.lines().count(), 1);
    let log = format!("{record}\n").into_bytes();
    second.catch_up(&Some(log), 4000);
    assert_eq!(second.len(), 2);
    assert_eq!(second.get(1), "echo a b");
    assert_eq!(second.entry_cwd(1), cwd);
}
