use ish::ls::{
    build_entry, format_mode, format_time, human_size, list_dir, sanitize_name, sort_entries,
    BrokenTime, EntryInfo,
};

fn info(name: &str, mode: u32) -> EntryInfo {
    EntryInfo {
        name: name.to_string(),
        mode,
        is_link: mode & 0o170000 == 0o120000,
        is_dir: mode & 0o170000 == 0o040000,
        nlink: 1,
        owner: "josh".to_string(),
        group: "staff".to_string(),
        size: 384,
        date: "Mar 17 10:23".to_string(),
        target: None,
    }
}

#[test]
fn modes_are_written_as_ls_does() {
    assert_eq!(format_mode(0o040755), "drwxr-xr-x");
    assert_eq!(format_mode(0o100644), "-rw-r--r--");
    assert_eq!(format_mode(0o120777), "lrwxrwxrwx");
    assert_eq!(format_mode(0o104755), "-rwsr-xr-x");
    assert_eq!(format_mode(0o104644), "-rwSr--r--");
    assert_eq!(format_mode(0o102755), "-rwxr-sr-x");
    assert_eq!(format_mode(0o041777), "drwxrwxrwt");
    assert_eq!(format_mode(0o041776), "drwxrwxrwT");
    assert_eq!(format_mode(0o020600), "crw-------");
    assert_eq!(format_mode(0o060600), "brw-------");
    assert_eq!(format_mode(0o010600), "prw-------");
    assert_eq!(format_mode(0o140600), "srw-------");
}

#[test]
fn sizes_are_written_for_people() {
    assert_eq!(human_size(0), "0B");
    assert_eq!(human_size(1023), "1023B");
    assert_eq!(human_size(1024), "1.0K");
    assert_eq!(human_size(1280), "1.2K");
    assert_eq!(human_size(1792), "1.8K");
    assert_eq!(human_size(184 * 1024), "184.0K");
    assert_eq!(human_size(1024 * 1024 - 1), "1024.0K");
    assert_eq!(human_size(5 * 1024 * 1024 + 512 * 1024), "5.5M");
    assert_eq!(human_size(3 << 30), "3.0G");
}

#[test]
fn sizes_agree_with_floating_point() {
    let mut size: u64 = 1;
    while size < 1 << 45 {
        for s in [size, size + size / 3, size + size / 4, size + size / 7] {
            let want = if s < 1024 {
                format!("{s}B")
            } else if s < 1024 * 1024 {
                format!("{:.1}K", s as f64 / 1024.0)
            } else if s < 1024 * 1024 * 1024 {
                format!("{:.1}M", s as f64 / (1024.0 * 1024.0))
            } else {
                format!("{:.1}G", s as f64 / (1024.0 * 1024.0 * 1024.0))
            };
            assert_eq!(human_size(s), want, "{s}");
        }
        size = size * 3 / 2 + 1;
    }
}

#[test]
fn times_show_the_hour_or_the_year() {
    let tm = BrokenTime { year: 124, month: 2, day: 7, hour: 9, minute: 5 };
    assert_eq!(format_time(1000, 900, tm), "Mar  7 09:05");
    assert_eq!(format_time(900, 1000, tm), "Mar  7 09:05");
    assert_eq!(format_time(20_000_000, 0, tm), "Mar  7  2024");
    assert_eq!(format_time(15_552_000, 0, tm), "Mar  7  2024");
    assert_eq!(format_time(15_551_999, 0, tm), "Mar  7 09:05");
    let tm = BrokenTime { month: 12, ..tm };
    assert_eq!(format_time(0, 0, tm), "???  7 09:05");
}

#[test]
fn control_characters_do_not_reach_the_terminal() {
    assert_eq!(sanitize_name("plain é"), "plain é");
    assert_eq!(sanitize_name("a\nb\x1b[0m"), "a\u{FFFD}b\u{FFFD}[0m");
    assert_eq!(sanitize_name("a\u{9b}b"), "a\u{FFFD}b");
    let once = sanitize_name("\t\u{7f}");
    assert_eq!(sanitize_name(&once), once);
}

#[test]
fn entries_are_colored_by_kind() {
    let mut link = info("link", 0o120777);
    link.target = Some("target/debug".to_string());
    let link = build_entry(&link);
    assert_eq!(link.color_start, "\x1b[36m");
    assert_eq!(link.link_target.as_deref(), Some("target/debug"));
    let dir = build_entry(&info("src", 0o040755));
    assert_eq!(dir.display_name, "src/");
    assert_eq!(dir.color_start, "\x1b[34m");
    assert_eq!(build_entry(&info("su", 0o104755)).color_start, "\x1b[31m");
    assert_eq!(build_entry(&info("ish", 0o100755)).color_start, "\x1b[32m");
    assert_eq!(build_entry(&info("a.txt", 0o100644)).color_start, "");
}

#[test]
fn listing_is_sorted_whatever_the_case() {
    let entries = vec![
        build_entry(&info("b", 0o100644)),
        build_entry(&info("Élan", 0o100644)),
        build_entry(&info("A", 0o100644)),
        build_entry(&info("éa", 0o100644)),
    ];
    let names: Vec<String> =
        sort_entries(&entries).iter().map(|e| e.display_name.clone()).collect();
    assert_eq!(names, ["A", "b", "éa", "Élan"]);
}

#[test]
fn listing_stands_in_columns() {
    let mut big = info("ish", 0o100755);
    big.size = 184 * 1024;
    big.nlink = 12;
    let out = list_dir(&vec![build_entry(&info("Cargo.toml", 0o100644)), build_entry(&big)]);
    assert_eq!(
        out,
        "-rw-r--r--  1 josh  staff    384B Mar 17 10:23 Cargo.toml\n\
         -rwxr-xr-x 12 josh  staff  184.0K Mar 17 10:23 \x1b[32mish\x1b[0m\n"
    );
    assert_eq!(list_dir(&Vec::new()), "");
}
