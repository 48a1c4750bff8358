use heist::{
    detect_shell, infer_timestamps, parse_heist_live_history, parse_history, read_history,
    HistoryEntry, ShellType, Stamp,
};

fn lines(xs: &[&str]) -> Vec<String> {
    xs.iter().map(|s| s.to_string()).collect()
}

#[test]
fn bash_lines_give_one_untimed_record_each() {
    let ls = lines(&["  ls -la ", "", "git status", "   ", "\tmake\t"]);
    let r = read_history(ShellType::Bash, &ls, None);
    let cmds: Vec<&str> = r.iter().map(|e| e.command.as_str()).collect();
    assert_eq!(cmds, vec!["ls -la", "git status", "make"]);
    assert!(r.iter().all(|e| e.timestamp.is_none() && e.session_id.is_none()));
}

#[test]
fn zsh_timestamped_line() {
    let r = read_history(ShellType::Zsh, &lines(&[": 1700000000:0;ls -la"]), None);
    assert_eq!(r.len(), 1);
    assert_eq!(r[0].command, "ls -la");
    assert_eq!(r[0].timestamp.map(|t| t.secs), Some(1700000000));
}

#[test]
fn zsh_other_lines_kept_verbatim() {
    let r = read_history(ShellType::Zsh, &lines(&["echo hi", "", ": 12:x;oops", "  pwd "]), None);
    assert_eq!(r.len(), 3);
    assert_eq!(r[2].command, "  pwd ");
    assert!(r[2].timestamp.is_none());
    assert_eq!(r[0].command, "echo hi");
    assert!(r[0].timestamp.is_none());
    assert_eq!(r[1].command, ": 12:x;oops");
    assert!(r[1].timestamp.is_none());
}

#[test]
fn zsh_epoch_too_large_is_untimed() {
    let r = read_history(ShellType::Zsh, &lines(&[": 99999999999999999999:0;ls"]), None);
    assert_eq!(r.len(), 1);
    assert_eq!(r[0].command, "ls");
    assert!(r[0].timestamp.is_none());
}

#[test]
fn tcsh_tab_separated() {
    let r = read_history(ShellType::Tcsh, &lines(&["1700000000\tmake test", "abc\tls", "pwd"]), None);
    assert_eq!(r.len(), 3);
    assert_eq!(r[0].command, "make test");
    assert_eq!(r[0].timestamp.map(|t| t.secs), Some(1700000000));
    assert_eq!(r[1].command, "abc\tls");
    assert!(r[1].timestamp.is_none());
    assert_eq!(r[2].command, "pwd");
    assert!(r[2].timestamp.is_none());
}

#[test]
fn tcsh_signed_epoch() {
    let r = read_history(ShellType::Tcsh, &lines(&["-60\tx", "+60\ty", "+\tz"]), None);
    assert_eq!(r[0].timestamp.map(|t| t.secs), Some(-60));
    assert_eq!(r[1].timestamp.map(|t| t.secs), Some(60));
    assert!(r[2].timestamp.is_none());
    assert_eq!(r[2].command, "+\tz");
}

#[test]
fn fish_blocks() {
    let ls = lines(&[
        "- cmd: ls -la",
        "  when: 1700000000",
        "- cmd: git push",
        "  paths:",
        "- cmd: make",
        "  when: 1700000100",
    ]);
    let r = read_history(ShellType::Fish, &ls, None);
    assert_eq!(r.len(), 3);
    assert_eq!(r[0].command, "ls -la");
    assert_eq!(r[0].timestamp.map(|t| t.secs), Some(1700000000));
    assert_eq!(r[1].command, "git push");
    assert!(r[1].timestamp.is_none());
    assert_eq!(r[2].command, "make");
    assert_eq!(r[2].timestamp.map(|t| t.secs), Some(1700000100));
}

#[test]
fn fish_time_before_any_command_is_ignored() {
    let r = read_history(ShellType::Fish, &lines(&["  when: 5", "- cmd: ls"]), None);
    assert_eq!(r.len(), 1);
    assert!(r[0].timestamp.is_none());
}

#[test]
fn inferred_times_step_back_one_minute() {
    let anchor = Stamp { secs: 1_000_000, offset: 0 };
    let r = read_history(ShellType::Ksh, &lines(&["a", "", "b", "c"]), Some(anchor));
    let secs: Vec<Option<i64>> = r.iter().map(|e| e.timestamp.map(|t| t.secs)).collect();
    assert_eq!(secs, vec![Some(999_880), Some(999_940), Some(1_000_000)]);
    let cmds: Vec<&str> = r.iter().map(|e| e.command.as_str()).collect();
    assert_eq!(cmds, vec!["a", "b", "c"]);
}

#[test]
fn inferred_without_anchor_is_untimed() {
    let r = read_history(ShellType::Csh, &lines(&["a", "b"]), None);
    assert_eq!(r.len(), 2);
    assert!(r.iter().all(|e| e.timestamp.is_none()));
    assert_eq!(infer_timestamps(None, 3), vec![None, None, None]);
}

#[test]
fn infer_timestamps_counts() {
    let t = infer_timestamps(Some(Stamp { secs: 600, offset: 0 }), 2);
    assert_eq!(t.iter().map(|s| s.map(|x| x.secs)).collect::<Vec<_>>(), vec![Some(540), Some(600)]);
}

#[test]
fn live_log_lines() {
    let ls = lines(&["2024-06-09T12:34:56+0000| ls -la ", "no separator", "garbage|cmd"]);
    let r = parse_heist_live_history(&ls);
    assert_eq!(r.len(), 1);
    assert_eq!(r[0].command, "ls -la");
    assert_eq!(r[0].timestamp.map(|t| t.secs), Some(1717936496));
}

#[test]
fn parse_history_merges_sorts_and_dedups() {
    let file = lines(&[": 300:0;b", ": 100:0;a", ": 100:0;a", "plain"]);
    let live = lines(&["1970-01-01T00:03:20+0000|c"]);
    let r: Vec<HistoryEntry> = parse_history(ShellType::Zsh, &file, None, &live);
    let got: Vec<(Option<i64>, &str)> = r.iter().map(|e| (e.timestamp.map(|t| t.secs), e.command.as_str())).collect();
    assert_eq!(got, vec![(None, "plain"), (Some(100), "a"), (Some(200), "c"), (Some(300), "b")]);
}

#[test]
fn detect_shell_order() {
    assert_eq!(detect_shell("/usr/bin/zsh"), ShellType::Zsh);
    assert_eq!(detect_shell("/usr/bin/fish"), ShellType::Fish);
    assert_eq!(detect_shell("/bin/tcsh"), ShellType::Tcsh);
    assert_eq!(detect_shell("/bin/csh"), ShellType::Csh);
    assert_eq!(detect_shell("/bin/mksh"), ShellType::Ksh);
    assert_eq!(detect_shell("/bin/dash"), ShellType::Dash);
    assert_eq!(detect_shell("/bin/yash"), ShellType::Yash);
    assert_eq!(detect_shell("/bin/osh"), ShellType::Osh);
    assert_eq!(detect_shell("/bin/bash"), ShellType::Sh);
    assert_eq!(detect_shell("/bin/ash"), ShellType::Sh);
    assert_eq!(detect_shell(""), ShellType::Bash);
    assert_eq!(detect_shell("nu"), ShellType::Bash);
}

#[test]
fn history_files_per_dialect() {
    assert_eq!(ShellType::Bash.history_file(), ".bash_history");
    assert_eq!(ShellType::Fish.history_file(), ".local/share/fish/fish_history");
    assert_eq!(ShellType::Tcsh.history_file(), ".history");
    assert_eq!(ShellType::Ksh.history_file(), ".sh_history");
}

#[test]
fn stamp_fields() {
    let t = Stamp { secs: -1, offset: 0 };
    assert_eq!(t.hour(), 23);
    assert_eq!(t.weekday(), 2);
    assert_eq!(t.day_from_ce(), 719162);
    let m = Stamp { secs: 1704110400, offset: 3600 };
    assert_eq!(m.hour(), 13);
    assert_eq!(m.weekday(), 0);
    assert_eq!(Stamp::at(0).map(|s| s.secs), Some(0));
}

#[test]
fn empty_commands_are_skipped() {
    let fish = read_history(ShellType::Fish, &lines(&["- cmd: ", "  when: 5", "- cmd: ls"]), None);
    assert_eq!(fish.len(), 1);
    assert_eq!(fish[0].command, "ls");
    let zsh = read_history(ShellType::Zsh, &lines(&[": 1700000000:0;", ": 1700000000:0;  ", ": 5:0;pwd"]), None);
    assert_eq!(zsh.len(), 1);
    assert_eq!(zsh[0].command, "pwd");
    let live = parse_heist_live_history(&lines(&["2024-06-09T12:34:56+0000|", "2024-06-09T12:34:56+0000|  "]));
    assert!(live.is_empty());
    let all = parse_history(ShellType::Fish, &lines(&["- cmd: "]), None, &lines(&["2024-06-09T12:34:56+0000| "]));
    assert!(all.is_empty());
}

#[test]
fn valid_epochs_get_a_time() {
    assert_eq!(Stamp::at(1_700_000_000).map(|s| s.secs), Some(1_700_000_000));
    assert_eq!(Stamp::at(-8_000_000_000_000).map(|s| s.secs), Some(-8_000_000_000_000));
    assert!(Stamp::at(i64::MAX).is_none());
}
