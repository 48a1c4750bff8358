use chrono::{Local, TimeZone};
use heist::{
    flag_dangerous, group_sessions, heatmap_stats, per_directory_stats, per_host_stats,
    suggest_aliases, time_of_day_stats, CliArgs, HistoryEntry, Stamp,
};

fn local(y: i32, mo: u32, d: u32, h: u32, mi: u32, s: u32) -> Stamp {
    let t = Local.with_ymd_and_hms(y, mo, d, h, mi, s).unwrap();
    Stamp { secs: t.timestamp(), offset: t.offset().local_minus_utc() }
}

#[test]
fn test_empty_history() {
    let _args = CliArgs {
        shell: None,
        cli: false,
        filter: None,
        search: None,
        range: None,
        suggest_aliases: false,
        flag_dangerous: false,
        per_directory: false,
        per_host: false,
        time_of_day: false,
        heatmap: false,
        top: None,
        session_summary: false,
        export: None,
    };
    let entries: Vec<HistoryEntry> = vec![];
    assert!(entries.is_empty());
}

#[test]
fn test_history_entry_fields() {
    let entry = HistoryEntry { timestamp: None, command: "ls -la".to_string(), session_id: None };
    assert_eq!(entry.command, "ls -la");
}

#[test]
fn analyzer_test_time_of_day_stats_empty() {
    let history: Vec<HistoryEntry> = vec![];
    let hours = time_of_day_stats(&history);
    assert_eq!(hours, vec![0usize; 24]);
}

#[test]
fn test_time_of_day_stats_basic() {
    let history = vec![
        HistoryEntry { timestamp: Some(local(2024, 1, 1, 12, 0, 0)), command: "ls".into(), session_id: None },
        HistoryEntry { timestamp: Some(local(2024, 1, 1, 12, 30, 0)), command: "cd /".into(), session_id: None },
    ];
    let hours = time_of_day_stats(&history);
    assert_eq!(hours[12], 2);
    assert_eq!(hours.iter().sum::<usize>(), 2);
}

#[test]
fn analyzer_test_heatmap_stats_empty() {
    let history: Vec<HistoryEntry> = vec![];
    let map = heatmap_stats(&history);
    assert_eq!(map.len(), 7);
    assert!(map.iter().all(|row| row.len() == 24 && row.iter().all(|&c| c == 0)));
}

#[test]
fn test_heatmap_stats_basic() {
    let history = vec![
        HistoryEntry { timestamp: Some(local(2024, 1, 1, 12, 0, 0)), command: "ls".into(), session_id: None },
        HistoryEntry { timestamp: Some(local(2024, 1, 2, 13, 0, 0)), command: "cd /".into(), session_id: None },
    ];
    let map = heatmap_stats(&history);
    assert_eq!(map[0][12], 1);
    assert_eq!(map[1][13], 1);
}

#[test]
fn test_group_sessions() {
    let ts1 = local(2024, 1, 1, 10, 0, 0);
    let ts2 = local(2024, 1, 1, 10, 5, 0);
    let ts3 = local(2024, 1, 1, 11, 0, 0);
    let h1 = HistoryEntry { timestamp: Some(ts1), command: "ls".into(), session_id: None };
    let h2 = HistoryEntry { timestamp: Some(ts2), command: "cd /".into(), session_id: None };
    let h3 = HistoryEntry { timestamp: Some(ts3), command: "pwd".into(), session_id: None };
    let all = vec![h1, h2, h3];
    let refs: Vec<&HistoryEntry> = all.iter().collect();
    let sessions = group_sessions(&refs, 10);
    assert_eq!(sessions.len(), 2);
}

#[test]
fn test_suggest_aliases() {
    let history = vec![
        HistoryEntry { timestamp: None, command: "verylongcommand --with --many --args".into(), session_id: None },
        HistoryEntry { timestamp: None, command: "verylongcommand --with --many --args".into(), session_id: None },
    ];
    let s = suggest_aliases(&history);
    assert_eq!(s.len(), 1);
    assert_eq!(s[0].alias, "a1");
    assert_eq!(s[0].command, "verylongcommand --with --many --args");
    assert_eq!(s[0].count, 2);
}

#[test]
fn test_flag_dangerous() {
    let history = vec![HistoryEntry { timestamp: None, command: "rm -rf /".into(), session_id: None }];
    let flags = flag_dangerous(&history);
    assert_eq!(flags.len(), 1);
    assert_eq!(flags[0].command, "rm -rf /");
    assert_eq!(flags[0].pattern, "rm -rf");
}

#[test]
fn test_per_directory_stats() {
    let history = vec![
        HistoryEntry { timestamp: None, command: "cd /tmp".into(), session_id: None },
        HistoryEntry { timestamp: None, command: "ls".into(), session_id: None },
    ];
    let stats = per_directory_stats(&history);
    assert_eq!(stats, vec![("/tmp".to_string(), 2)]);
}

#[test]
fn test_per_host_stats() {
    let history = vec![HistoryEntry { timestamp: None, command: "ls".into(), session_id: None }];
    let stats = per_host_stats(&history, "box");
    assert_eq!(stats, vec![("box".to_string(), 1)]);
}

#[test]
fn analyzer_tests_test_time_of_day_stats_empty() {
    let history: Vec<HistoryEntry> = vec![];
    let hours = time_of_day_stats(&history);
    assert_eq!(hours.len(), 24);
    assert!(hours.iter().all(|&c| c == 0));
}

#[test]
fn analyzer_tests_test_heatmap_stats_empty() {
    let history: Vec<HistoryEntry> = vec![];
    let map = heatmap_stats(&history);
    assert!(map.iter().flatten().all(|&c| c == 0));
}
