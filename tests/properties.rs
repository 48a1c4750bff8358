use heist::{
    build_sessions, danger_pattern, per_directory_stats, density_symbol, directory_attribution, group_sessions,
    heatmap_stats, normalize, rank_counts, select_entries, top_commands, HistoryEntry, Query,
    QueryError, Stamp,
};

fn at(secs: i64, cmd: &str) -> HistoryEntry {
    HistoryEntry { timestamp: Some(Stamp { secs, offset: 0 }), command: cmd.to_string(), session_id: None }
}

fn untimed(cmd: &str) -> HistoryEntry {
    HistoryEntry { timestamp: None, command: cmd.to_string(), session_id: None }
}

fn view(es: &[HistoryEntry]) -> Vec<(Option<i64>, String)> {
    es.iter().map(|e| (e.timestamp.map(|t| t.secs), e.command.clone())).collect()
}

#[test]
fn normalize_twice_concatenated_equals_once() {
    let l = vec![at(50, "b"), untimed("x"), at(10, "a"), at(50, "b")];
    let mut ll: Vec<HistoryEntry> = l.iter().map(|e| e.copy()).collect();
    ll.extend(l.iter().map(|e| e.copy()));
    let once = normalize(&l);
    assert_eq!(view(&once), vec![(None, "x".to_string()), (Some(10), "a".to_string()), (Some(50), "b".to_string())]);
    assert_eq!(view(&normalize(&ll)), view(&once));
    assert_eq!(view(&normalize(&once)), view(&once));
}

#[test]
fn normalize_keeps_order_of_equal_times() {
    let l = vec![untimed("b"), untimed("a"), untimed("a"), untimed("b")];
    let r = normalize(&l);
    let cmds: Vec<String> = r.iter().map(|e| e.command.clone()).collect();
    assert_eq!(cmds, vec!["b", "a", "b"]);
}

#[test]
fn sessions_split_on_gap() {
    let t = 1_700_000_000;
    let es = vec![at(t, "a"), at(t + 300, "b"), at(t + 1200, "c")];
    let refs: Vec<&HistoryEntry> = es.iter().collect();
    let s = group_sessions(&refs, 10);
    assert_eq!(s.iter().map(|g| g.len()).collect::<Vec<_>>(), vec![2, 1]);
}

#[test]
fn sessions_untimed_join_open_session() {
    let es = vec![untimed("x"), at(0, "a"), untimed("y"), at(601, "b"), at(1262, "c")];
    let refs: Vec<&HistoryEntry> = es.iter().collect();
    let s = group_sessions(&refs, 10);
    assert_eq!(s.iter().map(|g| g.len()).collect::<Vec<_>>(), vec![3, 1, 1]);
    let empty: Vec<&HistoryEntry> = vec![];
    assert!(group_sessions(&empty, 10).is_empty());
}

#[test]
fn built_sessions_carry_ids_and_bounds() {
    let es = vec![untimed("x"), at(0, "a"), at(60, "b"), at(2000, "c")];
    let s = build_sessions(&es, 10);
    assert_eq!(s.len(), 2);
    assert_eq!(s[0].id, 0);
    assert_eq!(s[0].start.map(|t| t.secs), Some(0));
    assert_eq!(s[0].end.map(|t| t.secs), Some(60));
    assert!(s[0].commands.iter().all(|e| e.session_id == Some(0)));
    assert_eq!(s[1].commands.len(), 1);
    assert_eq!(s[1].commands[0].session_id, Some(1));
}

#[test]
fn dangerous_pattern_scenario() {
    assert_eq!(danger_pattern("rm -rf /"), Some("rm -rf"));
    assert_eq!(danger_pattern("ls -la"), None);
    assert_eq!(danger_pattern("sudo rm -rf --no-preserve-root /"), Some("rm -rf"));
    assert_eq!(danger_pattern("echo > /dev/sda"), Some("> /dev/sda"));
}

#[test]
fn heatmap_monday_and_tuesday() {
    let monday_noon = 1704110400;
    let es = vec![at(monday_noon, "ls"), at(monday_noon + 86400 + 3600, "cd /")];
    let map = heatmap_stats(&es);
    for d in 0..7 {
        for h in 0..24 {
            let want = if (d, h) == (0, 12) || (d, h) == (1, 13) { 1 } else { 0 };
            assert_eq!(map[d][h], want);
        }
    }
}

#[test]
fn density_tiers() {
    let got: Vec<char> = [0usize, 1, 2, 3, 5, 6, 10, 11].iter().map(|&c| density_symbol(c)).collect();
    assert_eq!(got, vec![' ', '.', '.', '*', '*', 'o', 'o', '#']);
}

#[test]
fn top_ties_keep_first_appearance() {
    let es = vec![untimed("git a"), untimed("ls"), untimed("make"), untimed("ls -l"), untimed("git b"), untimed("make x")];
    let top = top_commands(&es, 10);
    assert_eq!(top, vec![("git".to_string(), 2), ("ls".to_string(), 2), ("make".to_string(), 2)]);
    let es2 = vec![untimed("git"), untimed("git"), untimed("ls"), untimed("make"), untimed("ls"), untimed("make")];
    assert_eq!(top_commands(&es2, 10), top);
    assert_eq!(top_commands(&es, 2), vec![("git".to_string(), 2), ("ls".to_string(), 2)]);
}

#[test]
fn top_counts_rank_first() {
    let es = vec![untimed("a"), untimed("b"), untimed("b"), untimed("   "), untimed("c"), untimed("b")];
    assert_eq!(
        top_commands(&es, 3),
        vec![("b".to_string(), 3), ("a".to_string(), 1), ("".to_string(), 1)]
    );
}

#[test]
fn rank_counts_plain() {
    let keys: Vec<String> = ["x", "y", "y", "z", "x", "y"].iter().map(|s| s.to_string()).collect();
    assert_eq!(rank_counts(&keys), vec![("y".to_string(), 3), ("x".to_string(), 2), ("z".to_string(), 1)]);
}

#[test]
fn directory_cursor() {
    let es = vec![untimed("ls"), untimed("cd  /tmp "), untimed("ls"), untimed("cd"), untimed("cd /etc")];
    let d = directory_attribution(&es);
    assert_eq!(d, vec!["~", "/tmp", "/tmp", "/tmp", "/etc"]);
}

#[test]
fn select_by_prefix_and_regex() {
    let es = vec![untimed("git push"), untimed("ls"), untimed("git status")];
    let q = Query { filter: Some("git".into()), search: Some("st".into()), range: None };
    let r = select_entries(&es, &q).unwrap();
    assert_eq!(r.len(), 1);
    assert_eq!(r[0].command, "git status");
}

#[test]
fn select_invalid_regex() {
    let es = vec![untimed("ls")];
    let q = Query { filter: None, search: Some("(".into()), range: Some("bad".into()) };
    assert_eq!(select_entries(&es, &q).unwrap_err(), QueryError::InvalidSearchPattern);
    let q2 = Query { filter: None, search: Some("a+t$".into()), range: None };
    let found = select_entries(&vec![untimed("caat"), untimed("cat s")], &q2).unwrap();
    assert_eq!(found.len(), 1);
    assert_eq!(found[0].command, "caat");
}

#[test]
fn select_by_date_range() {
    let jan1 = 1704067200;
    let es = vec![at(jan1, "a"), at(jan1 + 86400, "b"), untimed("c"), at(jan1 + 3 * 86400, "d")];
    let q = Query { filter: None, search: None, range: Some("2024-01-01:2024-01-02".into()) };
    let r = select_entries(&es, &q).unwrap();
    let cmds: Vec<&str> = r.iter().map(|e| e.command.as_str()).collect();
    assert_eq!(cmds, vec!["a", "b"]);
    let bad = Query { filter: None, search: None, range: Some("2024-13-01:2024-01-02".into()) };
    assert_eq!(select_entries(&es, &bad).unwrap_err(), QueryError::InvalidStartDate);
    let bad_end = Query { filter: None, search: None, range: Some("2024-01-01:2024-02-30".into()) };
    assert_eq!(select_entries(&es, &bad_end).unwrap_err(), QueryError::InvalidEndDate);
    let ignored = Query { filter: None, search: None, range: Some("2024-01-01".into()) };
    assert_eq!(select_entries(&es, &ignored).unwrap().len(), 4);
}

#[test]
fn sessions_compare_gap_as_duration() {
    let es = vec![at(0, "a"), at(630, "b"), at(1230, "c")];
    let refs: Vec<&HistoryEntry> = es.iter().collect();
    let s = group_sessions(&refs, 10);
    assert_eq!(s.iter().map(|g| g.len()).collect::<Vec<_>>(), vec![1, 2]);
}

#[test]
fn per_directory_shows_fifteen_rows() {
    let es: Vec<HistoryEntry> = (0..20).map(|i| untimed(&format!("cd /d{}", i))).collect();
    let stats = per_directory_stats(&es);
    assert_eq!(stats.len(), 15);
    assert_eq!(stats[0], ("/d0".to_string(), 1));
    assert_eq!(stats[14], ("/d14".to_string(), 1));
}
