use rs_outdated::history::{
    bash_history_file_location, extract_cmd, fish_history, fish_history_location,
    nushell_history_location, recent_history, retain_last_n, retain_recent, used_executables,
    zsh_history_locations, FishLine, RECENT_WINDOW_SECS, SIMPLE_HISTORY_LIMIT,
};

fn lines(texts: &[&str]) -> Vec<Vec<u8>> {
    texts.iter().map(|t| t.as_bytes().to_vec()).collect()
}

#[test]
fn extract_cmd_plain_token() {
    assert_eq!(extract_cmd(b"foo --help"), Some(b"foo".to_vec()));
}

#[test]
fn extract_cmd_strips_directories() {
    assert_eq!(extract_cmd(b"/usr/bin/ls -la"), Some(b"ls".to_vec()));
    assert_eq!(extract_cmd(b"./bin/tool arg"), Some(b"tool".to_vec()));
}

#[test]
fn extract_cmd_skips_leading_whitespace() {
    assert_eq!(extract_cmd(b"   foo bar"), Some(b"foo".to_vec()));
    assert_eq!(extract_cmd(b"\t cargo build"), Some(b"cargo".to_vec()));
}

#[test]
fn extract_cmd_blank_lines() {
    assert_eq!(extract_cmd(b""), None);
    assert_eq!(extract_cmd(b"   "), None);
}

#[test]
fn extract_cmd_token_without_basename() {
    assert_eq!(extract_cmd(b"foo/ bar"), None);
}

#[test]
fn retain_last_n_fewer_than_limit() {
    let input = lines(&["a", "b"]);
    let kept = retain_last_n(input.clone(), 5);
    assert_eq!(kept, input);
}

#[test]
fn retain_last_n_more_than_limit() {
    let input = lines(&["a", "b", "c", "d"]);
    let kept = retain_last_n(input, 2);
    assert_eq!(kept, lines(&["c", "d"]));
}

#[test]
fn retain_last_n_exactly_limit() {
    let input = lines(&["a", "b", "c"]);
    let kept = retain_last_n(input.clone(), 3);
    assert_eq!(kept.len(), 3);
    assert_eq!(kept, input);
}

#[test]
fn retain_recent_boundary_is_kept() {
    let entries = vec![
        FishLine { time: 99, cmd: b"old".to_vec() },
        FishLine { time: 100, cmd: b"edge".to_vec() },
        FishLine { time: 101, cmd: b"new".to_vec() },
    ];
    let kept = retain_recent(&entries, 100);
    assert_eq!(kept, lines(&["edge", "new"]));
}

#[test]
fn fish_history_merges_split_record() {
    let text = b"- cmd: ls -la\n  when: 123\n";
    let parsed = fish_history(text);
    assert_eq!(parsed.len(), 1);
    assert_eq!(parsed[0].time, 123);
    assert_eq!(parsed[0].cmd, b"ls -la".to_vec());
}

#[test]
fn fish_history_emits_final_record_at_end_of_input() {
    let text = b"- cmd: first\n  when: 1\n- cmd: second\n  when: 2";
    let parsed = fish_history(text);
    assert_eq!(parsed.len(), 2);
    assert_eq!(parsed[0].time, 1);
    assert_eq!(parsed[0].cmd, b"first".to_vec());
    assert_eq!(parsed[1].time, 2);
    assert_eq!(parsed[1].cmd, b"second".to_vec());
}

#[test]
fn fish_history_drops_record_missing_a_field() {
    // The first record never gets a timestamp; it must vanish, and its
    // command must not leak into the following record.
    let text = b"- cmd: incomplete\n- cmd: complete\n  when: 7\n";
    let parsed = fish_history(text);
    assert_eq!(parsed.len(), 1);
    assert_eq!(parsed[0].time, 7);
    assert_eq!(parsed[0].cmd, b"complete".to_vec());
}

#[test]
fn fish_history_stale_timestamp_does_not_leak() {
    // A record boundary clears both held fields, so the lone `when` cannot
    // combine with the later command.
    let text = b"  when: 4\n- cmd: x\n";
    let parsed = fish_history(text);
    assert_eq!(parsed.len(), 0);
}

#[test]
fn fish_history_ignores_unrelated_lines() {
    let text = b"# header\n- cmd: go\n  paths:\n    - /tmp\n  when: 10\n";
    let parsed = fish_history(text);
    assert_eq!(parsed.len(), 1);
    assert_eq!(parsed[0].time, 10);
    assert_eq!(parsed[0].cmd, b"go".to_vec());
}

#[test]
fn recent_history_applies_both_policies() {
    let bash: Vec<Vec<u8>> = (0..1005).map(|i| format!("cmd{}", i).into_bytes()).collect();
    let now = RECENT_WINDOW_SECS + 1000;
    let fish = vec![
        FishLine { time: 999, cmd: b"too-old".to_vec() },
        FishLine { time: 1000, cmd: b"fresh".to_vec() },
    ];
    let merged = recent_history(Some(bash), None, None, Some(fish), now);
    assert_eq!(merged.len(), SIMPLE_HISTORY_LIMIT + 1);
    assert_eq!(merged[0], b"cmd5".to_vec());
    assert_eq!(merged[SIMPLE_HISTORY_LIMIT], b"fresh".to_vec());
}

#[test]
fn recent_history_missing_sources_contribute_nothing() {
    let merged = recent_history(None, None, None, None, RECENT_WINDOW_SECS);
    assert!(merged.is_empty());
}

#[test]
fn used_executables_extracts_and_skips() {
    let input = lines(&["foo --help", "", "/usr/bin/ls", "   "]);
    let used = used_executables(&input);
    assert_eq!(used, lines(&["foo", "ls"]));
}

#[test]
fn bash_location_prefers_histfile() {
    let r = bash_history_file_location(Some(b"/x/h".to_vec()), Some(b"/home/u".to_vec()));
    assert_eq!(r, Some(b"/x/h".to_vec()));
}

#[test]
fn bash_location_falls_back_to_home() {
    let r = bash_history_file_location(None, Some(b"/home/u".to_vec()));
    assert_eq!(r, Some(b"/home/u/.bash_history".to_vec()));
    assert_eq!(bash_history_file_location(None, None), None);
}

#[test]
fn zsh_locations_in_priority_order() {
    let r = zsh_history_locations(None, Some(b"/home/u".to_vec()));
    assert_eq!(
        r,
        lines(&["/home/u/.histfile", "/home/u/.zhistory", "/home/u/.zsh_history"])
    );
    let over = zsh_history_locations(Some(b"/h".to_vec()), Some(b"/home/u".to_vec()));
    assert_eq!(over, lines(&["/h"]));
    assert!(zsh_history_locations(None, None).is_empty());
}

#[test]
fn nushell_location_under_home() {
    let r = nushell_history_location(Some(b"/home/u".to_vec()));
    assert_eq!(
        r,
        Some(b"/home/u/Library/Application Support/nu/history.txt".to_vec())
    );
}

#[test]
fn fish_location_prefers_xdg_data_home() {
    let r = fish_history_location(Some(b"/data".to_vec()), Some(b"/home/u".to_vec()));
    assert_eq!(r, Some(b"/data/fish/fish_history".to_vec()));
    let fallback = fish_history_location(None, Some(b"/home/u".to_vec()));
    assert_eq!(fallback, Some(b"/home/u/.local/share/fish/fish_history".to_vec()));
    assert_eq!(fish_history_location(None, None), None);
}
