use sshpick::app::{App, AppMode, LaunchOutcome};
use sshpick::parser::{parse_ssh_hosts, FileEntry};

fn files(names: &[&str]) -> Vec<FileEntry> {
    names
        .iter()
        .map(|n| FileEntry::new(n.to_string(), format!("/ssh/{}", n)))
        .collect()
}

fn strings(raw: &[&str]) -> Vec<String> {
    raw.iter().map(|s| s.to_string()).collect()
}

/// An engine browsing the given hosts, reached through the real file
/// confirmation path.
fn host_browser(hosts: &[&str]) -> App {
    let mut app = App::new(files(&["config"]), "/ssh".to_string());
    let entry = app.confirm_file_selection().expect("a file is selected");
    assert_eq!(entry.name, "config");
    app.load_hosts_from_selected_file(strings(hosts));
    assert_eq!(app.mode, AppMode::HostSelection);
    app
}

#[test]
fn new_starts_browsing_files_with_identity_view() {
    let app = App::new(files(&["b", "a"]), "/ssh".to_string());
    assert_eq!(app.mode, AppMode::FileSelection);
    assert_eq!(app.selected, 0);
    assert_eq!(app.scroll_offset, 0);
    assert_eq!(app.filtered_files.len(), 2);
    assert_eq!(app.filtered_files[0].0, 0);
    assert_eq!(app.filtered_files[0].1.name, "b");
    assert_eq!(app.filtered_files[1].0, 1);
    assert_eq!(app.status_message, "Loaded 2 files from /ssh");
    assert!(app.current_file.is_none());
    assert!(app.search_query.is_empty());
}

#[test]
fn file_filter_is_fuzzy_ranked() {
    let mut app = App::new(files(&["Config-A", "other", "conf"]), "/ssh".to_string());
    app.set_query("cf".to_string());
    // both names hold c...f in order, case-insensitively; the shorter one
    // earns the larger length-normalization term and ranks first
    assert_eq!(app.filtered_files.len(), 2);
    assert_eq!(app.filtered_files[0].0, 2);
    assert_eq!(app.filtered_files[0].1.name, "conf");
    assert_eq!(app.filtered_files[1].0, 0);
    assert_eq!(app.filtered_files[1].1.name, "Config-A");
    assert_eq!(app.selected, 0);
}

#[test]
fn scenario_prod_query_on_files() {
    let mut app = App::new(
        files(&["prod-web-01", "dev-api", "web-cache", "prod-db"]),
        "/ssh".to_string(),
    );
    app.set_query("prod".to_string());
    let names: Vec<&str> = app
        .filtered_files
        .iter()
        .map(|(_, f)| f.name.as_str())
        .collect();
    // exactly the two prod entries match; prod-db's shorter name earns the
    // larger length-normalization term and outranks prod-web-01
    assert_eq!(names, vec!["prod-db", "prod-web-01"]);
    assert_eq!(app.filtered_files[0].0, 3);
    assert_eq!(app.filtered_files[1].0, 0);
}

#[test]
fn scenario_single_item_no_match() {
    let mut app = host_browser(&["alpha"]);
    app.enter_search_mode();
    app.set_query("z".to_string());
    assert!(app.filtered_hosts.is_empty());
    assert_eq!(app.current_selection(), None);
}

#[test]
fn scenario_confirm_file_with_wildcard_hosts() {
    let mut app = App::new(files(&["config"]), "/ssh".to_string());
    assert_eq!(app.mode, AppMode::FileSelection);
    let entry = app.confirm_file_selection().expect("a file is selected");
    let config = strings(&["Host web1", "Host web2", "Host *"]);
    let hosts = parse_ssh_hosts(&config);
    app.load_hosts_from_selected_file(hosts);
    assert_eq!(app.mode, AppMode::HostSelection);
    assert_eq!(app.hosts, vec!["web1".to_string(), "web2".to_string()]);
    assert_eq!(app.filtered_hosts.len(), 2);
    assert_eq!(app.filtered_hosts[0], (0, "web1".to_string()));
    assert_eq!(app.filtered_hosts[1], (1, "web2".to_string()));
    assert_eq!(app.current_file.as_ref().map(|f| f.name.as_str()), Some("config"));
    assert_eq!(app.status_message, format!("Loaded 2 hosts from {}", entry.name));
}

#[test]
fn scenario_launch_failure_keeps_state() {
    let mut app = host_browser(&["web1", "web2"]);
    let before_hosts = app.filtered_hosts.clone();
    let host = app.confirm_host_selection().expect("a host is selected");
    assert_eq!(host, "web1");
    app.report_launch(
        &host,
        LaunchOutcome::Completed {
            success: false,
            detail: "Stdout: \nStderr: no such host".to_string(),
        },
    );
    assert_eq!(app.mode, AppMode::HostSelection);
    assert_eq!(app.selected, 0);
    assert_eq!(app.filtered_hosts, before_hosts);
    assert!(app.status_message.contains("Failed to connect to: web1"));
    assert!(app.status_message.contains("no such host"));
}

#[test]
fn launch_success_reports_connection() {
    let mut app = host_browser(&["web1"]);
    let host = app.confirm_host_selection().unwrap();
    app.report_launch(
        &host,
        LaunchOutcome::Completed { success: true, detail: "Stdout: ok\nStderr: ".to_string() },
    );
    assert_eq!(app.status_message, "Connected to: web1\nStdout: ok\nStderr: ");
}

#[test]
fn spawn_failure_reports_error() {
    let mut app = host_browser(&["web1"]);
    let host = app.confirm_host_selection().unwrap();
    app.report_launch(&host, LaunchOutcome::SpawnFailed { error: "command not found".to_string() });
    assert_eq!(app.status_message, "Failed: command not found");
    assert_eq!(app.mode, AppMode::HostSelection);
}

#[test]
fn confirm_with_empty_file_view_sets_status() {
    let mut app = App::new(files(&[]), "/ssh".to_string());
    assert!(app.confirm_file_selection().is_none());
    assert_eq!(app.status_message, "No file selected");
    assert_eq!(app.mode, AppMode::FileSelection);
}

#[test]
fn confirm_with_empty_host_view_sets_status() {
    let mut app = host_browser(&[]);
    assert!(app.confirm_host_selection().is_none());
    assert_eq!(app.status_message, "No host to connect to");
}

#[test]
fn confirmed_host_is_trimmed() {
    let mut app = host_browser(&["  web1  "]);
    assert_eq!(app.confirm_host_selection(), Some("web1".to_string()));
}

#[test]
fn cursor_clamps_at_both_ends() {
    let mut app = host_browser(&["a", "b", "c"]);
    for _ in 0..5 {
        app.move_down();
    }
    assert_eq!(app.selected, 2);
    for _ in 0..5 {
        app.move_up();
    }
    assert_eq!(app.selected, 0);
}

#[test]
fn cursor_stays_put_on_empty_view() {
    let mut app = host_browser(&[]);
    app.move_down();
    app.move_up();
    assert_eq!(app.selected, 0);
}

#[test]
fn requery_is_idempotent() {
    let mut app = host_browser(&["prod-web-01", "dev-api", "prod-db"]);
    app.enter_search_mode();
    app.set_query("prod".to_string());
    let once = app.filtered_hosts.clone();
    app.set_query("prod".to_string());
    assert_eq!(app.filtered_hosts, once);
}

#[test]
fn load_hosts_resets_cursor_and_query() {
    let mut app = App::new(files(&["c1", "c2"]), "/ssh".to_string());
    app.set_query("c".to_string());
    app.move_down();
    assert_eq!(app.selected, 1);
    app.confirm_file_selection().unwrap();
    app.load_hosts_from_selected_file(strings(&["h1", "h2", "h3"]));
    assert_eq!(app.selected, 0);
    assert_eq!(app.scroll_offset, 0);
    assert!(app.search_query.is_empty());
    assert_eq!(app.current_file.as_ref().map(|f| f.name.as_str()), Some("c2"));
}

#[test]
fn back_to_files_resets_everything_but_files() {
    let mut app = host_browser(&["h1", "h2"]);
    app.move_down();
    app.back_to_file_selection();
    assert_eq!(app.mode, AppMode::FileSelection);
    assert!(app.hosts.is_empty());
    assert!(app.filtered_hosts.is_empty());
    assert!(app.current_file.is_none());
    assert!(app.search_query.is_empty());
    assert_eq!(app.selected, 0);
    assert_eq!(app.filtered_files.len(), 1);
}

#[test]
fn search_mode_round_trip() {
    let mut app = host_browser(&["alpha", "beta"]);
    app.enter_search_mode();
    assert_eq!(app.mode, AppMode::Search);
    assert!(app.search_query.is_empty());
    assert_eq!(app.filtered_hosts.len(), 2);

    app.add_char_to_search('b');
    assert_eq!(app.search_query, "b");
    assert_eq!(app.filtered_hosts, vec![(1, "beta".to_string())]);

    app.remove_char_from_search();
    assert_eq!(app.search_query, "");
    assert_eq!(app.filtered_hosts.len(), 2);

    app.add_char_to_search('a');
    app.exit_search_mode();
    assert_eq!(app.mode, AppMode::HostSelection);
    assert!(app.search_query.is_empty());
    assert_eq!(app.filtered_hosts.len(), 2);
}

#[test]
fn backspace_on_empty_query_is_a_noop() {
    let mut app = host_browser(&["alpha"]);
    app.enter_search_mode();
    app.remove_char_from_search();
    assert_eq!(app.search_query, "");
    assert_eq!(app.filtered_hosts.len(), 1);
}

#[test]
fn search_toggle_ignored_outside_host_browsing() {
    let mut app = App::new(files(&["c"]), "/ssh".to_string());
    app.enter_search_mode();
    assert_eq!(app.mode, AppMode::FileSelection);
    app.exit_search_mode();
    assert_eq!(app.mode, AppMode::FileSelection);
}

#[test]
fn current_selection_follows_cursor() {
    let mut app = host_browser(&["h1", "h2"]);
    assert_eq!(app.current_selection(), Some((0, "h1".to_string())));
    app.move_down();
    assert_eq!(app.current_selection(), Some((1, "h2".to_string())));
}

#[test]
fn scroll_keeps_cursor_visible_with_minimal_motion() {
    let mut app = host_browser(&["a", "b", "c", "d", "e"]);
    app.update_scroll(2);
    assert_eq!(app.scroll_offset, 0);
    app.move_down();
    app.update_scroll(2);
    assert_eq!(app.scroll_offset, 0);
    app.move_down();
    app.move_down();
    app.update_scroll(2);
    assert_eq!(app.scroll_offset, 2);
    app.move_up();
    app.move_up();
    app.move_up();
    app.update_scroll(2);
    assert_eq!(app.scroll_offset, 0);
}

#[test]
fn ten_hosts_status_uses_two_digits() {
    let app = host_browser(&["h0", "h1", "h2", "h3", "h4", "h5", "h6", "h7", "h8", "h9"]);
    assert_eq!(app.status_message, "Loaded 10 hosts from config");
}
