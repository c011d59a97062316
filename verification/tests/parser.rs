use sshpick::parser::{parse_ssh_hosts, sort_file_entries, FileEntry};

fn lines(raw: &[&str]) -> Vec<String> {
    raw.iter().map(|s| s.to_string()).collect()
}

#[test]
fn test_parse_ssh_hosts() {
    let config = lines(&[
        "Host server1",
        "    HostName 192.168.1.1",
        "Host server2",
        "    HostName 192.168.1.2",
    ]);
    let hosts = parse_ssh_hosts(&config);
    assert_eq!(hosts.len(), 2);
    assert_eq!(hosts[0], "server1");
    assert_eq!(hosts[1], "server2");
}

#[test]
fn parse_excludes_wildcards() {
    let config = lines(&["Host web1", "Host web2", "Host *", "Host db?"]);
    let hosts = parse_ssh_hosts(&config);
    assert_eq!(hosts, vec!["web1".to_string(), "web2".to_string()]);
}

#[test]
fn parse_keyword_is_case_insensitive_and_trimmed() {
    let config = lines(&["  host   alias-a  ", "HOST alias-b", "HoSt alias-c"]);
    let hosts = parse_ssh_hosts(&config);
    assert_eq!(
        hosts,
        vec!["alias-a".to_string(), "alias-b".to_string(), "alias-c".to_string()]
    );
}

#[test]
fn parse_needs_separator_and_token() {
    let config = lines(&[
        "Host",          // no separator
        "Host ",         // empty alias
        "Hostile web",   // keyword must be followed by whitespace
        "# Host nope2",  // comment prefix breaks the keyword
        "HostName web3", // a different directive
        "",
    ]);
    let hosts = parse_ssh_hosts(&config);
    assert!(hosts.is_empty());
}

#[test]
fn parse_accepts_any_whitespace_separator() {
    let config = lines(&["Host\tweb", "Host\u{a0}pad", "Host  spaced"]);
    let hosts = parse_ssh_hosts(&config);
    assert_eq!(
        hosts,
        vec!["web".to_string(), "pad".to_string(), "spaced".to_string()]
    );
}

#[test]
fn parse_takes_first_token_only() {
    // the alias is the first whitespace-delimited token; the wildcard test
    // applies to that token alone
    let config = lines(&["Host web1 web2", "Host w1 *", "Host * w2"]);
    let hosts = parse_ssh_hosts(&config);
    assert_eq!(hosts, vec!["web1".to_string(), "w1".to_string()]);
}

#[test]
fn parse_keeps_order_of_appearance() {
    let config = lines(&["Host zz", "Host aa", "Host mm"]);
    let hosts = parse_ssh_hosts(&config);
    assert_eq!(hosts, vec!["zz".to_string(), "aa".to_string(), "mm".to_string()]);
}

#[test]
fn sort_orders_by_display_name() {
    let files = vec![
        FileEntry::new("config3".to_string(), "/c/3".to_string()),
        FileEntry::new("config1".to_string(), "/c/1".to_string()),
        FileEntry::new("config2".to_string(), "/c/2".to_string()),
    ];
    let sorted = sort_file_entries(files);
    let names: Vec<&str> = sorted.iter().map(|f| f.name.as_str()).collect();
    assert_eq!(names, vec!["config1", "config2", "config3"]);
    assert_eq!(sorted[0].path, "/c/1");
}

#[test]
fn sort_prefix_comes_first() {
    let files = vec![
        FileEntry::new("ab".to_string(), "p1".to_string()),
        FileEntry::new("a".to_string(), "p2".to_string()),
    ];
    let sorted = sort_file_entries(files);
    assert_eq!(sorted[0].name, "a");
    assert_eq!(sorted[1].name, "ab");
}
