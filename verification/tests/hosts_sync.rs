use docker_hosts::docker::{collect_host_entries, ContainerHostEntry, ContainerLister, ContainerRecord};
use docker_hosts::hosts::{is_marker, Hosts};
use docker_hosts::hosts_updater::{
    compute_operations, container_section, parse_managed_lines, reconcile, render_entry_lines,
    FetchOutcome, HostsOperation, HostsOperationAction, HostsUpdater,
};
use docker_hosts::text::{find_char, str_eq, trim};

fn s(x: &str) -> String {
    x.to_string()
}

fn entry(name: &str, addr: &str) -> ContainerHostEntry {
    ContainerHostEntry { name: s(name), addr: s(addr) }
}

fn op_tuple(o: &HostsOperation) -> (HostsOperationAction, String, String) {
    (o.action, o.name.clone(), o.addr.clone())
}

#[test]
fn trim_removes_surrounding_whitespace() {
    assert_eq!(trim(" \thello world\r\n"), s("hello world"));
    assert_eq!(trim(""), s(""));
    assert_eq!(trim(" \t \n"), s(""));
    assert_eq!(trim("no-change"), s("no-change"));
}

#[test]
fn str_eq_compares_characters() {
    assert!(str_eq("abc", "abc"));
    assert!(!str_eq("abc", "abd"));
    assert!(!str_eq("abc", "ab"));
    assert!(str_eq("", ""));
}

#[test]
fn find_char_reports_first_occurrence() {
    assert_eq!(find_char("a\tb\tc", '\t'), Some(1));
    assert_eq!(find_char("abc", '\t'), None);
    assert_eq!(find_char("\tx", '\t'), Some(0));
}

#[test]
fn marker_recognition() {
    assert!(is_marker("# SECTION DOCKER_CONTAINERS"));
    assert!(is_marker("# SECTION a"));
    assert!(!is_marker("# SECTION"));
    assert!(!is_marker("# SECTION "));
    assert!(!is_marker("# SECTION two words"));
    assert!(!is_marker("## SECTION x"));
    assert!(!is_marker("plain line"));
}

#[test]
fn parse_and_render_roundtrip() {
    let lines = vec![
        s("127.0.0.1 localhost"),
        s("::1 localhost"),
        s("# SECTION DOCKER_CONTAINERS"),
        s("10.0.0.2\tweb"),
        s("# SECTION OTHER"),
        s("fixed line"),
    ];
    let doc = Hosts::parse(&lines);
    assert_eq!(doc.render_lines(), lines);
}

#[test]
fn roundtrip_of_empty_file() {
    let doc = Hosts::parse(&Vec::<String>::new());
    assert_eq!(doc.render_lines(), Vec::<String>::new());
    assert_eq!(doc.get_section(None), Some(&Vec::<String>::new()));
    assert_eq!(doc.get_section(Some("A")), None);
}

#[test]
fn parse_normalizes_line_whitespace() {
    let lines = vec![s("  padded  "), s("\t# SECTION A \r"), s(" x ")];
    let doc = Hosts::parse(&lines);
    assert_eq!(doc.get_section(None), Some(&vec![s("padded")]));
    assert_eq!(doc.get_section(Some("A")), Some(&vec![s("x")]));
    assert_eq!(doc.render_lines(), vec![s("padded"), s("# SECTION A"), s("x")]);
}

#[test]
fn malformed_marker_stays_content() {
    let lines = vec![s("# SECTION"), s("# SECTION two words"), s("# SECTION A"), s("entry")];
    let doc = Hosts::parse(&lines);
    assert_eq!(
        doc.get_section(None),
        Some(&vec![s("# SECTION"), s("# SECTION two words")])
    );
    assert_eq!(doc.get_section(Some("A")), Some(&vec![s("entry")]));
}

#[test]
fn recurring_marker_keeps_last_block() {
    let lines = vec![s("# SECTION A"), s("x"), s("# SECTION B"), s("m"), s("# SECTION A"), s("y")];
    let doc = Hosts::parse(&lines);
    assert_eq!(doc.get_section(Some("A")), Some(&vec![s("y")]));
    assert_eq!(doc.get_section(Some("B")), Some(&vec![s("m")]));
    assert_eq!(
        doc.render_lines(),
        vec![s("# SECTION B"), s("m"), s("# SECTION A"), s("y")]
    );
}

#[test]
fn update_section_replaces_and_creates() {
    let lines = vec![s("pre"), s("# SECTION A"), s("old")];
    let mut doc = Hosts::parse(&lines);
    doc.update_section(Some(s("A")), vec![s("new1"), s("new2")]);
    doc.update_section(Some(s("B")), vec![s("b")]);
    doc.update_section(None, vec![s("front")]);
    assert_eq!(
        doc.render_lines(),
        vec![s("front"), s("# SECTION A"), s("new1"), s("new2"), s("# SECTION B"), s("b")]
    );
}

#[test]
fn managed_lines_parse_splits_on_first_tab() {
    let lines = vec![s("10.0.0.2\tweb"), s("no tab line"), s(" 10.0.0.3\tdb "), s("a\tb\tc")];
    let entries = parse_managed_lines(&lines);
    let got: Vec<(String, String)> =
        entries.iter().map(|e| (e.addr.clone(), e.name.clone())).collect();
    assert_eq!(
        got,
        vec![
            (s("10.0.0.2"), s("web")),
            (s("10.0.0.3"), s("db")),
            (s("a"), s("b\tc")),
        ]
    );
}

#[test]
fn rendered_entry_lines_are_address_tab_name() {
    let lines = render_entry_lines(&vec![entry("web", "10.0.0.5"), entry("db", "10.0.0.6")]);
    assert_eq!(lines, vec![s("10.0.0.5\tweb"), s("10.0.0.6\tdb")]);
}

#[test]
fn set_diff_correctness() {
    let current = vec![entry("a", "1"), entry("b", "2")];
    let desired = vec![entry("a", "1"), entry("c", "3")];
    let ops = compute_operations(&current, &desired);
    let got: Vec<(HostsOperationAction, String, String)> = ops.iter().map(op_tuple).collect();
    assert_eq!(
        got,
        vec![
            (HostsOperationAction::Add, s("c"), s("3")),
            (HostsOperationAction::Del, s("b"), s("2")),
        ]
    );
}

#[test]
fn set_diff_ignores_input_order() {
    let current = vec![entry("b", "2"), entry("a", "1")];
    let desired = vec![entry("c", "3"), entry("a", "1")];
    let ops = compute_operations(&current, &desired);
    let got: Vec<(HostsOperationAction, String, String)> = ops.iter().map(op_tuple).collect();
    assert_eq!(
        got,
        vec![
            (HostsOperationAction::Add, s("c"), s("3")),
            (HostsOperationAction::Del, s("b"), s("2")),
        ]
    );
}

#[test]
fn set_diff_equal_sets_yield_no_operations() {
    let current = vec![entry("a", "1"), entry("b", "2")];
    let desired = vec![entry("b", "2"), entry("a", "1")];
    assert!(compute_operations(&current, &desired).is_empty());
}

#[test]
fn address_change_is_delete_plus_add() {
    let current = vec![entry("web", "10.0.0.2")];
    let desired = vec![entry("web", "10.0.0.5")];
    let ops = compute_operations(&current, &desired);
    let got: Vec<(HostsOperationAction, String, String)> = ops.iter().map(op_tuple).collect();
    assert_eq!(
        got,
        vec![
            (HostsOperationAction::Add, s("web"), s("10.0.0.5")),
            (HostsOperationAction::Del, s("web"), s("10.0.0.2")),
        ]
    );
}

#[test]
fn reconcile_scenario_replaces_managed_section() {
    let lines = vec![
        s("127.0.0.1 localhost"),
        s("# SECTION DOCKER_CONTAINERS"),
        s("10.0.0.2\tweb"),
    ];
    let mut doc = Hosts::parse(&lines);
    let fetched = FetchOutcome::Entries(vec![entry("web", "10.0.0.5"), entry("db", "10.0.0.6")]);
    let ops = reconcile(&mut doc, &fetched);
    let got: Vec<(HostsOperationAction, String, String)> = ops.iter().map(op_tuple).collect();
    assert_eq!(
        got,
        vec![
            (HostsOperationAction::Add, s("web"), s("10.0.0.5")),
            (HostsOperationAction::Add, s("db"), s("10.0.0.6")),
            (HostsOperationAction::Del, s("web"), s("10.0.0.2")),
        ]
    );
    assert_eq!(
        doc.render_lines(),
        vec![
            s("127.0.0.1 localhost"),
            s("# SECTION DOCKER_CONTAINERS"),
            s("10.0.0.5\tweb"),
            s("10.0.0.6\tdb"),
        ]
    );
}

#[test]
fn reconcile_preserves_preamble_and_other_sections() {
    let lines = vec![
        s("# hand-written comment"),
        s("127.0.0.1 localhost"),
        s("# SECTION STATIC"),
        s("192.168.0.1\trouter"),
        s("# SECTION DOCKER_CONTAINERS"),
        s("10.0.0.2\tweb"),
    ];
    let mut doc = Hosts::parse(&lines);
    let fetched = FetchOutcome::Entries(vec![entry("db", "10.0.0.9")]);
    let ops = reconcile(&mut doc, &fetched);
    assert_eq!(ops.len(), 2);
    let out = doc.render_lines();
    assert_eq!(&out[0..4], &lines[0..4]);
    assert_eq!(
        out,
        vec![
            s("# hand-written comment"),
            s("127.0.0.1 localhost"),
            s("# SECTION STATIC"),
            s("192.168.0.1\trouter"),
            s("# SECTION DOCKER_CONTAINERS"),
            s("10.0.0.9\tdb"),
        ]
    );
}

#[test]
fn reconcile_twice_is_idempotent() {
    let lines = vec![s("127.0.0.1 localhost"), s("# SECTION DOCKER_CONTAINERS"), s("10.0.0.2\tweb")];
    let mut doc = Hosts::parse(&lines);
    let fetched = FetchOutcome::Entries(vec![entry("web", "10.0.0.5"), entry("db", "10.0.0.6")]);
    let first = reconcile(&mut doc, &fetched);
    assert!(!first.is_empty());
    let after_first = doc.render_lines();
    let second = reconcile(&mut doc, &fetched);
    assert!(second.is_empty());
    assert_eq!(doc.render_lines(), after_first);
}

#[test]
fn empty_fetch_clears_managed_section() {
    let lines = vec![
        s("127.0.0.1 localhost"),
        s("# SECTION DOCKER_CONTAINERS"),
        s("10.0.0.2\tweb"),
        s("10.0.0.3\tdb"),
    ];
    let mut doc = Hosts::parse(&lines);
    let ops = reconcile(&mut doc, &FetchOutcome::Entries(vec![]));
    let got: Vec<(HostsOperationAction, String, String)> = ops.iter().map(op_tuple).collect();
    assert_eq!(
        got,
        vec![
            (HostsOperationAction::Del, s("web"), s("10.0.0.2")),
            (HostsOperationAction::Del, s("db"), s("10.0.0.3")),
        ]
    );
    assert_eq!(doc.get_section(Some(container_section())), Some(&Vec::<String>::new()));
    assert_eq!(
        doc.render_lines(),
        vec![s("127.0.0.1 localhost"), s("# SECTION DOCKER_CONTAINERS")]
    );
}

#[test]
fn empty_fetch_on_empty_section_writes_nothing() {
    let lines = vec![s("127.0.0.1 localhost")];
    let mut doc = Hosts::parse(&lines);
    let ops = reconcile(&mut doc, &FetchOutcome::Entries(vec![]));
    assert!(ops.is_empty());
    assert_eq!(doc.render_lines(), lines);
}

#[test]
fn fetch_error_changes_nothing() {
    let lines = vec![
        s("127.0.0.1 localhost"),
        s("# SECTION DOCKER_CONTAINERS"),
        s("10.0.0.2\tweb"),
        s("10.0.0.3\tdb"),
    ];
    let mut doc = Hosts::parse(&lines);
    let ops = reconcile(&mut doc, &FetchOutcome::Error);
    assert!(ops.is_empty());
    assert_eq!(doc.render_lines(), lines);
}

#[test]
fn collect_host_entries_pairs_names_with_nonempty_addresses() {
    let containers = vec![
        ContainerRecord {
            names: vec![s("web"), s("web-alias")],
            addrs: vec![s("10.0.0.5"), s(""), s("172.17.0.2")],
        },
        ContainerRecord { names: vec![s("db")], addrs: vec![s("10.0.0.6")] },
        ContainerRecord { names: vec![s("stopped")], addrs: vec![s("")] },
    ];
    let entries = collect_host_entries(&containers);
    let got: Vec<(String, String)> =
        entries.iter().map(|e| (e.name.clone(), e.addr.clone())).collect();
    assert_eq!(
        got,
        vec![
            (s("web"), s("10.0.0.5")),
            (s("web"), s("172.17.0.2")),
            (s("web-alias"), s("10.0.0.5")),
            (s("web-alias"), s("172.17.0.2")),
            (s("db"), s("10.0.0.6")),
        ]
    );
}

#[test]
fn lister_remembers_socket_path() {
    let lister = ContainerLister::new("/var/run/docker.sock");
    assert_eq!(lister.socket_path(), "/var/run/docker.sock");
}

#[test]
fn updater_holds_configuration() {
    let u = HostsUpdater::new(30, s("/etc/hosts"), "/var/run/docker.sock");
    assert_eq!(u.interval_secs, 30);
    assert_eq!(u.hosts_file, s("/etc/hosts"));
    assert_eq!(u.lister.socket_path(), "/var/run/docker.sock");
}

#[test]
fn action_words_for_notification() {
    assert_eq!(HostsOperationAction::Add.as_str(), "add");
    assert_eq!(HostsOperationAction::Del.as_str(), "del");
}
