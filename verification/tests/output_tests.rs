use forge::inspect::{inspect_node, inspect_script};
use forge::node::{NodeInspection, NodeSummary};
use forge::table::{add_field, print_inspection, print_nodes, print_rows};

#[test]
fn inspection_reads_known_keys() {
    let out = "hostname=box\nos=Ubuntu 22.04\narch=x86_64\ncpu_cores=8\nmemory_total_mb=15872\ndisk_total_mb=102400\nuptime=up 3 days\n";
    let i = inspect_node("dev", out);
    assert_eq!(i.name, "dev");
    assert_eq!(i.hostname.as_deref(), Some("box"));
    assert_eq!(i.os.as_deref(), Some("Ubuntu 22.04"));
    assert_eq!(i.arch.as_deref(), Some("x86_64"));
    assert_eq!(i.cpu_cores, Some(8));
    assert_eq!(i.memory_total_mb, Some(15872));
    assert_eq!(i.disk_total_mb, Some(102400));
    assert_eq!(i.uptime.as_deref(), Some("up 3 days"));
}

#[test]
fn inspection_skips_blank_and_unknown() {
    let out = "hostname=\nos=   \nnoise\nfoo=bar\r\narch= arm64 \r\ncpu_cores=lots\nmemory_total_mb=+12";
    let i = inspect_node("n", out);
    assert_eq!(i.hostname, None);
    assert_eq!(i.os, None);
    assert_eq!(i.arch.as_deref(), Some("arm64"));
    assert_eq!(i.cpu_cores, None);
    assert_eq!(i.memory_total_mb, Some(12));
}

#[test]
fn inspection_last_value_wins_and_bad_number_clears() {
    let out = "cpu_cores=4\ncpu_cores=5\ndisk_total_mb=9\ndisk_total_mb=99999999999999999999999\nuptime=a=b";
    let i = inspect_node("n", out);
    assert_eq!(i.cpu_cores, Some(5));
    assert_eq!(i.disk_total_mb, None);
    assert_eq!(i.uptime.as_deref(), Some("a=b"));
}

#[test]
fn inspection_number_limits() {
    let i = inspect_node("n", "cpu_cores=4294967295\nmemory_total_mb=18446744073709551615");
    assert_eq!(i.cpu_cores, Some(u32::MAX));
    assert_eq!(i.memory_total_mb, Some(u64::MAX));
    let i = inspect_node("n", "cpu_cores=4294967296\ncpu_cores=-1");
    assert_eq!(i.cpu_cores, None);
    let i = inspect_node("n", "cpu_cores=+\ncpu_cores=");
    assert_eq!(i.cpu_cores, None);
}

#[test]
fn inspection_of_empty_output() {
    let i = inspect_node("n", "");
    assert_eq!(i.hostname, None);
    assert_eq!(i.uptime, None);
}

#[test]
fn script_prints_every_field() {
    let script = inspect_script();
    for key in ["hostname=", "os=", "arch=", "cpu_cores=", "memory_total_mb=", "disk_total_mb=", "uptime="] {
        assert!(script.contains(key), "{key}");
    }
    assert!(script.contains("\"$PRETTY_NAME\""));
}

#[test]
fn rows_are_padded_to_widest_cell() {
    let rows = vec![
        vec!["NAME".to_string(), "X".to_string()],
        vec!["a".to_string(), "longer".to_string()],
    ];
    assert_eq!(print_rows(&rows), "NAME  X     \na     longer\n");
    assert_eq!(print_rows(&vec![]), "");
}

#[test]
fn width_counts_bytes_padding_counts_chars() {
    let rows = vec![vec!["é".to_string(), "b".to_string()], vec!["ab".to_string(), "c".to_string()]];
    assert_eq!(print_rows(&rows), "é   b\nab  c\n");
}

#[test]
fn add_field_appends_row() {
    let mut rows: Vec<Vec<String>> = vec![];
    add_field(&mut rows, "k", "v".to_string());
    assert_eq!(rows, vec![vec!["k".to_string(), "v".to_string()]]);
}

#[test]
fn node_listing() {
    let nodes = vec![NodeSummary {
        name: "dev-key".to_string(),
        provider: "ssh".to_string(),
        host: "1.2.3.5".to_string(),
        user: "ubuntu".to_string(),
        port: 22,
        labels: vec![("env".to_string(), "dev".to_string()), ("team".to_string(), "a".to_string())],
    }];
    let expected = "NAME     PROVIDER  HOST     USER    PORT  LABELS        \n\
                    dev-key  ssh       1.2.3.5  ubuntu  22    env=dev,team=a\n";
    assert_eq!(print_nodes(&nodes), expected);
}

#[test]
fn empty_listing_has_header() {
    assert_eq!(print_nodes(&[]), "NAME  PROVIDER  HOST  USER  PORT  LABELS\n");
}

#[test]
fn inspection_table() {
    let i = NodeInspection {
        name: "n".to_string(),
        hostname: Some("h".to_string()),
        os: None,
        arch: None,
        cpu_cores: Some(2),
        memory_total_mb: None,
        disk_total_mb: Some(10),
        uptime: None,
    };
    let text = print_inspection(&i);
    let lines: Vec<&str> = text.lines().collect();
    assert_eq!(lines.len(), 9);
    assert_eq!(lines[0], "FIELD            VALUE");
    assert_eq!(lines[1], "name             n    ");
    assert_eq!(lines[5], "cpu_cores        2    ");
    assert_eq!(lines[4], "arch                  ");
    assert_eq!(lines[7], "disk_total_mb    10   ");
}
