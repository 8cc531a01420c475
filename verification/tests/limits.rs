use lib::limits::{Endpoint, Limits};

fn v4(a: [u8; 4], port: u16) -> Endpoint {
    Endpoint { v6: false, address: u32::from_be_bytes(a) as u128, port }
}

#[test]
fn no_list_allows_everything() {
    let l = Limits::new();
    assert!(l.is_process_allowed("ls"));
    assert!(l.is_tcp_connect_allowed(v4([10, 0, 0, 1], 80)));
    assert!(l.is_tcp_listen_allowed(v4([0, 0, 0, 0], 8080)));
}

#[test]
fn an_empty_list_denies_everything() {
    let l = Limits::new()
        .with_process_allowlist(Vec::new())
        .with_tcp_connect_allow(Vec::new())
        .with_tcp_listen_allow(Vec::new());
    assert!(!l.is_process_allowed("ls"));
    assert!(!l.is_tcp_connect_allowed(v4([127, 0, 0, 1], 80)));
    assert!(!l.is_tcp_listen_allowed(v4([127, 0, 0, 1], 80)));
}

#[test]
fn lists_admit_exact_entries_only() {
    let l = Limits::new()
        .with_process_allowlist(vec!["git".to_string(), "ls".to_string()])
        .with_tcp_connect_allow(vec![v4([127, 0, 0, 1], 80)]);
    assert!(l.is_process_allowed("ls"));
    assert!(!l.is_process_allowed("l"));
    assert!(!l.is_process_allowed("rm"));
    assert!(l.is_tcp_connect_allowed(v4([127, 0, 0, 1], 80)));
    assert!(!l.is_tcp_connect_allowed(v4([127, 0, 0, 1], 81)));
    assert!(!l.is_tcp_connect_allowed(Endpoint { v6: true, address: 0x7f00_0001, port: 80 }));
    assert!(l.is_tcp_listen_allowed(v4([0, 0, 0, 0], 1)));
}
