use vmstat_valkey::host::{get_hostname, get_nproc, hostname, name_from, nproc_from};

#[test]
fn hostname_of_the_recorder() {
    assert_eq!(hostname(Some(b"node7\n")), "node7");
    assert_eq!(hostname(Some(b"  \n")), "unknown-host");
    assert_eq!(hostname(Some(b"")), "unknown-host");
    assert_eq!(hostname(None), "unknown-host");
    assert_eq!(hostname(Some(b"n\xff\n")), "n\u{fffd}");
    assert_eq!(name_from(" a b "), "a b");
    assert_eq!(name_from("\u{3000}"), "unknown-host");
}

#[test]
fn hostname_of_the_scorer() {
    assert_eq!(get_hostname(b" node7\n".to_vec()), Some("node7".to_string()));
    assert_eq!(get_hostname(b"\n".to_vec()), Some("".to_string()));
    assert_eq!(get_hostname(b"n\xff\n".to_vec()), None);
}

#[test]
fn number_of_processors() {
    assert_eq!(get_nproc(Some(b"16\n")), 16);
    assert_eq!(get_nproc(Some(b"0")), 0);
    assert_eq!(get_nproc(Some(b"+3")), 3);
    assert_eq!(get_nproc(Some(b"-3")), 4);
    assert_eq!(get_nproc(Some(b"many")), 4);
    assert_eq!(get_nproc(Some(b"8\xff")), 4);
    assert_eq!(get_nproc(None), 4);
    assert_eq!(nproc_from("\t64 \n"), 64);
}

#[test]
fn daemons_agree_on_the_name() {
    for output in ["node7\n", " n\u{e9}\u{3000}\n", "a b"] {
        let bytes = output.as_bytes();
        assert_eq!(Some(hostname(Some(bytes))), get_hostname(bytes.to_vec()));
    }
}
