use std::collections::{HashMap, HashSet};

use vmstat_valkey::client::{lset_command, lset_reply};
use vmstat_valkey::resp::Resp;
use vmstat_valkey::rolling::{build_list_name, Publish, Setup, Startup, SLOTS};
use vmstat_valkey::vmstat::parse_vmstat_line;

/// A server that knows lists, and keys of another type.
struct Server {
    lists: HashMap<Vec<u8>, Vec<Vec<u8>>>,
    others: HashSet<Vec<u8>>,
}

impl Server {
    fn answer(&mut self, args: &[Vec<u8>]) -> Resp {
        let key = args[1].clone();
        match args[0].as_slice() {
            b"EXISTS" => {
                Resp::Integer((self.lists.contains_key(&key) || self.others.contains(&key)) as i64)
            }
            b"DEL" => {
                let other = self.others.remove(&key);
                Resp::Integer((self.lists.remove(&key).is_some() || other) as i64)
            }
            _ if self.others.contains(&key) => Resp::Error("WRONGTYPE".to_string()),
            b"RPUSH" => {
                let list = self.lists.entry(key).or_default();
                list.extend_from_slice(&args[2..]);
                Resp::Integer(list.len() as i64)
            }
            b"LSET" => {
                let at: usize = String::from_utf8(args[2].clone()).unwrap().parse().unwrap();
                match self.lists.get_mut(&key).and_then(|l| l.get_mut(at)) {
                    Some(slot) => {
                        *slot = args[3].clone();
                        Resp::SimpleString("OK".to_string())
                    }
                    None => Resp::Error("ERR index out of range".to_string()),
                }
            }
            _ => Resp::Error("ERR unknown command".to_string()),
        }
    }
}

fn set_up(server: &mut Server, list: &str) -> (Setup, usize) {
    let mut state = Setup::Ask;
    let mut commands = 0;
    while let Some(args) = state.command(list) {
        commands += 1;
        state = state.next(&server.answer(&args));
    }
    (state, commands)
}

#[test]
fn list_name_of_a_host() {
    assert_eq!(build_list_name("node7"), "RSE^statistics^node7^vmstat^rollingsixty");
    assert_eq!(build_list_name(""), "RSE^statistics^^vmstat^rollingsixty");
}

#[test]
fn list_names_tell_hosts_apart() {
    assert_ne!(build_list_name("a"), build_list_name("b"));
    assert_ne!(build_list_name("a"), build_list_name("a^vmstat^rollingsixty"));
}

#[test]
fn setup_leaves_sixty_zeros() {
    let list = build_list_name("h");
    let mut server = Server { lists: HashMap::new(), others: HashSet::new() };
    server.lists.insert(b"other".to_vec(), vec![b"x".to_vec()]);
    assert_eq!(set_up(&mut server, &list), (Setup::Ready, 2));
    assert_eq!(server.lists[list.as_bytes()], vec![b"0".to_vec(); 60]);
    server.lists.insert(list.as_bytes().to_vec(), vec![b"old".to_vec(); 7]);
    assert_eq!(set_up(&mut server, &list), (Setup::Ready, 3));
    assert_eq!(server.lists[list.as_bytes()], vec![b"0".to_vec(); 60]);
    assert_eq!(server.lists[&b"other".to_vec()], vec![b"x".to_vec()]);
    server.lists.clear();
    server.others.insert(list.as_bytes().to_vec());
    assert_eq!(set_up(&mut server, &list), (Setup::Ready, 3));
    assert_eq!(server.lists[list.as_bytes()], vec![b"0".to_vec(); 60]);
    assert!(server.others.is_empty());
    assert_eq!(SLOTS, 60);
}

#[test]
fn setup_refuses_a_short_list() {
    assert_eq!(Setup::Push.next(&Resp::Integer(59)), Setup::TooShort(59));
    assert_eq!(Setup::Push.next(&Resp::Integer(60)), Setup::Ready);
    assert_eq!(Setup::Push.next(&Resp::Integer(61)), Setup::Ready);
    assert_eq!(Setup::Push.next(&Resp::Error("WRONGTYPE".to_string())), Setup::TooShort(0));
    assert_eq!(Setup::TooShort(3).next(&Resp::Integer(60)), Setup::TooShort(3));
    assert!(Setup::TooShort(3).command("l").is_none());
    assert!(Setup::Ready.command("l").is_none());
}

#[test]
fn setup_deletes_just_what_exists() {
    assert_eq!(Setup::Ask.next(&Resp::Integer(1)), Setup::Delete);
    assert_eq!(Setup::Ask.next(&Resp::Integer(0)), Setup::Push);
    assert_eq!(Setup::Ask.next(&Resp::Integer(2)), Setup::Push);
    assert_eq!(Setup::Ask.next(&Resp::Error("ERR".to_string())), Setup::Push);
    assert_eq!(Setup::Delete.next(&Resp::Error("ERR".to_string())), Setup::Push);
}

fn row(tag: u64, second: u64) -> String {
    format!("{} 0 0 0 0 0 0 0 0 0 0 0 0 0 0 0 0 0 2025-11-16 10:00:{:02}", tag, second)
}

#[test]
fn list_holds_the_latest_rows() {
    let list = build_list_name("h");
    let mut server = Server { lists: HashMap::new(), others: HashSet::new() };
    set_up(&mut server, &list);
    for (tag, second) in [(1, 5), (2, 59), (3, 5), (4, 0)] {
        let p = parse_vmstat_line(&row(tag, second)).unwrap();
        let args = lset_command(&list, p.second, p.json.as_bytes());
        assert!(lset_reply(&server.answer(&args)));
    }
    let slots = &server.lists[list.as_bytes()];
    assert_eq!(slots.len(), 60);
    for (i, slot) in slots.iter().enumerate() {
        let text = String::from_utf8(slot.clone()).unwrap();
        match i {
            0 => assert!(text.starts_with("{\"v-r\":4,")),
            5 => assert!(text.starts_with("{\"v-r\":3,")),
            59 => assert!(text.starts_with("{\"v-r\":2,")),
            _ => assert_eq!(text, "0"),
        }
    }
}

#[test]
fn row_gets_a_second_chance() {
    assert_eq!(Publish::Store.next(true), Publish::Done);
    assert_eq!(Publish::Store.next(false), Publish::Reconnect);
    assert_eq!(Publish::Reconnect.next(false), Publish::Done);
    assert_eq!(Publish::Reconnect.next(true), Publish::StoreAgain);
    assert_eq!(Publish::StoreAgain.next(false), Publish::Done);
    assert_eq!(Publish::StoreAgain.next(true), Publish::Done);
    assert_eq!(Publish::Done.next(false), Publish::Done);
}

#[test]
fn recorder_starts_in_the_end() {
    assert_eq!(Startup::Connect.next(false), Startup::Connect);
    assert_eq!(Startup::Connect.next(true), Startup::Setup);
    assert_eq!(Startup::Setup.next(true), Startup::Running);
    assert_eq!(Startup::Setup.next(false), Startup::Reconnect);
    assert_eq!(Startup::Reconnect.next(true), Startup::SetupAgain);
    assert_eq!(Startup::Reconnect.next(false), Startup::Running);
    assert_eq!(Startup::SetupAgain.next(true), Startup::Running);
    assert_eq!(Startup::SetupAgain.next(false), Startup::Running);
    assert_eq!(Startup::Running.next(false), Startup::Running);
}

#[test]
fn row_is_stored_or_dropped() {
    for bits in 0..8u32 {
        let mut state = Publish::Store;
        let mut stores = 0;
        for i in 0..3 {
            if state == Publish::Store || state == Publish::StoreAgain {
                stores += 1;
            }
            state = state.next(bits & (1 << i) != 0);
        }
        assert_eq!(state, Publish::Done);
        assert_eq!(stores, if bits & 3 == 2 { 2 } else { 1 });
    }
}

#[test]
fn recorder_starts_once_connected() {
    let mut state = Startup::Connect;
    for _ in 0..20 {
        state = state.next(false);
    }
    assert_eq!(state, Startup::Connect);
    for bits in 0..8u32 {
        let mut after = state.next(true);
        for i in 0..3 {
            after = after.next(bits & (1 << i) != 0);
        }
        assert_eq!(after, Startup::Running);
    }
}

#[test]
fn zeros_are_pushed_behind_absence_or_deletion() {
    let replies = [
        Resp::Integer(0),
        Resp::Integer(1),
        Resp::Integer(2),
        Resp::Error("ERR".to_string()),
        Resp::BulkString(None),
        Resp::Array(Some(vec![])),
    ];
    for asked in &replies {
        let mut state = Setup::Ask.next(asked);
        if *asked == Resp::Integer(1) {
            assert_eq!(state.command("l"), Some(vec![b"DEL".to_vec(), b"l".to_vec()]));
            for deleted in &replies {
                assert_eq!(state.next(deleted), Setup::Push);
            }
            state = state.next(&replies[0]);
        }
        let args = state.command("l").unwrap();
        assert_eq!(args[..2], [b"RPUSH".to_vec(), b"l".to_vec()]);
        assert_eq!(args[2..], vec![b"0".to_vec(); 60]);
    }
}
