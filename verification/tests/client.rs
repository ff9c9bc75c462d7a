use vmstat_valkey::client::{
    after_attempt, count_reply, del_command, exists_command, exists_reply, lset_command,
    lset_reply, quit_command, rpush_many_command, Attempt, ConnectFault, ConnectStep, Exchange,
};
use vmstat_valkey::resp::Resp;

fn texts(args: Vec<Vec<u8>>) -> Vec<String> {
    args.into_iter().map(|a| String::from_utf8(a).unwrap()).collect()
}

fn connect(attempts: &[Attempt]) -> (ConnectStep, usize) {
    let mut failures = 0;
    for (i, attempt) in attempts.iter().enumerate() {
        match after_attempt(failures, *attempt) {
            ConnectStep::Again { failures: n, pause_ms } => {
                assert_eq!(pause_ms, 250);
                failures = n;
            }
            step => return (step, i + 1),
        }
    }
    panic!("no end")
}

#[test]
fn three_attempts_to_connect() {
    let a = Attempt::Failed(ConnectFault::Unresolved);
    let b = Attempt::Failed(ConnectFault::NoAddress);
    let c = Attempt::Failed(ConnectFault::Refused);
    let ok = Attempt::Connected;
    assert_eq!(connect(&[ok, a, a]), (ConnectStep::Established, 1));
    assert_eq!(connect(&[a, ok, a]), (ConnectStep::Established, 2));
    assert_eq!(connect(&[a, b, ok]), (ConnectStep::Established, 3));
    assert_eq!(
        connect(&[a, b, c]),
        (ConnectStep::GiveUp { fault: ConnectFault::Refused, pause_ms: 250 }, 3)
    );
}

#[test]
fn many_failures_are_no_more_than_three() {
    assert_eq!(
        after_attempt(u32::MAX, Attempt::Failed(ConnectFault::Refused)),
        ConnectStep::GiveUp { fault: ConnectFault::Refused, pause_ms: 250 }
    );
}

fn exchange(connected: bool, outcomes: &[bool]) -> (Exchange, usize) {
    let mut e = Exchange::start(connected);
    let mut writes = 0;
    for ok in outcomes {
        if e == Exchange::Write || e == Exchange::Rewrite {
            writes += 1;
        }
        e = e.next(*ok);
    }
    (e, writes)
}

#[test]
fn exchange_replies_behind_a_write() {
    assert_eq!(exchange(true, &[true, true]), (Exchange::Replied, 1));
    assert_eq!(exchange(false, &[true, true, true]), (Exchange::Replied, 1));
    assert_eq!(exchange(true, &[false, true, true, true]), (Exchange::Replied, 2));
    assert_eq!(exchange(true, &[false, true, false]), (Exchange::Failed, 2));
    assert_eq!(exchange(true, &[false, false]), (Exchange::Failed, 1));
    assert_eq!(exchange(false, &[false]), (Exchange::Failed, 0));
    assert_eq!(exchange(true, &[true, false]), (Exchange::Failed, 1));
}

#[test]
fn exchange_ends_within_five_outcomes() {
    for bits in 0..32u32 {
        let outcomes: Vec<bool> = (0..5).map(|i| bits & (1 << i) != 0).collect();
        for connected in [true, false] {
            let (e, writes) = exchange(connected, &outcomes);
            assert!(e == Exchange::Replied || e == Exchange::Failed);
            assert!(writes <= 2);
        }
    }
    assert_eq!(Exchange::Replied.next(false), Exchange::Replied);
    assert_eq!(Exchange::Failed.next(true), Exchange::Failed);
}

#[test]
fn commands_and_their_arguments() {
    assert_eq!(texts(exists_command("k\u{e9}")), ["EXISTS", "k\u{e9}"]);
    assert_eq!(texts(del_command("k")), ["DEL", "k"]);
    assert_eq!(texts(rpush_many_command("k", &["0", "", "x y"])), ["RPUSH", "k", "0", "", "x y"]);
    assert_eq!(texts(rpush_many_command("k", &[])), ["RPUSH", "k"]);
    assert_eq!(texts(lset_command("k", 59, b"{}")), ["LSET", "k", "59", "{}"]);
    assert_eq!(texts(lset_command("k", -1, b"")), ["LSET", "k", "-1", ""]);
    assert_eq!(texts(quit_command()), ["QUIT"]);
}

#[test]
fn replies_and_what_they_say() {
    let one = Resp::Integer(1);
    let two = Resp::Integer(2);
    let ok = Resp::SimpleString("OK".to_string());
    let queued = Resp::SimpleString("QUEUED".to_string());
    let err = Resp::Error("OK".to_string());
    let bulk = Resp::BulkString(Some(b"OK".to_vec()));
    assert!(exists_reply(&one));
    assert!(!exists_reply(&two));
    assert!(!exists_reply(&ok));
    assert_eq!(count_reply(&two), 2);
    assert_eq!(count_reply(&Resp::Integer(-3)), -3);
    assert_eq!(count_reply(&err), 0);
    assert!(lset_reply(&ok));
    assert!(!lset_reply(&queued));
    assert!(!lset_reply(&err));
    assert!(!lset_reply(&bulk));
    assert!(!lset_reply(&one));
}
