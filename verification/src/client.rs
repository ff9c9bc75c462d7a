//! A client of the server: how it connects, how it exchanges a command for a reply, and the
//! commands that it knows.
use vstd::prelude::*;
use vstd::utf8::*;

use crate::resp::{arg_views, Resp, Value};
use crate::text::{
    law_decimal_reads_back, push_decimal, same_text, signed_decimal, signed_value,
};

verus! {

/// How often the client tries to connect before it gives up.
pub const CONNECT_ATTEMPTS: u32 = 3;

/// How long the client pauses behind an attempt that failed, in milliseconds.
pub const CONNECT_PAUSE_MS: u64 = 250;

/// Why an attempt to connect failed.
#[derive(Clone, Copy, Debug, PartialEq, Eq, Structural)]
pub enum ConnectFault {
    /// The name of the server could not be resolved.
    Unresolved,
    /// The name of the server stands for no address.
    NoAddress,
    /// The address took no connection.
    Refused,
}

/// How an attempt to connect ended.
#[derive(Clone, Copy, Debug, PartialEq, Eq, Structural)]
pub enum Attempt {
    Connected,
    Failed(ConnectFault),
}

/// What follows an attempt to connect.
#[derive(Clone, Copy, Debug, PartialEq, Eq, Structural)]
pub enum ConnectStep {
    /// There is a connection.
    Established,
    /// Pause, then try again; so many attempts have failed.
    Again { failures: u32, pause_ms: u64 },
    /// Pause, then report the fault of the last attempt.
    GiveUp { fault: ConnectFault, pause_ms: u64 },
}

/// What follows an attempt, where `failures` attempts have failed before it.
pub open spec fn connect_step(failures: int, attempt: Attempt) -> ConnectStep {
    match attempt {
        Attempt::Connected => ConnectStep::Established,
        Attempt::Failed(fault) => if failures + 1 < CONNECT_ATTEMPTS {
            ConnectStep::Again { failures: (failures + 1) as u32, pause_ms: CONNECT_PAUSE_MS }
        } else {
            ConnectStep::GiveUp { fault, pause_ms: CONNECT_PAUSE_MS }
        },
    }
}

/// Decides what follows an attempt, where `failures` attempts have failed before it.
pub fn after_attempt(failures: u32, attempt: Attempt) -> (r: ConnectStep)
    ensures
        r == connect_step(failures as int, attempt),
{
    match attempt {
        Attempt::Connected => ConnectStep::Established,
        Attempt::Failed(fault) => if failures < CONNECT_ATTEMPTS - 1 {
            ConnectStep::Again { failures: failures + 1, pause_ms: CONNECT_PAUSE_MS }
        } else {
            ConnectStep::GiveUp { fault, pause_ms: CONNECT_PAUSE_MS }
        },
    }
}

/// The step that ends a run of attempts, and the number of attempts up to it; `None` where the
/// attempts are over before the run is.
pub open spec fn connect_run(failures: int, attempts: Seq<Attempt>) -> Option<(ConnectStep, nat)>
    decreases attempts.len(),
{
    if attempts.len() == 0 {
        None
    } else {
        match connect_step(failures, attempts[0]) {
            ConnectStep::Again { .. } => match connect_run(failures + 1, attempts.skip(1)) {
                Some((step, n)) => Some((step, n + 1)),
                None => None,
            },
            step => Some((step, 1)),
        }
    }
}

/// Whether the first `n` attempts failed.
pub open spec fn all_failed(attempts: Seq<Attempt>, n: int) -> bool {
    forall|i: int| 0 <= i < n ==> #[trigger] attempts[i] is Failed
}

/// The client is connected with the first of three attempts that succeeds. Where all three fail it
/// gives up behind the third, with the fault of the third.
pub proof fn law_three_attempts(attempts: Seq<Attempt>)
    requires
        attempts.len() >= 3,
    ensures
        all_failed(attempts, 3) ==> connect_run(0, attempts) == Some(
            (
                ConnectStep::GiveUp {
                    fault: attempts[2]->Failed_0,
                    pause_ms: CONNECT_PAUSE_MS,
                },
                3nat,
            ),
        ),
        forall|n: int|
            0 <= n < 3 && all_failed(attempts, n) && #[trigger] attempts[n] is Connected
                ==> connect_run(0, attempts) == Some((ConnectStep::Established, (n + 1) as nat)),
{
    reveal_with_fuel(connect_run, 4);
    let second = attempts.skip(1);
    let third = second.skip(1);
    assert(second[0] == attempts[1]);
    assert(third[0] == attempts[2]);
    assert(attempts[0] is Failed || attempts[0] is Connected);
    assert(attempts[1] is Failed || attempts[1] is Connected);
    assert(attempts[2] is Failed || attempts[2] is Connected);
}

/// Where the exchange of a command for a reply stands: what is to be done next, or how it ended.
#[derive(Clone, Copy, Debug, PartialEq, Eq, Structural)]
pub enum Exchange {
    /// Connect: there is no connection yet.
    Connect,
    /// Write the command.
    Write,
    /// Drop the connection, which took no command, and connect anew.
    Reconnect,
    /// Write the command to the new connection.
    Rewrite,
    /// Read the reply.
    Read,
    /// The reply has come.
    Replied,
    /// What was last done failed, and its error is the outcome.
    Failed,
}

impl Exchange {
    /// Where an exchange starts.
    pub open spec fn first(connected: bool) -> Exchange {
        if connected {
            Exchange::Write
        } else {
            Exchange::Connect
        }
    }

    /// Whether the exchange is over.
    pub open spec fn is_over(self) -> bool {
        self is Replied || self is Failed
    }

    /// What follows when that which was to be done has succeeded, or has not.
    pub open spec fn then_on(self, ok: bool) -> Exchange {
        match self {
            Exchange::Connect => if ok {
                Exchange::Write
            } else {
                Exchange::Failed
            },
            Exchange::Write => if ok {
                Exchange::Read
            } else {
                Exchange::Reconnect
            },
            Exchange::Reconnect => if ok {
                Exchange::Rewrite
            } else {
                Exchange::Failed
            },
            Exchange::Rewrite => if ok {
                Exchange::Read
            } else {
                Exchange::Failed
            },
            Exchange::Read => if ok {
                Exchange::Replied
            } else {
                Exchange::Failed
            },
            Exchange::Replied => Exchange::Replied,
            Exchange::Failed => Exchange::Failed,
        }
    }

    /// The start of an exchange, with a connection or without.
    pub fn start(connected: bool) -> (r: Exchange)
        ensures
            r == Exchange::first(connected),
    {
        if connected {
            Exchange::Write
        } else {
            Exchange::Connect
        }
    }

    /// Decides what follows when that which was to be done has succeeded, or has not. A command
    /// that could not be written is written once more, to a new connection.
    pub fn next(self, ok: bool) -> (r: Exchange)
        ensures
            r == self.then_on(ok),
    {
        match (self, ok) {
            (Exchange::Connect, true) => Exchange::Write,
            (Exchange::Write, true) => Exchange::Read,
            (Exchange::Write, false) => Exchange::Reconnect,
            (Exchange::Reconnect, true) => Exchange::Rewrite,
            (Exchange::Rewrite, true) => Exchange::Read,
            (Exchange::Read, true) => Exchange::Replied,
            (Exchange::Replied, _) => Exchange::Replied,
            _ => Exchange::Failed,
        }
    }

    /// Where an exchange stands behind a run of outcomes.
    pub open spec fn behind(self, outcomes: Seq<bool>) -> Exchange
        decreases outcomes.len(),
    {
        if outcomes.len() == 0 {
            self
        } else {
            self.then_on(outcomes[0]).behind(outcomes.skip(1))
        }
    }

    /// How often the command is written during a run of outcomes.
    pub open spec fn writes(self, outcomes: Seq<bool>) -> nat
        decreases outcomes.len(),
    {
        if outcomes.len() == 0 {
            0
        } else {
            self.then_on(outcomes[0]).writes(outcomes.skip(1)) + (if self is Write
                || self is Rewrite {
                1nat
            } else {
                0
            })
        }
    }
}

/// An exchange is over behind five outcomes, and no command is written more than twice.
pub proof fn law_exchange_ends(connected: bool, outcomes: Seq<bool>)
    ensures
        outcomes.len() >= 5 ==> Exchange::first(connected).behind(outcomes).is_over(),
        Exchange::first(connected).writes(outcomes) <= 2,
{
    lemma_exchange_rank(Exchange::first(connected), outcomes);
}

spec fn exchange_rank(e: Exchange) -> nat {
    match e {
        Exchange::Connect => 5,
        Exchange::Write => 4,
        Exchange::Reconnect => 3,
        Exchange::Rewrite => 2,
        Exchange::Read => 1,
        _ => 0,
    }
}

spec fn writes_left(e: Exchange) -> nat {
    match e {
        Exchange::Connect | Exchange::Write => 2,
        Exchange::Reconnect | Exchange::Rewrite => 1,
        _ => 0,
    }
}

proof fn lemma_exchange_rank(e: Exchange, outcomes: Seq<bool>)
    ensures
        outcomes.len() >= exchange_rank(e) ==> e.behind(outcomes).is_over(),
        e.writes(outcomes) <= writes_left(e),
    decreases outcomes.len(),
{
    if outcomes.len() > 0 {
        lemma_exchange_rank(e.then_on(outcomes[0]), outcomes.skip(1));
    }
}

/// An exchange that starts with a connection brings the reply just where the command is written and
/// the reply read, or where the write fails and a second one behind a new connection does as well.
pub proof fn law_reply_behind_write(a: bool, b: bool, c: bool, d: bool)
    ensures
        Exchange::first(true).behind(seq![a, b, c, d]) is Replied <==> (a && b) || (!a && b && c
            && d),
        Exchange::first(false).behind(seq![true, a, b, c, d]) == Exchange::first(true).behind(
            seq![a, b, c, d],
        ),
        Exchange::first(false).behind(seq![false, a, b, c, d]) is Failed,
{
    reveal_with_fuel(Exchange::behind, 6);
    let s = seq![a, b, c, d];
    assert(s.skip(1) == seq![b, c, d]);
    assert(s.skip(1).skip(1) == seq![c, d]);
    assert(s.skip(1).skip(1).skip(1) == seq![d]);
    assert(seq![true, a, b, c, d].skip(1) == s);
    assert(seq![false, a, b, c, d].skip(1) == s);
}

fn bytes_of(s: &str) -> (r: Vec<u8>)
    ensures
        r@ == encode_utf8(s@),
{
    vstd::slice::slice_to_vec(s.as_bytes())
}

/// The arguments of the command that asks whether `key` exists.
pub open spec fn exists_args(key: Seq<char>) -> Seq<Seq<u8>> {
    seq![encode_utf8("EXISTS"@), encode_utf8(key)]
}

/// The command that asks whether `key` exists.
pub fn exists_command(key: &str) -> (r: Vec<Vec<u8>>)
    ensures
        arg_views(r@) == exists_args(key@),
{
    let mut args: Vec<Vec<u8>> = Vec::new();
    args.push(bytes_of("EXISTS"));
    args.push(bytes_of(key));
    proof {
        assert(arg_views(args@) == exists_args(key@));
    }
    args
}

/// Whether the reply says that the key exists: it is the integer one.
pub fn exists_reply(reply: &Resp) -> (r: bool)
    ensures
        r == (reply@ == Value::Integer(1)),
{
    match reply {
        Resp::Integer(n) => *n == 1,
        _ => false,
    }
}

/// The arguments of the command that deletes `key`.
pub open spec fn del_args(key: Seq<char>) -> Seq<Seq<u8>> {
    seq![encode_utf8("DEL"@), encode_utf8(key)]
}

/// The command that deletes `key`.
pub fn del_command(key: &str) -> (r: Vec<Vec<u8>>)
    ensures
        arg_views(r@) == del_args(key@),
{
    let mut args: Vec<Vec<u8>> = Vec::new();
    args.push(bytes_of("DEL"));
    args.push(bytes_of(key));
    proof {
        assert(arg_views(args@) == del_args(key@));
    }
    args
}

/// The count in a reply that is an integer; zero for any other reply.
pub open spec fn count_in(reply: Value) -> i64 {
    match reply {
        Value::Integer(n) => n,
        _ => 0,
    }
}

/// The count in the reply to a deletion or to a push.
pub fn count_reply(reply: &Resp) -> (r: i64)
    ensures
        r == count_in(reply@),
{
    match reply {
        Resp::Integer(n) => *n,
        _ => 0,
    }
}

/// The arguments of the command that puts `values` at the end of the list `key`.
pub open spec fn rpush_args(key: Seq<char>, values: Seq<Seq<char>>) -> Seq<Seq<u8>> {
    seq![encode_utf8("RPUSH"@), encode_utf8(key)] + values.map_values(
        |v: Seq<char>| encode_utf8(v),
    )
}

/// The command that puts `values` at the end of the list `key`.
pub fn rpush_many_command(key: &str, values: &[&str]) -> (r: Vec<Vec<u8>>)
    ensures
        arg_views(r@) == rpush_args(key@, values@.map_values(|v: &str| v@)),
{
    let ghost texts = values@.map_values(|v: &str| v@);
    let ghost encoded = texts.map_values(|v: Seq<char>| encode_utf8(v));
    let mut args: Vec<Vec<u8>> = Vec::new();
    args.push(bytes_of("RPUSH"));
    args.push(bytes_of(key));
    let ghost front = seq![encode_utf8("RPUSH"@), encode_utf8(key@)];
    let mut i: usize = 0;
    proof {
        assert(arg_views(args@) == front + encoded.take(0));
    }
    while i < values.len()
        invariant
            i <= values@.len(),
            texts == values@.map_values(|v: &str| v@),
            encoded == texts.map_values(|v: Seq<char>| encode_utf8(v)),
            arg_views(args@) == front + encoded.take(i as int),
        decreases values@.len() - i,
    {
        let ghost before = args@;
        args.push(bytes_of(values[i]));
        proof {
            assert(arg_views(args@) == arg_views(before).push(encode_utf8(values@[i as int]@)));
            assert(encoded[i as int] == encode_utf8(values@[i as int]@));
            assert(arg_views(args@) == front + encoded.take(i + 1));
        }
        i += 1;
    }
    proof {
        assert(encoded.take(i as int) == encoded);
    }
    args
}

/// The arguments of the command that sets element `index` of the list `key`.
pub open spec fn lset_args(key: Seq<char>, index: int, value: Seq<u8>) -> Seq<Seq<u8>> {
    seq![encode_utf8("LSET"@), encode_utf8(key), encode_utf8(signed_decimal(index)), value]
}

/// The command that sets element `index` of the list `key`.
pub fn lset_command(key: &str, index: i64, value: &[u8]) -> (r: Vec<Vec<u8>>)
    ensures
        arg_views(r@) == lset_args(key@, index as int, value@),
{
    let mut number = String::new();
    push_decimal(&mut number, index);
    let mut args: Vec<Vec<u8>> = Vec::new();
    args.push(bytes_of("LSET"));
    args.push(bytes_of(key));
    args.push(bytes_of(number.as_str()));
    args.push(vstd::slice::slice_to_vec(value));
    proof {
        assert(number@ == signed_decimal(index as int));
        assert(arg_views(args@) == lset_args(key@, index as int, value@));
    }
    args
}

/// Whether the reply says that the element was set: it is the simple string `OK`.
pub fn lset_reply(reply: &Resp) -> (r: bool)
    ensures
        r == (reply@ == Value::SimpleString("OK"@)),
{
    match reply {
        Resp::SimpleString(s) => same_text(s.as_str(), "OK"),
        _ => false,
    }
}

/// The command that ends a connection.
pub fn quit_command() -> (r: Vec<Vec<u8>>)
    ensures
        arg_views(r@) == seq![encode_utf8("QUIT"@)],
{
    let mut args: Vec<Vec<u8>> = Vec::new();
    args.push(bytes_of("QUIT"));
    proof {
        assert(arg_views(args@) == seq![encode_utf8("QUIT"@)]);
    }
    args
}

/// The first two attempts that fail are followed by a pause of 250 milliseconds and another attempt,
/// and counted; the third is followed by the pause and its fault. One that succeeds ends the run.
pub proof fn law_attempt_by_attempt(failures: int, fault: ConnectFault)
    ensures
        0 <= failures < 2 ==> connect_step(failures, Attempt::Failed(fault)) == (ConnectStep::Again {
            failures: (failures + 1) as u32,
            pause_ms: 250,
        }),
        failures >= 2 ==> connect_step(failures, Attempt::Failed(fault)) == (ConnectStep::GiveUp {
            fault,
            pause_ms: 250,
        }),
        connect_step(failures, Attempt::Connected) == ConnectStep::Established,
{
}

/// What is done goes from connecting to writing to reading to the reply, as long as it succeeds; on a
/// new connection the command is written anew. A write that fails leads to a new connection, and any
/// other failure ends the exchange.
pub proof fn law_exchange_step_by_step(e: Exchange)
    ensures
        Exchange::first(true) == Exchange::Write,
        Exchange::first(false) == Exchange::Connect,
        Exchange::Connect.then_on(true) == Exchange::Write,
        Exchange::Write.then_on(true) == Exchange::Read,
        Exchange::Reconnect.then_on(true) == Exchange::Rewrite,
        Exchange::Rewrite.then_on(true) == Exchange::Read,
        Exchange::Read.then_on(true) == Exchange::Replied,
        e.then_on(false) is Reconnect <==> e is Write,
        e.then_on(false) is Replied <==> e is Replied,
        !(e is Write) && !(e is Replied) ==> e.then_on(false) is Failed,
        e.is_over() <==> e.then_on(true) == e,
{
}

/// The commands name the key as it is, and carry the values as they are: decoded, the arguments are
/// the name of the command, the key, and the values in order; the index of an element is written in
/// decimal.
pub proof fn law_commands_carry_their_arguments(
    key: Seq<char>,
    values: Seq<Seq<char>>,
    i: int,
    index: int,
    value: Seq<u8>,
)
    ensures
        exists_args(key).len() == 2,
        decode_utf8(exists_args(key)[0]) == "EXISTS"@,
        decode_utf8(exists_args(key)[1]) == key,
        del_args(key).len() == 2,
        decode_utf8(del_args(key)[0]) == "DEL"@,
        decode_utf8(del_args(key)[1]) == key,
        rpush_args(key, values).len() == 2 + values.len(),
        decode_utf8(rpush_args(key, values)[0]) == "RPUSH"@,
        decode_utf8(rpush_args(key, values)[1]) == key,
        0 <= i < values.len() ==> decode_utf8(rpush_args(key, values)[2 + i]) == values[i],
        lset_args(key, index, value).len() == 4,
        decode_utf8(lset_args(key, index, value)[0]) == "LSET"@,
        decode_utf8(lset_args(key, index, value)[1]) == key,
        decode_utf8(lset_args(key, index, value)[2]) == signed_decimal(index),
        signed_value(decode_utf8(lset_args(key, index, value)[2])) == Some(index),
        lset_args(key, index, value)[3] == value,
{
    encode_utf8_decode_utf8("EXISTS"@);
    encode_utf8_decode_utf8("DEL"@);
    encode_utf8_decode_utf8("RPUSH"@);
    encode_utf8_decode_utf8("LSET"@);
    encode_utf8_decode_utf8(key);
    encode_utf8_decode_utf8(signed_decimal(index));
    law_decimal_reads_back(index);
    if 0 <= i < values.len() {
        encode_utf8_decode_utf8(values[i]);
        assert(rpush_args(key, values)[2 + i] == encode_utf8(values[i]));
    }
}

/// The count in a reply is the integer that it is, and zero just where it is the integer zero or no
/// integer.
pub proof fn law_count_in_a_reply(n: i64, reply: Value)
    ensures
        count_in(Value::Integer(n)) == n,
        !(reply is Integer) ==> count_in(reply) == 0,
{
}

} // verus!
