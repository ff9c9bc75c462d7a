//! The list of the last sixty rows: one element for each second of the minute.
use vstd::prelude::*;

use crate::client::{
    count_in, count_reply, del_args, del_command, exists_args, exists_command, exists_reply,
    rpush_args, rpush_many_command,
};
use crate::resp::{arg_views, Resp, Value};

verus! {

/// The name of the list for a host.
pub open spec fn list_name(host: Seq<char>) -> Seq<char> {
    "RSE^statistics^"@ + host + "^vmstat^rollingsixty"@
}

/// The name of the list for `host`.
pub fn build_list_name(host: &str) -> (r: String)
    ensures
        r@ == list_name(host@),
{
    let mut name = String::new();
    name.push_str("RSE^statistics^");
    name.push_str(host);
    name.push_str("^vmstat^rollingsixty");
    proof {
        assert(name@ == list_name(host@));
    }
    name
}

/// No two hosts share a list.
pub proof fn law_list_name_tells_hosts_apart(a: Seq<char>, b: Seq<char>)
    requires
        list_name(a) == list_name(b),
    ensures
        a == b,
{
    let front = "RSE^statistics^"@.len() as int;
    let back = "^vmstat^rollingsixty"@.len() as int;
    assert(list_name(a).len() == front + a.len() + back);
    assert(list_name(b).len() == front + b.len() + back);
    assert forall|i: int| 0 <= i < a.len() implies a[i] == b[i] by {
        assert(list_name(a)[front + i] == a[i]);
        assert(list_name(b)[front + i] == b[i]);
    }
    assert(a == b);
}

/// The number of elements that the list has.
pub const SLOTS: usize = 60;

/// Where the setting up of the list stands: the command to send next, or how it ended.
#[derive(Clone, Copy, Debug, PartialEq, Eq, Structural)]
pub enum Setup {
    /// Ask whether the list exists.
    Ask,
    /// Delete the list that exists.
    Delete,
    /// Push a zero for each second.
    Push,
    /// The list is ready.
    Ready,
    /// Behind the push the list was said to have so many elements, fewer than it needs.
    TooShort(i64),
}

/// A zero for each second of the minute.
pub open spec fn zeros() -> Seq<Seq<char>> {
    Seq::new(SLOTS as nat, |i: int| "0"@)
}

impl Setup {
    /// The arguments of the command to send next.
    pub open spec fn args(self, list: Seq<char>) -> Option<Seq<Seq<u8>>> {
        match self {
            Setup::Ask => Some(exists_args(list)),
            Setup::Delete => Some(del_args(list)),
            Setup::Push => Some(rpush_args(list, zeros())),
            _ => None,
        }
    }

    /// What follows the reply to that command.
    pub open spec fn then_on(self, reply: Value) -> Setup {
        match self {
            Setup::Ask => if reply == Value::Integer(1) {
                Setup::Delete
            } else {
                Setup::Push
            },
            Setup::Delete => Setup::Push,
            Setup::Push => if count_in(reply) < SLOTS {
                Setup::TooShort(count_in(reply))
            } else {
                Setup::Ready
            },
            ended => ended,
        }
    }

    /// The command to send next; `None` where the setting up is over.
    pub fn command(&self, list: &str) -> (r: Option<Vec<Vec<u8>>>)
        ensures
            match r {
                Some(args) => self.args(list@) == Some(arg_views(args@)),
                None => self.args(list@) is None,
            },
    {
        match self {
            Setup::Ask => Some(exists_command(list)),
            Setup::Delete => Some(del_command(list)),
            Setup::Push => {
                let mut values: Vec<&str> = Vec::new();
                while values.len() < SLOTS
                    invariant
                        values@.len() <= SLOTS,
                        forall|i: int| 0 <= i < values@.len() ==> (#[trigger] values@[i])@ == "0"@,
                    decreases SLOTS - values@.len(),
                {
                    values.push("0");
                }
                proof {
                    assert(values@.map_values(|v: &str| v@) == zeros());
                }
                Some(rpush_many_command(list, values.as_slice()))
            },
            _ => None,
        }
    }

    /// Decides what follows the reply to the command. A list that exists is deleted, whatever the
    /// reply to the deletion; behind the push it must be said to have all its elements.
    pub fn next(self, reply: &Resp) -> (r: Setup)
        ensures
            r == self.then_on(reply@),
    {
        match self {
            Setup::Ask => if exists_reply(reply) {
                Setup::Delete
            } else {
                Setup::Push
            },
            Setup::Delete => Setup::Push,
            Setup::Push => {
                let len: i64 = count_reply(reply);
                if len < SLOTS as i64 {
                    Setup::TooShort(len)
                } else {
                    Setup::Ready
                }
            },
            ended => ended,
        }
    }
}

/// Whatever the server holds under the key of the list, and whatever it replies, zeros are pushed only
/// where it did not say that the key exists, or behind a command that deletes the key; and what is
/// pushed is a zero for each second.
pub proof fn law_push_behind_absence_or_deletion(
    list: Seq<char>,
    asked: Value,
    deleted: Value,
    state: Setup,
    reply: Value,
)
    ensures
        Setup::Ask.args(list) == Some(exists_args(list)),
        asked != Value::Integer(1) ==> Setup::Ask.then_on(asked) == Setup::Push,
        asked == Value::Integer(1) ==> Setup::Ask.then_on(asked) == Setup::Delete,
        Setup::Delete.args(list) == Some(del_args(list)),
        Setup::Delete.then_on(deleted) == Setup::Push,
        state.then_on(reply) is Push ==> state is Delete || (state is Ask && reply
            != Value::Integer(1)),
        Setup::Push.args(list) == Some(rpush_args(list, zeros())),
        zeros().len() == 60,
        forall|i: int| 0 <= i < 60 ==> #[trigger] zeros()[i] == "0"@,
{
}

/// Where the storing of one row stands: what is to be done next.
#[derive(Clone, Copy, Debug, PartialEq, Eq, Structural)]
pub enum Publish {
    /// Set the element of the row's second.
    Store,
    /// Drop the connection and connect anew.
    Reconnect,
    /// Set the element once more.
    StoreAgain,
    /// Go on to the next row.
    Done,
}

impl Publish {
    /// What follows when that which was to be done has succeeded, or has not.
    pub open spec fn then_on(self, ok: bool) -> Publish {
        match self {
            Publish::Store => if ok {
                Publish::Done
            } else {
                Publish::Reconnect
            },
            Publish::Reconnect => if ok {
                Publish::StoreAgain
            } else {
                Publish::Done
            },
            _ => Publish::Done,
        }
    }

    /// Decides what follows when that which was to be done has succeeded, or has not. A row that
    /// was not stored is tried once more on a new connection, and dropped if that fails as well.
    pub fn next(self, ok: bool) -> (r: Publish)
        ensures
            r == self.then_on(ok),
    {
        match (self, ok) {
            (Publish::Store, false) => Publish::Reconnect,
            (Publish::Reconnect, true) => Publish::StoreAgain,
            _ => Publish::Done,
        }
    }

    /// Where the storing of a row stands behind a run of outcomes.
    pub open spec fn behind(self, outcomes: Seq<bool>) -> Publish
        decreases outcomes.len(),
    {
        if outcomes.len() == 0 {
            self
        } else {
            self.then_on(outcomes[0]).behind(outcomes.skip(1))
        }
    }

    /// How often the element is set during a run of outcomes.
    pub open spec fn stores(self, outcomes: Seq<bool>) -> nat
        decreases outcomes.len(),
    {
        if outcomes.len() == 0 {
            0
        } else {
            self.then_on(outcomes[0]).stores(outcomes.skip(1)) + (if self is Store
                || self is StoreAgain {
                1nat
            } else {
                0
            })
        }
    }
}

/// The recorder goes on to the next row behind three outcomes, and sets the element of a row twice
/// at most: once where that succeeds, and a second time just where it failed and a new connection
/// was made.
pub proof fn law_row_is_stored_or_dropped(outcomes: Seq<bool>)
    requires
        outcomes.len() >= 3,
    ensures
        Publish::Store.behind(outcomes) is Done,
        Publish::Store.stores(outcomes) == (if !outcomes[0] && outcomes[1] {
            2nat
        } else {
            1
        }),
{
    let second = outcomes.skip(1);
    let third = second.skip(1);
    reveal_with_fuel(Publish::behind, 4);
    reveal_with_fuel(Publish::stores, 4);
    lemma_done_stays(second);
    lemma_done_stays(third);
    lemma_done_stays(third.skip(1));
    assert(second[0] == outcomes[1]);
}

proof fn lemma_done_stays(outcomes: Seq<bool>)
    ensures
        Publish::Done.behind(outcomes) is Done,
        Publish::Done.stores(outcomes) == 0,
    decreases outcomes.len(),
{
    if outcomes.len() > 0 {
        lemma_done_stays(outcomes.skip(1));
    }
}

/// Where the start of the recorder stands: what is to be done next.
#[derive(Clone, Copy, Debug, PartialEq, Eq, Structural)]
pub enum Startup {
    /// Connect to the server.
    Connect,
    /// Set up the list.
    Setup,
    /// Drop the connection and connect anew.
    Reconnect,
    /// Set up the list once more.
    SetupAgain,
    /// Record rows.
    Running,
}

impl Startup {
    /// What follows when that which was to be done has succeeded, or has not.
    pub open spec fn then_on(self, ok: bool) -> Startup {
        match self {
            Startup::Connect => if ok {
                Startup::Setup
            } else {
                Startup::Connect
            },
            Startup::Setup => if ok {
                Startup::Running
            } else {
                Startup::Reconnect
            },
            Startup::Reconnect => if ok {
                Startup::SetupAgain
            } else {
                Startup::Running
            },
            _ => Startup::Running,
        }
    }

    /// Decides what follows when that which was to be done has succeeded, or has not. The recorder
    /// waits for a first connection as long as it takes. The list gets a second chance on a new
    /// connection; rows are recorded whether or not that succeeds.
    pub fn next(self, ok: bool) -> (r: Startup)
        ensures
            r == self.then_on(ok),
    {
        match (self, ok) {
            (Startup::Connect, true) => Startup::Setup,
            (Startup::Connect, false) => Startup::Connect,
            (Startup::Setup, false) => Startup::Reconnect,
            (Startup::Reconnect, true) => Startup::SetupAgain,
            _ => Startup::Running,
        }
    }

    /// Where the start stands behind a run of outcomes.
    pub open spec fn behind(self, outcomes: Seq<bool>) -> Startup
        decreases outcomes.len(),
    {
        if outcomes.len() == 0 {
            self
        } else {
            self.then_on(outcomes[0]).behind(outcomes.skip(1))
        }
    }
}

/// As long as the server takes no connection, the recorder goes on connecting. Once it has a
/// connection, rows are recorded behind three outcomes, whatever they are.
pub proof fn law_recorder_starts_once_connected(failed: nat, outcomes: Seq<bool>)
    ensures
        Startup::Connect.behind(Seq::new(failed, |i: int| false)) is Connect,
        outcomes.len() >= 3 ==> Startup::Connect.behind(
            Seq::new(failed, |i: int| false) + seq![true] + outcomes,
        ) is Running,
    decreases failed,
{
    let waits = Seq::new(failed, |i: int| false);
    let whole = waits + seq![true] + outcomes;
    if failed > 0 {
        let fewer = Seq::new((failed - 1) as nat, |i: int| false);
        law_recorder_starts_once_connected((failed - 1) as nat, outcomes);
        assert(waits.skip(1) == fewer);
        assert(whole.skip(1) == fewer + seq![true] + outcomes);
    } else if outcomes.len() >= 3 {
        reveal_with_fuel(Startup::behind, 5);
        assert(whole[0]);
        assert(whole.skip(1) == outcomes);
        lemma_running_stays(outcomes.skip(1));
        lemma_running_stays(outcomes.skip(1).skip(1));
        lemma_running_stays(outcomes.skip(1).skip(1).skip(1));
    }
}

proof fn lemma_running_stays(outcomes: Seq<bool>)
    ensures
        Startup::Running.behind(outcomes) is Running,
    decreases outcomes.len(),
{
    if outcomes.len() > 0 {
        lemma_running_stays(outcomes.skip(1));
    }
}

/// The name of a list is the name of its host, whole and unchanged, between two fixed texts.
pub proof fn law_list_name_holds_the_host(host: Seq<char>)
    ensures
        list_name(host).len() == host.len() + 35,
        list_name(host).take(15) == "RSE^statistics^"@,
        list_name(host).subrange(15, 15 + host.len() as int) == host,
        list_name(host).skip(15 + host.len() as int) == "^vmstat^rollingsixty"@,
{
    reveal_strlit("RSE^statistics^");
    reveal_strlit("^vmstat^rollingsixty");
    let name = list_name(host);
    assert("RSE^statistics^"@.len() == 15);
    assert("^vmstat^rollingsixty"@.len() == 20);
    assert(name.take(15) == "RSE^statistics^"@);
    assert(name.subrange(15, 15 + host.len() as int) == host);
    assert(name.skip(15 + host.len() as int) == "^vmstat^rollingsixty"@);
}

/// Behind the push the list is ready just where the server says that it has sixty elements or more;
/// otherwise the count that the server gave is told, and zero where it gave none. Then no command
/// follows, and nothing changes.
pub proof fn law_list_needs_sixty_elements(n: i64, other: Value, list: Seq<char>, state: Setup)
    ensures
        n >= 60 ==> Setup::Push.then_on(Value::Integer(n)) == Setup::Ready,
        n < 60 ==> Setup::Push.then_on(Value::Integer(n)) == Setup::TooShort(n),
        !(other is Integer) ==> Setup::Push.then_on(other) == Setup::TooShort(0),
        state is Ready || state is TooShort <==> state.args(list) is None,
        state.args(list) is None ==> state.then_on(other) == state,
{
}

/// A row that was not stored leads to a new connection, that to a second try, and everything else to
/// the next row.
pub proof fn law_row_step_by_step(p: Publish, ok: bool)
    ensures
        p.then_on(ok) is Reconnect <==> p is Store && !ok,
        p.then_on(ok) is StoreAgain <==> p is Reconnect && ok,
        !(p.then_on(ok) is Store),
{
}

/// The list is set up behind the first connection, and once more behind a second one, which is made
/// just where setting it up failed.
pub proof fn law_start_step_by_step(s: Startup, ok: bool)
    ensures
        s.then_on(ok) is Connect <==> s is Connect && !ok,
        s.then_on(ok) is Setup <==> s is Connect && ok,
        s.then_on(ok) is Reconnect <==> s is Setup && !ok,
        s.then_on(ok) is SetupAgain <==> s is Reconnect && ok,
{
}

} // verus!
