//! What the commands of the recorder do to the entries of a server that answers them as Valkey
//! documents.
use vstd::prelude::*;
use vstd::utf8::*;

use crate::client::lset_args;
use crate::resp::{
    decode, find_crlf, is_writable, law_reply_reads_back, lemma_find_crlf, written, Progress, Value,
};
use crate::rolling::{zeros, Setup, SLOTS};
use crate::text::{law_decimal_reads_back, signed_decimal, signed_value, words};
use crate::vmstat::{document, is_row, second_of};

verus! {

/// What a server holds under a key.
pub enum Entry {
    /// A list.
    List(Seq<Seq<u8>>),
    /// Something of another type, which the commands for entries do not touch.
    Other(Seq<u8>),
}

/// What a server holds, each entry under its key.
pub type Entries = Map<Seq<u8>, Entry>;

/// The elements that the commands for entries find under a key, none where the key is not known; `None`
/// where it is of another type.
pub open spec fn elements(entries: Entries, key: Seq<u8>) -> Option<Seq<Seq<u8>>> {
    if !entries.dom().contains(key) {
        Some(Seq::empty())
    } else {
        match entries[key] {
            Entry::List(list) => Some(list),
            Entry::Other(_) => None,
        }
    }
}

/// What a server that answers as Valkey documents makes of its entries, and replies, when it gets a
/// command of the recorder. How an error is worded is left open.
pub open spec fn answer(entries: Entries, args: Seq<Seq<u8>>, error: Seq<char>) -> (Entries, Value) {
    let key = args[1];
    let known = entries.dom().contains(key);
    if args[0] == encode_utf8("EXISTS"@) {
        (entries, Value::Integer(if known { 1 } else { 0 }))
    } else if args[0] == encode_utf8("DEL"@) {
        (entries.remove(key), Value::Integer(if known { 1 } else { 0 }))
    } else if args[0] == encode_utf8("RPUSH"@) {
        match elements(entries, key) {
            Some(before) => {
                let list = before + args.skip(2);
                (entries.insert(key, Entry::List(list)), Value::Integer(list.len() as i64))
            },
            None => (entries, Value::Error(error)),
        }
    } else if args[0] == encode_utf8("LSET"@) {
        match (signed_value(decode_utf8(args[2])), elements(entries, key)) {
            (Some(i), Some(list)) => {
                let at = if i < 0 {
                    list.len() + i
                } else {
                    i
                };
                if 0 <= at < list.len() {
                    (
                        entries.insert(key, Entry::List(list.update(at, args[3]))),
                        Value::SimpleString("OK"@),
                    )
                } else {
                    (entries, Value::Error(error))
                }
            },
            _ => (entries, Value::Error(error)),
        }
    } else {
        (entries, Value::Error(error))
    }
}

/// What such a server replies comes over the wire unchanged, whatever bytes follow it, as long as its
/// errors hold no line end.
pub proof fn law_answer_comes_over_the_wire(
    entries: Entries,
    args: Seq<Seq<u8>>,
    error: Seq<char>,
    rest: Seq<u8>,
)
    requires
        find_crlf(encode_utf8(error)) is None,
    ensures
        ({
            let reply = answer(entries, args, error).1;
            decode(written(reply) + rest) == Progress::Complete(reply, written(reply).len())
        }),
{
    let ok = encode_utf8("OK"@);
    assert(find_crlf(ok) is None) by {
        reveal_strlit("OK");
        is_ascii_chars_encode_utf8("OK"@);
        assert(ok[0] == 'O' as u8);
        assert(ok[1] == 'K' as u8);
        lemma_find_crlf(ok);
    }
    let reply = answer(entries, args, error).1;
    assert(is_writable(reply));
    law_reply_reads_back(reply, rest);
}

/// The setting up of `list` with such a server: how it ends, and the entries behind it. `steps` bounds
/// the number of commands.
pub open spec fn set_up(state: Setup, entries: Entries, list: Seq<char>, error: Seq<char>, steps: nat) -> (
    Setup,
    Entries,
)
    decreases steps,
{
    match state.args(list) {
        Some(args) => if steps == 0 {
            (state, entries)
        } else {
            let (after, reply) = answer(entries, args, error);
            set_up(state.then_on(reply), after, list, error, (steps - 1) as nat)
        },
        None => (state, entries),
    }
}

/// The list with a zero for each second.
pub open spec fn blank() -> Seq<Seq<u8>> {
    Seq::new(SLOTS as nat, |i: int| encode_utf8("0"@))
}

proof fn lemma_names_differ()
    ensures
        encode_utf8("EXISTS"@) != encode_utf8("DEL"@),
        encode_utf8("EXISTS"@) != encode_utf8("RPUSH"@),
        encode_utf8("EXISTS"@) != encode_utf8("LSET"@),
        encode_utf8("DEL"@) != encode_utf8("RPUSH"@),
        encode_utf8("DEL"@) != encode_utf8("LSET"@),
        encode_utf8("RPUSH"@) != encode_utf8("LSET"@),
{
    reveal_strlit("EXISTS");
    reveal_strlit("DEL");
    reveal_strlit("RPUSH");
    reveal_strlit("LSET");
    encode_utf8_decode_utf8("EXISTS"@);
    encode_utf8_decode_utf8("DEL"@);
    encode_utf8_decode_utf8("RPUSH"@);
    encode_utf8_decode_utf8("LSET"@);
    assert("EXISTS"@.len() == 6);
    assert("DEL"@.len() == 3);
    assert("RPUSH"@.len() == 5);
    assert("LSET"@.len() == 4);
}

/// Whatever the server held before, setting up the list ends well within three commands and leaves
/// a zero for each second, in place of whatever stood under its key; every other key stays as it was.
pub proof fn law_setup_leaves_zeros(entries: Entries, list: Seq<char>, error: Seq<char>)
    ensures
        set_up(Setup::Ask, entries, list, error, 3) == (
            Setup::Ready,
            entries.insert(encode_utf8(list), Entry::List(blank())),
        ),
{
    lemma_names_differ();
    reveal_with_fuel(set_up, 5);
    let key = encode_utf8(list);
    let push = Setup::Push.args(list)->0;
    assert(push.skip(2) == blank());
    assert(Seq::<Seq<u8>>::empty() + blank() == blank());
    let ready = Entry::List(blank());
    if entries.dom().contains(key) {
        assert(entries.remove(key).insert(key, ready) == entries.insert(key, ready));
    }
}

/// What the server makes of its entries when the row on `line` is stored in `list`.
pub open spec fn row_stored(entries: Entries, list: Seq<char>, line: Seq<char>, error: Seq<char>) -> (
    Entries,
    Value,
) {
    answer(
        entries,
        lset_args(list, second_of(words(line)[19]), encode_utf8(document(words(line)))),
        error,
    )
}

/// A row is stored in the element of its second, and in no other, of any list that has an element
/// for each second.
pub proof fn law_row_goes_to_its_second(
    entries: Entries,
    list: Seq<char>,
    line: Seq<char>,
    error: Seq<char>,
)
    requires
        is_row(line),
        entries.dom().contains(encode_utf8(list)),
        entries[encode_utf8(list)] is List,
        entries[encode_utf8(list)]->List_0.len() == SLOTS,
    ensures
        row_stored(entries, list, line, error) == (
            entries.insert(
                encode_utf8(list),
                Entry::List(
                    entries[encode_utf8(list)]->List_0.update(
                        second_of(words(line)[19]),
                        encode_utf8(document(words(line))),
                    ),
                ),
            ),
            Value::SimpleString("OK"@),
        ),
{
    lemma_names_differ();
    let second = second_of(words(line)[19]);
    encode_utf8_decode_utf8(signed_decimal(second));
    law_decimal_reads_back(second);
}

/// The entries of the server behind the storing of rows, one by one.
pub open spec fn rows_stored(entries: Entries, list: Seq<char>, lines: Seq<Seq<char>>, error: Seq<char>) -> Entries
    decreases lines.len(),
{
    if lines.len() == 0 {
        entries
    } else {
        row_stored(rows_stored(entries, list, lines.drop_last(), error), list, lines.last(), error).0
    }
}

/// The document of the latest row of `second`; a zero where there is none.
pub open spec fn latest(lines: Seq<Seq<char>>, second: int) -> Seq<u8>
    decreases lines.len(),
{
    if lines.len() == 0 {
        encode_utf8("0"@)
    } else if second_of(words(lines.last())[19]) == second {
        encode_utf8(document(words(lines.last())))
    } else {
        latest(lines.drop_last(), second)
    }
}

/// Behind the setting up and the storing of any rows, the list holds for each second of the minute
/// the latest row of that second, or a zero where none has come.
pub proof fn law_list_holds_latest_rows(
    entries: Entries,
    list: Seq<char>,
    lines: Seq<Seq<char>>,
    error: Seq<char>,
)
    requires
        forall|i: int| 0 <= i < lines.len() ==> is_row(#[trigger] lines[i]),
    ensures
        rows_stored(set_up(Setup::Ask, entries, list, error, 3).1, list, lines, error)
            == entries.insert(
            encode_utf8(list),
            Entry::List(Seq::new(SLOTS as nat, |second: int| latest(lines, second))),
        ),
    decreases lines.len(),
{
    let key = encode_utf8(list);
    law_setup_leaves_zeros(entries, list, error);
    let slots = Seq::new(SLOTS as nat, |second: int| latest(lines, second));
    if lines.len() == 0 {
        assert(slots == blank());
    } else {
        let before = lines.drop_last();
        let line = lines.last();
        assert(is_row(lines[lines.len() - 1]));
        assert forall|i: int| 0 <= i < before.len() implies is_row(#[trigger] before[i]) by {
            assert(is_row(lines[i]));
        }
        law_list_holds_latest_rows(entries, list, before, error);
        let old_slots = Seq::new(SLOTS as nat, |second: int| latest(before, second));
        let held = entries.insert(key, Entry::List(old_slots));
        law_row_goes_to_its_second(held, list, line, error);
        assert(old_slots.update(
            second_of(words(line)[19]),
            encode_utf8(document(words(line))),
        ) == slots);
        assert(held.insert(key, Entry::List(slots)) == entries.insert(key, Entry::List(slots)));
    }
}

} // verus!
