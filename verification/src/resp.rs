//! RESP, the protocol that Valkey speaks: commands on the way out, replies on the way back.
use vstd::prelude::*;
use vstd::utf8::*;

use crate::encoding::{lossy, lossy_text};
use crate::text::{
    ascii_bytes, ascii_chars, chars_of_bytes, decimal, is_digit, law_ascii_by_number,
    law_decimal_reads_back, law_no_number_in_text, law_numbers_in_text, lemma_decimal, parse_i64,
    parse_isize, push_decimal_bytes, signed_decimal, signed_value, within,
};

verus! {

/// A reply of the server.
#[derive(Debug, PartialEq, Eq)]
pub enum Resp {
    SimpleString(String),
    Error(String),
    Integer(i64),
    BulkString(Option<Vec<u8>>),
    Array(Option<Vec<Resp>>),
}

/// What a reply holds.
pub enum Value {
    SimpleString(Seq<char>),
    Error(Seq<char>),
    Integer(i64),
    BulkString(Option<Seq<u8>>),
    Array(Option<Seq<Value>>),
}

impl Resp {
    /// What the reply holds.
    pub open spec fn value(&self) -> Value
        decreases self,
    {
        match self {
            Resp::SimpleString(s) => Value::SimpleString(s@),
            Resp::Error(s) => Value::Error(s@),
            Resp::Integer(n) => Value::Integer(*n),
            Resp::BulkString(None) => Value::BulkString(None),
            Resp::BulkString(Some(b)) => Value::BulkString(Some(b@)),
            Resp::Array(None) => Value::Array(None),
            Resp::Array(Some(v)) => Value::Array(
                Some(
                    Seq::new(
                        v@.len(),
                        |i: int|
                            if 0 <= i < v@.len() {
                                v@[i].value()
                            } else {
                                arbitrary()
                            },
                    ),
                ),
            ),
        }
    }
}

impl View for Resp {
    type V = Value;

    open spec fn view(&self) -> Value {
        self.value()
    }
}

/// Where the first carriage return of `b` stands that a line feed follows.
pub open spec fn find_crlf(b: Seq<u8>) -> Option<nat>
    decreases b.len(),
{
    if b.len() < 2 {
        None
    } else if b[0] == 13 && b[1] == 10 {
        Some(0)
    } else {
        match find_crlf(b.skip(1)) {
            Some(k) => Some(k + 1),
            None => None,
        }
    }
}

/// The line that `b` starts with, without the carriage return and line feed that end it.
pub open spec fn first_line(b: Seq<u8>) -> Option<Seq<u8>> {
    match find_crlf(b) {
        Some(k) => Some(b.take(k as int)),
        None => None,
    }
}

/// The text on a line: what its bytes encode where they are UTF-8, and otherwise what
/// `String::from_utf8_lossy` makes of them.
pub open spec fn text_on(line: Seq<u8>) -> Seq<char> {
    if valid_utf8(line) {
        decode_utf8(line)
    } else {
        lossy(line)
    }
}

/// The number on a line, if it lies between `min` and `max`.
pub open spec fn number_on(line: Seq<u8>, min: int, max: int) -> Option<int> {
    within(signed_value(ascii_chars(line)), min, max)
}

/// The integer that a line holds; zero where it holds none that fits 64 bits.
pub open spec fn integer_on(line: Seq<u8>) -> i64 {
    match number_on(line, i64::MIN as int, i64::MAX as int) {
        Some(n) => n as i64,
        None => 0,
    }
}

/// The length that a line announces; `None` where it is negative, or no number of machine size.
pub open spec fn length_on(line: Seq<u8>) -> Option<nat> {
    match number_on(line, isize::MIN as int, isize::MAX as int) {
        Some(n) => if n < 0 {
            None
        } else {
            Some(n as nat)
        },
        None => None,
    }
}

/// What the bytes that have come so far amount to.
pub enum Progress<T> {
    /// A whole value, which takes up this many bytes.
    Complete(T, nat),
    /// The beginning of a value.
    Partial,
    /// A byte where a value should start that starts none, and the number of bytes up to and with
    /// it.
    Unknown(u8, nat),
}

/// The bytes that a kind of value can start with: `+`, `-`, `:`, `$` and `*`.
pub open spec fn is_lead(b: u8) -> bool {
    b == 43 || b == 45 || b == 58 || b == 36 || b == 42
}

/// What `b` amounts to as the bytes of one value.
pub open spec fn decode(b: Seq<u8>) -> Progress<Value>
    decreases b.len(), 0nat,
{
    if b.len() == 0 {
        Progress::Partial
    } else if !is_lead(b[0]) {
        Progress::Unknown(b[0], 1)
    } else {
        match find_crlf(b.skip(1)) {
            None => Progress::Partial,
            Some(k) => {
                proof {
                    lemma_find_crlf(b.skip(1));
                }
                let line = b.skip(1).take(k as int);
                let head = k + 3;
                let rest = b.skip(head as int);
                if b[0] == 43 {
                    Progress::Complete(Value::SimpleString(text_on(line)), head)
                } else if b[0] == 45 {
                    Progress::Complete(Value::Error(text_on(line)), head)
                } else if b[0] == 58 {
                    Progress::Complete(Value::Integer(integer_on(line)), head)
                } else if b[0] == 36 {
                    match length_on(line) {
                        None => Progress::Complete(Value::BulkString(None), head),
                        Some(n) => decode_bulk(rest, n, head),
                    }
                } else {
                    match length_on(line) {
                        None => Progress::Complete(Value::Array(None), head),
                        Some(n) => match decode_many(rest, n) {
                            Progress::Complete(vs, used) => Progress::Complete(
                                Value::Array(Some(vs)),
                                head + used,
                            ),
                            Progress::Partial => Progress::Partial,
                            Progress::Unknown(lead, used) => Progress::Unknown(lead, head + used),
                        },
                    }
                }
            },
        }
    }
}

/// What `b` amounts to as a bulk string of `n` bytes, behind a head of `head` bytes. Whatever stands
/// between the string and the end of its line is passed over.
pub open spec fn decode_bulk(b: Seq<u8>, n: nat, head: nat) -> Progress<Value> {
    if b.len() < n {
        Progress::Partial
    } else {
        match find_crlf(b.skip(n as int)) {
            None => Progress::Partial,
            Some(k) => Progress::Complete(
                Value::BulkString(Some(b.take(n as int))),
                head + n + k + 2,
            ),
        }
    }
}

/// What `b` amounts to as the bytes of `n` values, one behind the other.
pub open spec fn decode_many(b: Seq<u8>, n: nat) -> Progress<Seq<Value>>
    decreases b.len(), n + 1,
{
    if n == 0 {
        Progress::Complete(Seq::empty(), 0)
    } else {
        match decode(b) {
            Progress::Complete(v, used) => if used <= b.len() {
                match decode_many(b.skip(used as int), (n - 1) as nat) {
                    Progress::Complete(vs, more) => Progress::Complete(seq![v] + vs, used + more),
                    Progress::Partial => Progress::Partial,
                    Progress::Unknown(lead, more) => Progress::Unknown(lead, used + more),
                }
            } else {
                Progress::Partial
            },
            Progress::Partial => Progress::Partial,
            Progress::Unknown(lead, used) => Progress::Unknown(lead, used),
        }
    }
}

/// A line ends within the bytes that it was found in, and holds no line end itself.
pub proof fn lemma_find_crlf(b: Seq<u8>)
    ensures
        find_crlf(b) matches Some(k) ==> k + 2 <= b.len() && b[k as int] == 13 && b[k as int + 1] == 10,
        find_crlf(b) matches Some(k) ==> forall|i: int|
            0 <= i < k ==> !(#[trigger] b[i] == 13 && b[i + 1] == 10),
        find_crlf(b) is None ==> forall|i: int|
            0 <= i < b.len() - 1 ==> !(#[trigger] b[i] == 13 && b[i + 1] == 10),
    decreases b.len(),
{
    if b.len() >= 2 && !(b[0] == 13 && b[1] == 10) {
        let t = b.skip(1);
        lemma_find_crlf(t);
        match find_crlf(t) {
            Some(k) => {
                assert forall|i: int| 0 <= i < k + 1 implies !(#[trigger] b[i] == 13 && b[i + 1]
                    == 10) by {
                    if i > 0 {
                        assert(!(t[i - 1] == 13 && t[i] == 10));
                    }
                }
            },
            None => {
                assert forall|i: int| 0 <= i < b.len() - 1 implies !(#[trigger] b[i] == 13 && b[i
                    + 1] == 10) by {
                    if i > 0 {
                        assert(!(t[i - 1] == 13 && t[i] == 10));
                    }
                }
            },
        }
    }
}

proof fn lemma_crlf_at(b: Seq<u8>, k: int)
    requires
        0 <= k < b.len() - 1,
        b[k] == 13 && b[k + 1] == 10,
        forall|i: int| 0 <= i < k ==> !(#[trigger] b[i] == 13 && b[i + 1] == 10),
    ensures
        find_crlf(b) == Some(k as nat),
{
    lemma_find_crlf(b);
    match find_crlf(b) {
        Some(j) => {
            if j < k {
                assert(!(b[j as int] == 13 && b[j as int + 1] == 10));
            }
            if j > k {
                assert(!(b[k] == 13 && b[k + 1] == 10));
            }
        },
        None => {
            assert(!(b[k] == 13 && b[k + 1] == 10));
        },
    }
}

/// The line that starts at `at`, and the place behind the carriage return and line feed that end
/// it; `None` where they have not come.
pub fn read_line_crlf(buf: &[u8], at: usize) -> (r: Option<(Vec<u8>, usize)>)
    requires
        at <= buf@.len(),
    ensures
        match r {
            Some((line, next)) => first_line(buf@.skip(at as int)) == Some(line@) && next == at
                + line@.len() + 2 && next <= buf@.len(),
            None => first_line(buf@.skip(at as int)) is None,
        },
{
    let ghost t = buf@.skip(at as int);
    let mut line: Vec<u8> = Vec::new();
    let mut i: usize = at;
    while i < buf.len()
        invariant
            at <= i <= buf@.len(),
            t == buf@.skip(at as int),
            line@ == t.take(i - at),
            forall|k: int| 0 <= k < i - at && k + 1 < t.len() ==> !(#[trigger] t[k] == 13 && t[k + 1]
                == 10),
        decreases buf@.len() - i,
    {
        proof {
            assert(t[i - at] == buf@[i as int]);
        }
        if i < buf.len() - 1 && buf[i] == 13 && buf[i + 1] == 10 {
            proof {
                assert(t[i - at + 1] == buf@[i + 1]);
                lemma_crlf_at(t, i - at);
            }
            return Some((line, i + 2));
        }
        line.push(buf[i]);
        proof {
            if i < buf@.len() - 1 {
                assert(t[i - at + 1] == buf@[i + 1]);
            }
        }
        i += 1;
    }
    proof {
        lemma_find_crlf(t);
    }
    None
}

/// The `len` bytes that start at `at`, and the place behind them; `None` where they have not come.
pub fn read_exact_len(buf: &[u8], at: usize, len: usize) -> (r: Option<(Vec<u8>, usize)>)
    requires
        at <= buf@.len(),
    ensures
        match r {
            Some((data, next)) => len <= buf@.len() - at && data@ == buf@.skip(at as int).take(
                len as int,
            ) && next == at + len,
            None => buf@.len() - at < len,
        },
{
    if buf.len() - at < len {
        return None;
    }
    let data = vstd::slice::slice_to_vec(vstd::slice::slice_subrange(buf, at, at + len));
    proof {
        assert(data@ == buf@.skip(at as int).take(len as int));
    }
    Some((data, at + len))
}

/// A reply, as far as it has come.
#[derive(Debug, PartialEq, Eq)]
pub enum Decoded {
    /// A whole reply, which takes up this many bytes.
    Complete(Resp, usize),
    /// The beginning of a reply.
    Partial,
    /// A byte where a reply should start that starts none, and the number of bytes up to and with
    /// it.
    Unknown(u8, usize),
}

impl Decoded {
    /// What the bytes that have come so far amount to.
    pub open spec fn progress(&self) -> Progress<Value> {
        match self {
            Decoded::Complete(v, used) => Progress::Complete(v.value(), *used as nat),
            Decoded::Partial => Progress::Partial,
            Decoded::Unknown(lead, used) => Progress::Unknown(*lead, *used as nat),
        }
    }
}

/// The values of the replies.
pub open spec fn values(v: Seq<Resp>) -> Seq<Value> {
    v.map_values(|r: Resp| r.value())
}

fn length_in(line: &[u8]) -> (r: Option<usize>)
    ensures
        match r {
            Some(n) => length_on(line@) == Some(n as nat),
            None => length_on(line@) is None,
        },
{
    match parse_isize(chars_of_bytes(line).as_slice()) {
        Some(n) => if n < 0 {
            None
        } else {
            Some(n as usize)
        },
        None => None,
    }
}

proof fn lemma_array_value(v: Vec<Resp>)
    ensures
        Resp::Array(Some(v)).value() == Value::Array(Some(values(v@))),
{
    let r = Resp::Array(Some(v));
    assert(r.value()->Array_0->0 == values(v@));
}

/// The reply that starts at `at`, as far as it has come. The number of bytes is counted from `at`.
pub fn read_resp(buf: &[u8], at: usize) -> (r: Decoded)
    requires
        at <= buf@.len(),
    ensures
        r.progress() == decode(buf@.skip(at as int)),
        r matches Decoded::Complete(_, used) ==> 0 < used <= buf@.len() - at,
        r matches Decoded::Unknown(_, used) ==> 0 < used <= buf@.len() - at,
    decreases buf@.len() - at,
{
    let ghost b = buf@.skip(at as int);
    if at == buf.len() {
        return Decoded::Partial;
    }
    let lead: u8 = buf[at];
    proof {
        assert(b[0] == lead);
        assert(b.skip(1) == buf@.skip(at + 1));
        lemma_find_crlf(b.skip(1));
    }
    if !(lead == 43 || lead == 45 || lead == 58 || lead == 36 || lead == 42) {
        return Decoded::Unknown(lead, 1);
    }
    let (line, next) = match read_line_crlf(buf, at + 1) {
        Some(found) => found,
        None => {
            return Decoded::Partial;
        },
    };
    let head: usize = next - at;
    let ghost rest = b.skip(head as int);
    proof {
        assert(rest == buf@.skip(next as int));
    }
    if lead == 43 {
        return Decoded::Complete(Resp::SimpleString(lossy_text(line.as_slice())), head);
    }
    if lead == 45 {
        return Decoded::Complete(Resp::Error(lossy_text(line.as_slice())), head);
    }
    if lead == 58 {
        let n: i64 = match parse_i64(chars_of_bytes(line.as_slice()).as_slice()) {
            Some(n) => n,
            None => 0,
        };
        return Decoded::Complete(Resp::Integer(n), head);
    }
    let count: usize = match length_in(line.as_slice()) {
        Some(n) => n,
        None => {
            return if lead == 36 {
                Decoded::Complete(Resp::BulkString(None), head)
            } else {
                Decoded::Complete(Resp::Array(None), head)
            };
        },
    };
    if lead == 36 {
        return match read_exact_len(buf, next, count) {
            None => Decoded::Partial,
            Some((data, behind)) => {
                proof {
                    assert(rest.skip(count as int) == buf@.skip(behind as int));
                    lemma_find_crlf(rest.skip(count as int));
                }
                match read_line_crlf(buf, behind) {
                    None => Decoded::Partial,
                    Some((_, end)) => Decoded::Complete(Resp::BulkString(Some(data)), end - at),
                }
            },
        };
    }
    let total: usize = buf.len();
    let mut elems: Vec<Resp> = Vec::new();
    let mut p: usize = next;
    let mut i: usize = 0;
    proof {
        assert(values(elems@) == Seq::<Value>::empty());
        match decode_many(rest, count as nat) {
            Progress::Complete(vs, used) => {
                assert(values(elems@) + vs == vs);
            },
            _ => {},
        }
    }
    while i < count
        invariant
            at < next <= p <= total,
            total == buf@.len(),
            head == next - at,
            i <= count,
            rest == buf@.skip(next as int),
            decode_many(rest, count as nat) == behind_prefix(
                values(elems@),
                (p - next) as nat,
                decode_many(buf@.skip(p as int), (count - i) as nat),
            ),
            decode(b) == (match decode_many(rest, count as nat) {
                Progress::Complete(vs, used) => Progress::Complete(
                    Value::Array(Some(vs)),
                    head as nat + used,
                ),
                Progress::Partial => Progress::Partial,
                Progress::Unknown(lead, used) => Progress::Unknown(lead, head as nat + used),
            }),
            b == buf@.skip(at as int),
        decreases count - i,
    {
        let ghost here = buf@.skip(p as int);
        match read_resp(buf, p) {
            Decoded::Partial => {
                return Decoded::Partial;
            },
            Decoded::Unknown(bad, used) => {
                return Decoded::Unknown(bad, (p - at) + used);
            },
            Decoded::Complete(v, used) => {
                let ghost before = elems@;
                let ghost value = v.value();
                elems.push(v);
                proof {
                    assert(values(elems@) == values(before).push(value));
                    assert(here.skip(used as int) == buf@.skip(p + used));
                    match decode_many(here.skip(used as int), (count - i - 1) as nat) {
                        Progress::Complete(vs, more) => {
                            assert(values(before) + (seq![value] + vs) == values(elems@) + vs);
                        },
                        _ => {},
                    }
                }
                p += used;
                i += 1;
            },
        }
    }
    proof {
        assert(values(elems@) + Seq::<Value>::empty() == values(elems@));
        lemma_array_value(elems);
    }
    Decoded::Complete(Resp::Array(Some(elems)), p - at)
}

/// What follows the values `before`, which take up `used` bytes, seen from where they start.
spec fn behind_prefix(before: Seq<Value>, used: nat, p: Progress<Seq<Value>>) -> Progress<
    Seq<Value>,
> {
    match p {
        Progress::Complete(vs, more) => Progress::Complete(before + vs, used + more),
        Progress::Partial => Progress::Partial,
        Progress::Unknown(lead, more) => Progress::Unknown(lead, used + more),
    }
}

/// One argument of a command: its length on a line, then its bytes on another.
pub open spec fn bulk(arg: Seq<u8>) -> Seq<u8> {
    seq![36u8] + ascii_bytes(decimal(arg.len())) + seq![13u8, 10u8] + arg + seq![13u8, 10u8]
}

/// Arguments, one behind the other.
pub open spec fn bulks(args: Seq<Seq<u8>>) -> Seq<u8>
    decreases args.len(),
{
    if args.len() == 0 {
        Seq::empty()
    } else {
        bulks(args.drop_last()) + bulk(args.last())
    }
}

/// A command on the wire: the number of its arguments on a line, then the arguments.
pub open spec fn encoded(args: Seq<Seq<u8>>) -> Seq<u8> {
    seq![42u8] + ascii_bytes(decimal(args.len())) + seq![13u8, 10u8] + bulks(args)
}

/// The arguments that the vectors hold.
pub open spec fn arg_views(args: Seq<Vec<u8>>) -> Seq<Seq<u8>> {
    args.map_values(|a: Vec<u8>| a@)
}

fn push_bytes(out: &mut Vec<u8>, bytes: &[u8])
    ensures
        final(out)@ == old(out)@ + bytes@,
{
    out.extend_from_slice(bytes);
    proof {
        assert(out@ == old(out)@ + bytes@);
    }
}

/// The bytes that a command is sent as.
pub fn encode_command(args: &[Vec<u8>]) -> (r: Vec<u8>)
    ensures
        r@ == encoded(arg_views(args@)),
{
    let ghost views = arg_views(args@);
    let mut out: Vec<u8> = Vec::new();
    out.push(42);
    push_decimal_bytes(&mut out, args.len());
    out.push(13);
    out.push(10);
    let ghost head = out@;
    let mut i: usize = 0;
    proof {
        assert(head == seq![42u8] + ascii_bytes(decimal(views.len())) + seq![13u8, 10u8]);
        assert(views.take(0) == Seq::<Seq<u8>>::empty());
        assert(out@ == head + bulks(views.take(0)));
    }
    while i < args.len()
        invariant
            i <= args@.len(),
            views == arg_views(args@),
            out@ == head + bulks(views.take(i as int)),
        decreases args@.len() - i,
    {
        let ghost before = out@;
        out.push(36);
        push_decimal_bytes(&mut out, args[i].len());
        out.push(13);
        out.push(10);
        push_bytes(&mut out, args[i].as_slice());
        out.push(13);
        out.push(10);
        proof {
            assert(views[i as int] == args@[i as int]@);
            assert(out@ == before + bulk(views[i as int]));
            assert(views.take(i + 1).drop_last() == views.take(i as int));
            assert(out@ == head + bulks(views.take(i + 1)));
        }
        i += 1;
    }
    proof {
        assert(views.take(i as int) == views);
    }
    out
}

proof fn lemma_bulks_front(args: Seq<Seq<u8>>)
    requires
        args.len() > 0,
    ensures
        bulks(args) == bulk(args[0]) + bulks(args.skip(1)),
    decreases args.len(),
{
    if args.len() == 1 {
        assert(args.drop_last() == Seq::<Seq<u8>>::empty());
        assert(args.skip(1) == Seq::<Seq<u8>>::empty());
        assert(bulks(args) == bulk(args[0]) + bulks(args.skip(1)));
    } else {
        lemma_bulks_front(args.drop_last());
        assert(args.drop_last().skip(1) == args.skip(1).drop_last());
        assert(bulks(args) == bulk(args[0]) + bulks(args.skip(1)));
    }
}

proof fn lemma_length_line(n: nat, rest: Seq<u8>)
    requires
        n <= isize::MAX,
    ensures
        find_crlf(ascii_bytes(decimal(n)) + seq![13u8, 10u8] + rest) == Some(
            ascii_bytes(decimal(n)).len(),
        ),
        length_on(ascii_bytes(decimal(n))) == Some(n),
{
    let d = decimal(n);
    let line = ascii_bytes(d);
    lemma_decimal(n);
    assert forall|i: int| 0 <= i < line.len() implies 48 <= #[trigger] line[i] <= 57 by {
        assert(is_digit(d[i]));
    }
    assert(ascii_chars(line) == d) by {
        assert forall|i: int| 0 <= i < d.len() implies ascii_chars(line)[i] == #[trigger] d[i] by {
            assert(is_digit(d[i]));
        }
    }
    let b = line + seq![13u8, 10u8] + rest;
    assert forall|i: int| 0 <= i < line.len() implies !(#[trigger] b[i] == 13 && b[i + 1] == 10) by {
        assert(b[i] == line[i]);
    }
    lemma_crlf_at(b, line.len() as int);
}

proof fn lemma_decode_bulk(arg: Seq<u8>, rest: Seq<u8>)
    requires
        arg.len() <= isize::MAX,
    ensures
        decode(bulk(arg) + rest) == Progress::Complete(
            Value::BulkString(Some(arg)),
            bulk(arg).len(),
        ),
{
    let line = ascii_bytes(decimal(arg.len()));
    let end = seq![13u8, 10u8];
    let b = bulk(arg) + rest;
    let tail = arg + end + rest;
    assert(b.skip(1) == line + end + tail);
    lemma_length_line(arg.len(), tail);
    assert(b.skip(1).take(line.len() as int) == line);
    assert(b.skip(line.len() as int + 3) == tail);
    assert(tail.skip(arg.len() as int) == end + rest);
    lemma_crlf_at(end + rest, 0);
    assert(tail.take(arg.len() as int) == arg);
}

/// A command as a value: an array of bulk strings.
pub open spec fn command_value(args: Seq<Seq<u8>>) -> Seq<Value> {
    args.map_values(|a: Seq<u8>| Value::BulkString(Some(a)))
}

proof fn lemma_decode_first(b: Seq<u8>, n: nat, v: Value, used: nat, vs: Seq<Value>, more: nat)
    requires
        n > 0,
        used <= b.len(),
        decode(b) == Progress::Complete(v, used),
        decode_many(b.skip(used as int), (n - 1) as nat) == Progress::Complete(vs, more),
    ensures
        decode_many(b, n) == Progress::Complete(seq![v] + vs, used + more),
{
}

proof fn lemma_decode_bulks(args: Seq<Seq<u8>>, rest: Seq<u8>)
    requires
        forall|i: int| 0 <= i < args.len() ==> (#[trigger] args[i]).len() <= isize::MAX,
    ensures
        decode_many(bulks(args) + rest, args.len()) == Progress::Complete(
            command_value(args),
            bulks(args).len(),
        ),
    decreases args.len(),
{
    if args.len() == 0 {
        assert(command_value(args) == Seq::<Value>::empty());
    } else {
        let first = args[0];
        let others = args.skip(1);
        let tail = bulks(others) + rest;
        let b = bulks(args) + rest;
        assert(bulks(args) == bulk(first) + bulks(others)) by {
            lemma_bulks_front(args);
        }
        assert(b == bulk(first) + tail);
        assert(b.skip(bulk(first).len() as int) == tail);
        lemma_decode_bulk(first, tail);
        lemma_decode_bulks(others, rest);
        lemma_decode_first(
            b,
            args.len(),
            Value::BulkString(Some(first)),
            bulk(first).len(),
            command_value(others),
            bulks(others).len(),
        );
        assert(command_value(args) == seq![Value::BulkString(Some(first))] + command_value(others));
    }
}

/// A command reads back, from whatever bytes it stands in front of, as the array of its arguments,
/// and takes up just its own bytes.
pub proof fn law_command_reads_back(args: Seq<Seq<u8>>, rest: Seq<u8>)
    requires
        args.len() <= isize::MAX,
        forall|i: int| 0 <= i < args.len() ==> (#[trigger] args[i]).len() <= isize::MAX,
    ensures
        decode(encoded(args) + rest) == Progress::Complete(
            Value::Array(Some(command_value(args))),
            encoded(args).len(),
        ),
{
    let line = ascii_bytes(decimal(args.len()));
    let end = seq![13u8, 10u8];
    let b = encoded(args) + rest;
    let tail = bulks(args) + rest;
    assert(b.skip(1) == line + end + tail);
    lemma_length_line(args.len(), tail);
    assert(b.skip(1).take(line.len() as int) == line);
    assert(b.skip(line.len() as int + 3) == tail);
    lemma_decode_bulks(args, rest);
}

/// A reply takes up one byte at least, and no more bytes than there are.
pub proof fn law_reply_within_bytes(b: Seq<u8>)
    ensures
        decode(b) matches Progress::Complete(_, used) ==> 0 < used <= b.len(),
        decode(b) matches Progress::Unknown(_, used) ==> 0 < used <= b.len(),
    decreases b.len(), 0nat,
{
    if b.len() > 0 && is_lead(b[0]) {
        lemma_find_crlf(b.skip(1));
        if let Some(k) = find_crlf(b.skip(1)) {
            let rest = b.skip(k as int + 3);
            if let Some(n) = length_on(b.skip(1).take(k as int)) {
                if b[0] == 36 && n <= rest.len() {
                    lemma_find_crlf(rest.skip(n as int));
                }
                if b[0] == 42 {
                    lemma_many_within_bytes(rest, n);
                }
            }
        }
    }
}

proof fn lemma_many_within_bytes(b: Seq<u8>, n: nat)
    ensures
        decode_many(b, n) matches Progress::Complete(_, used) ==> used <= b.len(),
        decode_many(b, n) matches Progress::Unknown(_, used) ==> 0 < used <= b.len(),
    decreases b.len(), n + 1,
{
    if n > 0 {
        law_reply_within_bytes(b);
        if let Progress::Complete(_, used) = decode(b) {
            lemma_many_within_bytes(b.skip(used as int), (n - 1) as nat);
        }
    }
}

proof fn lemma_crlf_stays(b: Seq<u8>, more: Seq<u8>)
    requires
        find_crlf(b) is Some,
    ensures
        find_crlf(b + more) == find_crlf(b),
{
    lemma_find_crlf(b);
    let k = find_crlf(b)->0 as int;
    let t = b + more;
    assert forall|i: int| 0 <= i < k implies !(#[trigger] t[i] == 13 && t[i + 1] == 10) by {
        assert(t[i] == b[i] && t[i + 1] == b[i + 1]);
    }
    lemma_crlf_at(t, k);
}

/// Once the bytes of a reply have come, or a byte that starts none, what follows changes nothing:
/// a reply may be read in pieces of any size.
pub proof fn law_reply_stays(b: Seq<u8>, more: Seq<u8>)
    requires
        !(decode(b) is Partial),
    ensures
        decode(b + more) == decode(b),
    decreases b.len(), 0nat,
{
    let t = b + more;
    assert(t[0] == b[0]);
    if is_lead(b[0]) {
        lemma_find_crlf(b.skip(1));
        assert(t.skip(1) == b.skip(1) + more);
        lemma_crlf_stays(b.skip(1), more);
        let k = find_crlf(b.skip(1))->0 as int;
        let line = b.skip(1).take(k);
        assert(t.skip(1).take(k) == line);
        let rest = b.skip(k + 3);
        assert(t.skip(k + 3) == rest + more);
        if let Some(n) = length_on(line) {
            if b[0] == 36 {
                assert((rest + more).take(n as int) == rest.take(n as int));
                assert((rest + more).skip(n as int) == rest.skip(n as int) + more);
                lemma_crlf_stays(rest.skip(n as int), more);
            }
            if b[0] == 42 {
                lemma_many_stays(rest, n, more);
            }
        }
    }
}

proof fn lemma_many_stays(b: Seq<u8>, n: nat, more: Seq<u8>)
    requires
        !(decode_many(b, n) is Partial),
    ensures
        decode_many(b + more, n) == decode_many(b, n),
    decreases b.len(), n + 1,
{
    if n > 0 {
        law_reply_stays(b, more);
        if let Progress::Complete(_, used) = decode(b) {
            law_reply_within_bytes(b);
            assert((b + more).skip(used as int) == b.skip(used as int) + more);
            lemma_many_stays(b.skip(used as int), (n - 1) as nat, more);
        }
    }
}

/// While a byte of a command is still to come, what has come is the beginning of a value.
pub proof fn law_cut_command_is_partial(args: Seq<Seq<u8>>, n: int)
    requires
        args.len() <= isize::MAX,
        forall|i: int| 0 <= i < args.len() ==> (#[trigger] args[i]).len() <= isize::MAX,
        0 <= n < encoded(args).len(),
    ensures
        decode(encoded(args).take(n)) is Partial,
{
    let whole = encoded(args);
    let b = whole.take(n);
    if !(decode(b) is Partial) {
        assert(whole == b + whole.skip(n));
        law_reply_stays(b, whole.skip(n));
        law_reply_within_bytes(b);
        law_command_reads_back(args, Seq::empty());
        assert(whole + Seq::<u8>::empty() == whole);
    }
}

/// A value on the wire.
pub open spec fn written(v: Value) -> Seq<u8>
    decreases v,
{
    match v {
        Value::SimpleString(s) => seq![43u8] + encode_utf8(s) + seq![13u8, 10u8],
        Value::Error(s) => seq![45u8] + encode_utf8(s) + seq![13u8, 10u8],
        Value::Integer(n) => seq![58u8] + ascii_bytes(signed_decimal(n as int)) + seq![13u8, 10u8],
        Value::BulkString(None) => seq![36u8] + ascii_bytes(signed_decimal(-1)) + seq![13u8, 10u8],
        Value::BulkString(Some(b)) => bulk(b),
        Value::Array(None) => seq![42u8] + ascii_bytes(signed_decimal(-1)) + seq![13u8, 10u8],
        Value::Array(Some(vs)) => seq![42u8] + ascii_bytes(decimal(vs.len())) + seq![13u8, 10u8]
            + written_all(vs),
    }
}

/// Values on the wire, one behind the other.
pub open spec fn written_all(vs: Seq<Value>) -> Seq<u8>
    decreases vs,
{
    if vs.len() == 0 {
        Seq::empty()
    } else {
        written(vs[0]) + written_all(vs.skip(1))
    }
}

/// Whether a value can be written: no simple string and no error holds a line end, and no length is
/// beyond the machine.
pub open spec fn is_writable(v: Value) -> bool
    decreases v,
{
    match v {
        Value::SimpleString(s) => find_crlf(encode_utf8(s)) is None,
        Value::Error(s) => find_crlf(encode_utf8(s)) is None,
        Value::BulkString(Some(b)) => b.len() <= isize::MAX,
        Value::Array(Some(vs)) => vs.len() <= isize::MAX && forall|i: int|
            0 <= i < vs.len() ==> is_writable(#[trigger] vs[i]),
        _ => true,
    }
}

proof fn lemma_line(line: Seq<u8>, rest: Seq<u8>)
    requires
        find_crlf(line) is None,
    ensures
        find_crlf(line + seq![13u8, 10u8] + rest) == Some(line.len()),
{
    let b = line + seq![13u8, 10u8] + rest;
    lemma_find_crlf(line);
    assert forall|i: int| 0 <= i < line.len() implies !(#[trigger] b[i] == 13 && b[i + 1] == 10) by {
        assert(b[i] == line[i]);
        if i + 1 < line.len() {
            assert(b[i + 1] == line[i + 1]);
        }
    }
    lemma_crlf_at(b, line.len() as int);
}

proof fn lemma_number_line(n: int)
    ensures
        find_crlf(ascii_bytes(signed_decimal(n))) is None,
        ascii_chars(ascii_bytes(signed_decimal(n))) == signed_decimal(n),
{
    let d = signed_decimal(n);
    let line = ascii_bytes(d);
    lemma_decimal((if n < 0 { -n } else { n }) as nat);
    assert forall|i: int| 0 <= i < d.len() implies is_digit(#[trigger] d[i]) || d[i] == '-' by {
        if n < 0 {
            if i > 0 {
                assert(d[i] == decimal((-n) as nat)[i - 1]);
            }
        } else {
            assert(is_digit(decimal(n as nat)[i]));
        }
    }
    assert(ascii_chars(line) == d) by {
        assert forall|i: int| 0 <= i < d.len() implies ascii_chars(line)[i] == #[trigger] d[i] by {
            assert(is_digit(d[i]) || d[i] == '-');
        }
    }
    lemma_find_crlf(line);
    if let Some(k) = find_crlf(line) {
        assert(line[k as int] == d[k as int] as u8);
    }
}

/// A value of one line reads as what its lead byte makes of the line.
proof fn lemma_decode_line(lead: u8, line: Seq<u8>, rest: Seq<u8>)
    requires
        is_lead(lead),
        find_crlf(line) is None,
    ensures
        ({
            let b = seq![lead] + line + seq![13u8, 10u8] + rest;
            &&& b[0] == lead
            &&& find_crlf(b.skip(1)) == Some(line.len())
            &&& b.skip(1).take(line.len() as int) == line
            &&& b.skip(line.len() as int + 3) == rest
        }),
{
    let b = seq![lead] + line + seq![13u8, 10u8] + rest;
    assert(b.skip(1) == line + seq![13u8, 10u8] + rest);
    lemma_line(line, rest);
    assert(b.skip(1).take(line.len() as int) == line);
    assert(b.skip(line.len() as int + 3) == rest);
}

/// A value that is written reads back, from whatever bytes it stands in front of, and takes up just
/// its own bytes, however deep its arrays are nested.
pub proof fn law_reply_reads_back(v: Value, rest: Seq<u8>)
    requires
        is_writable(v),
    ensures
        decode(written(v) + rest) == Progress::Complete(v, written(v).len()),
    decreases v,
{
    let b = written(v) + rest;
    match v {
        Value::SimpleString(s) => {
            lemma_decode_line(43, encode_utf8(s), rest);
            encode_utf8_valid_utf8(s);
            encode_utf8_decode_utf8(s);
        },
        Value::Error(s) => {
            lemma_decode_line(45, encode_utf8(s), rest);
            encode_utf8_valid_utf8(s);
            encode_utf8_decode_utf8(s);
        },
        Value::Integer(n) => {
            lemma_number_line(n as int);
            lemma_decode_line(58, ascii_bytes(signed_decimal(n as int)), rest);
            law_decimal_reads_back(n as int);
        },
        Value::BulkString(None) => {
            lemma_number_line(-1);
            lemma_decode_line(36, ascii_bytes(signed_decimal(-1)), rest);
            law_decimal_reads_back(-1);
        },
        Value::BulkString(Some(data)) => {
            lemma_decode_bulk(data, rest);
        },
        Value::Array(None) => {
            lemma_number_line(-1);
            lemma_decode_line(42, ascii_bytes(signed_decimal(-1)), rest);
            law_decimal_reads_back(-1);
        },
        Value::Array(Some(vs)) => {
            let line = ascii_bytes(decimal(vs.len()));
            let tail = written_all(vs) + rest;
            lemma_length_line(vs.len(), tail);
            assert(b.skip(1) == line + seq![13u8, 10u8] + tail);
            assert(b.skip(1).take(line.len() as int) == line);
            assert(b.skip(line.len() as int + 3) == tail);
            lemma_values_read_back(vs, rest);
        },
    }
}

proof fn lemma_values_read_back(vs: Seq<Value>, rest: Seq<u8>)
    requires
        forall|i: int| 0 <= i < vs.len() ==> is_writable(#[trigger] vs[i]),
    ensures
        decode_many(written_all(vs) + rest, vs.len()) == Progress::Complete(
            vs,
            written_all(vs).len(),
        ),
    decreases vs,
{
    if vs.len() == 0 {
        assert(vs == Seq::<Value>::empty());
    } else {
        let first = vs[0];
        let others = vs.skip(1);
        let tail = written_all(others) + rest;
        let b = written_all(vs) + rest;
        assert forall|i: int| 0 <= i < others.len() implies is_writable(#[trigger] others[i]) by {
            assert(is_writable(vs[i + 1]));
        }
        law_reply_reads_back(first, tail);
        lemma_values_read_back(others, rest);
        assert(b == written(first) + tail);
        assert(b.skip(written(first).len() as int) == tail);
        lemma_decode_first(
            b,
            vs.len(),
            first,
            written(first).len(),
            others,
            written_all(others).len(),
        );
        assert(vs == seq![first] + others);
    }
}

/// While a byte of a value is still to come, what has come is the beginning of a value.
pub proof fn law_cut_reply_is_partial(v: Value, n: int)
    requires
        is_writable(v),
        0 <= n < written(v).len(),
    ensures
        decode(written(v).take(n)) is Partial,
{
    let whole = written(v);
    let b = whole.take(n);
    if !(decode(b) is Partial) {
        assert(whole == b + whole.skip(n));
        law_reply_stays(b, whole.skip(n));
        law_reply_within_bytes(b);
        law_reply_reads_back(v, Seq::empty());
        assert(whole + Seq::<u8>::empty() == whole);
    }
}

/// An argument on the wire is a dollar sign, its length in decimal, a line end, the argument and a
/// line end, byte for byte and with nothing between them.
pub proof fn law_argument_on_the_wire(arg: Seq<u8>, i: int)
    ensures
        ({
            let digits = decimal(arg.len());
            let start = digits.len() as int + 3;
            let b = bulk(arg);
            &&& b.len() == 1 + digits.len() + 2 + arg.len() + 2
            &&& b[0] == 36
            &&& 0 <= i < digits.len() ==> b[1 + i] as int == digits[i] as int
            &&& b[start - 2] == 13 && b[start - 1] == 10
            &&& 0 <= i < arg.len() ==> b[start + i] == arg[i]
            &&& b[start + arg.len()] == 13 && b[start + arg.len() + 1] == 10
        }),
{
    let digits = decimal(arg.len());
    lemma_decimal(arg.len());
    if 0 <= i < digits.len() {
        assert(is_digit(digits[i]));
        law_ascii_by_number(digits, arg, i);
    }
}

/// The number of bytes of arguments on the wire: for each of them its length in decimal, its bytes,
/// a dollar sign and two line ends.
pub open spec fn wire_len(args: Seq<Seq<u8>>) -> nat
    decreases args.len(),
{
    if args.len() == 0 {
        0
    } else {
        wire_len(args.drop_last()) + 5 + decimal(args.last().len()).len() + args.last().len()
    }
}

proof fn lemma_bulks_by_place(args: Seq<Seq<u8>>, k: int)
    requires
        0 <= k < args.len(),
    ensures
        bulks(args).len() == wire_len(args),
        wire_len(args.take(k)) + bulk(args[k]).len() <= bulks(args).len(),
        bulks(args).subrange(
            wire_len(args.take(k)) as int,
            (wire_len(args.take(k)) + bulk(args[k]).len()) as int,
        ) == bulk(args[k]),
    decreases args.len(),
{
    let before = args.drop_last();
    law_argument_on_the_wire(args.last(), 0);
    if before.len() > 0 {
        lemma_bulks_by_place(before, if k < before.len() { k } else { 0 });
    }
    assert(bulks(args) == bulks(before) + bulk(args.last()));
    if k < before.len() {
        assert(before.take(k) == args.take(k));
        assert(before[k] == args[k]);
        let from = wire_len(args.take(k)) as int;
        let to = from + bulk(args[k]).len();
        assert(bulks(args).subrange(from, to) == bulks(before).subrange(from, to));
    } else {
        assert(args.take(k) == before);
        let from = wire_len(before) as int;
        assert(bulks(args).subrange(from, from + bulk(args[k]).len()) == bulk(args[k]));
    }
}

/// A command on the wire is an asterisk, the number of its arguments in decimal and a line end, then
/// each argument in its place, behind those in front of it, and nothing else.
pub proof fn law_command_on_the_wire(args: Seq<Seq<u8>>, k: int, i: int)
    ensures
        ({
            let digits = decimal(args.len());
            let b = encoded(args);
            let at = digits.len() + 3 + wire_len(args.take(k));
            &&& b.len() == 1 + digits.len() + 2 + wire_len(args)
            &&& b[0] == 42
            &&& 0 <= i < digits.len() ==> b[1 + i] as int == digits[i] as int
            &&& b[digits.len() as int + 1] == 13 && b[digits.len() as int + 2] == 10
            &&& 0 <= k < args.len() ==> b.subrange(at as int, (at + bulk(args[k]).len()) as int)
                == bulk(args[k])
        }),
{
    let digits = decimal(args.len());
    let b = encoded(args);
    lemma_decimal(args.len());
    if 0 <= i < digits.len() {
        assert(is_digit(digits[i]));
        law_ascii_by_number(digits, Seq::empty(), i);
        assert(b[1 + i] == ascii_bytes(digits)[i]);
    }
    if args.len() > 0 {
        lemma_bulks_by_place(args, 0);
    }
    assert(b.skip(digits.len() as int + 3) == bulks(args));
    if 0 <= k < args.len() {
        lemma_bulks_by_place(args, k);
        let head = digits.len() + 3;
        let from = wire_len(args.take(k)) as int;
        let to = from + bulk(args[k]).len();
        assert(b.subrange(head + from, head + to) == bulks(args).subrange(from, to));
    }
}

/// The `n` bulk strings that `b` consists of. Behind the announced number of bytes a line end must
/// stand at once, and behind the last string nothing.
pub open spec fn strict_bulks(b: Seq<u8>, n: nat) -> Option<Seq<Seq<u8>>>
    decreases n,
{
    if n == 0 {
        if b.len() == 0 {
            Some(Seq::empty())
        } else {
            None
        }
    } else if b.len() == 0 || b[0] != 36 {
        None
    } else {
        match find_crlf(b.skip(1)) {
            Some(k) => match length_on(b.skip(1).take(k as int)) {
                Some(len) => {
                    let end = k + 3 + len;
                    if b.len() < end + 2 || b[end as int] != 13 || b[end as int + 1] != 10 {
                        None
                    } else {
                        match strict_bulks(b.skip(end as int + 2), (n - 1) as nat) {
                            Some(others) => Some(
                                seq![b.subrange(k as int + 3, end as int)] + others,
                            ),
                            None => None,
                        }
                    }
                },
                None => None,
            },
            None => None,
        }
    }
}

/// The arguments of the command that `b` is, to a reader that takes nothing but well-formed bytes.
pub open spec fn strict_command(b: Seq<u8>) -> Option<Seq<Seq<u8>>> {
    if b.len() == 0 || b[0] != 42 {
        None
    } else {
        match find_crlf(b.skip(1)) {
            Some(k) => match length_on(b.skip(1).take(k as int)) {
                Some(n) => strict_bulks(b.skip(k as int + 3), n),
                None => None,
            },
            None => None,
        }
    }
}

proof fn lemma_strict_first(first: Seq<u8>, more: Seq<u8>, n: nat, others: Seq<Seq<u8>>)
    requires
        first.len() <= isize::MAX,
        n > 0,
        strict_bulks(more, (n - 1) as nat) == Some(others),
    ensures
        strict_bulks(bulk(first) + more, n) == Some(seq![first] + others),
{
    let b = bulk(first) + more;
    let line = ascii_bytes(decimal(first.len()));
    let end = seq![13u8, 10u8];
    let tail = first + end + more;
    let head = line.len() as int + 3;
    assert(b.skip(1) == line + end + tail);
    lemma_length_line(first.len(), tail);
    assert(b.skip(1).take(line.len() as int) == line);
    assert(b.subrange(head, head + first.len()) == first);
    assert(b.skip(head + first.len() + 2) == more);
}

proof fn lemma_strict_bulks(args: Seq<Seq<u8>>)
    requires
        forall|i: int| 0 <= i < args.len() ==> (#[trigger] args[i]).len() <= isize::MAX,
    ensures
        strict_bulks(bulks(args), args.len()) == Some(args),
    decreases args.len(),
{
    if args.len() == 0 {
        assert(args == Seq::<Seq<u8>>::empty());
    } else {
        let others = args.skip(1);
        assert forall|i: int| 0 <= i < others.len() implies (#[trigger] others[i]).len() <= isize::MAX by {
            assert(args[i + 1].len() <= isize::MAX);
        }
        assert(args[0].len() <= isize::MAX);
        lemma_bulks_front(args);
        lemma_strict_bulks(others);
        lemma_strict_first(args[0], bulks(others), args.len(), others);
        assert(seq![args[0]] + others == args);
    }
}

/// A reader that takes nothing but well-formed bytes reads a command back as its arguments.
pub proof fn law_command_is_well_formed(args: Seq<Seq<u8>>)
    requires
        args.len() <= isize::MAX,
        forall|i: int| 0 <= i < args.len() ==> (#[trigger] args[i]).len() <= isize::MAX,
    ensures
        strict_command(encoded(args)) == Some(args),
{
    let line = ascii_bytes(decimal(args.len()));
    let b = encoded(args);
    assert(b.skip(1) == line + seq![13u8, 10u8] + bulks(args));
    lemma_length_line(args.len(), bulks(args));
    assert(b.skip(1).take(line.len() as int) == line);
    assert(b.skip(line.len() as int + 3) == bulks(args));
    lemma_strict_bulks(args);
}

/// A line goes up to the first carriage return that a line feed follows, and is not there before both
/// have come.
pub proof fn law_line_goes_up_to_its_end(line: Seq<u8>, rest: Seq<u8>)
    requires
        forall|i: int| 0 <= i < line.len() - 1 ==> !(#[trigger] line[i] == 13 && line[i + 1] == 10),
    ensures
        first_line(line + seq![13u8, 10u8] + rest) == Some(line),
        find_crlf(line + seq![13u8, 10u8] + rest) == Some(line.len()),
        first_line(line) is None,
        find_crlf(line) is None,
{
    lemma_find_crlf(line);
    if let Some(k) = find_crlf(line) {
        assert(!(line[k as int] == 13 && line[k as int + 1] == 10));
    }
    lemma_line(line, rest);
    assert((line + seq![13u8, 10u8] + rest).take(line.len() as int) == line);
}

/// A byte that starts no reply is told as it is, at once; where no byte has come, or no end of the
/// first line, more is awaited.
pub proof fn law_start_of_a_reply(b: Seq<u8>)
    ensures
        b.len() > 0 && b[0] != 43 && b[0] != 45 && b[0] != 58 && b[0] != 36 && b[0] != 42 ==> decode(b)
            == Progress::<Value>::Unknown(b[0], 1),
        b.len() == 0 ==> decode(b) is Partial,
        b.len() > 0 && (b[0] == 43 || b[0] == 45 || b[0] == 58 || b[0] == 36 || b[0] == 42) && (
        forall|i: int| 1 <= i < b.len() - 1 ==> !(#[trigger] b[i] == 13 && b[i + 1] == 10))
            ==> decode(b) is Partial,
{
    if b.len() > 0 && (forall|i: int|
        1 <= i < b.len() - 1 ==> !(#[trigger] b[i] == 13 && b[i + 1] == 10)) {
        let t = b.skip(1);
        lemma_find_crlf(t);
        if let Some(k) = find_crlf(t) {
            assert(t[k as int] == b[k as int + 1]);
            assert(t[k as int + 1] == b[k as int + 2]);
        }
    }
}

/// A simple string or an error is the text on its line: what its bytes encode, and what
/// `String::from_utf8_lossy` makes of them where they are not UTF-8.
pub proof fn law_text_on_a_line(line: Seq<u8>, rest: Seq<u8>)
    requires
        forall|i: int| 0 <= i < line.len() - 1 ==> !(#[trigger] line[i] == 13 && line[i + 1] == 10),
    ensures
        valid_utf8(line) ==> decode(seq![43u8] + line + seq![13u8, 10u8] + rest)
            == Progress::Complete(Value::SimpleString(decode_utf8(line)), line.len() + 3),
        valid_utf8(line) ==> decode(seq![45u8] + line + seq![13u8, 10u8] + rest)
            == Progress::Complete(Value::Error(decode_utf8(line)), line.len() + 3),
        !valid_utf8(line) ==> decode(seq![43u8] + line + seq![13u8, 10u8] + rest)
            == Progress::Complete(Value::SimpleString(lossy(line)), line.len() + 3),
        !valid_utf8(line) ==> decode(seq![45u8] + line + seq![13u8, 10u8] + rest)
            == Progress::Complete(Value::Error(lossy(line)), line.len() + 3),
{
    law_line_goes_up_to_its_end(line, rest);
    lemma_decode_line(43, line, rest);
    lemma_decode_line(45, line, rest);
}

proof fn lemma_ascii_line(t: Seq<char>)
    requires
        forall|i: int|
            0 <= i < t.len() ==> '0' <= #[trigger] t[i] <= '9' || t[i] == '-' || t[i] == '+',
    ensures
        find_crlf(ascii_bytes(t)) is None,
        ascii_chars(ascii_bytes(t)) == t,
        ascii_bytes(t).len() == t.len(),
{
    let line = ascii_bytes(t);
    assert forall|i: int| 0 <= i < t.len() implies ascii_chars(line)[i] == #[trigger] t[i] by {
        assert('0' <= t[i] <= '9' || t[i] == '-' || t[i] == '+');
    }
    assert(ascii_chars(line) == t);
    lemma_find_crlf(line);
    if let Some(k) = find_crlf(line) {
        assert(line[k as int] == t[k as int] as u8);
        assert('0' <= t[k as int] <= '9' || t[k as int] == '-' || t[k as int] == '+');
    }
}

/// The bytes that announce a number: a sign or none, zeros or none, and digits.
pub open spec fn number_line(sign: Seq<char>, zeros: Seq<char>, n: nat) -> Seq<u8> {
    ascii_bytes(sign + (zeros + decimal(n)))
}

proof fn lemma_number_line_value(sign: Seq<char>, zeros: Seq<char>, n: nat)
    requires
        forall|i: int| 0 <= i < zeros.len() ==> #[trigger] zeros[i] == '0',
        sign == Seq::<char>::empty() || sign == seq!['+'] || sign == seq!['-'],
    ensures
        find_crlf(number_line(sign, zeros, n)) is None,
        signed_value(ascii_chars(number_line(sign, zeros, n))) == Some(
            if sign == seq!['-'] {
                -n
            } else {
                n as int
            },
        ),
{
    let t = sign + (zeros + decimal(n));
    lemma_decimal(n);
    assert forall|i: int| 0 <= i < t.len() implies '0' <= #[trigger] t[i] <= '9' || t[i] == '-'
        || t[i] == '+' by {
        if i >= sign.len() + zeros.len() {
            assert(is_digit(decimal(n)[i - sign.len() - zeros.len()]));
            assert(t[i] == decimal(n)[i - sign.len() - zeros.len()]);
        } else if i >= sign.len() {
            assert(t[i] == zeros[i - sign.len()]);
        }
    }
    lemma_ascii_line(t);
    law_numbers_in_text(zeros, n);
    if sign == Seq::<char>::empty() {
        assert(t == zeros + decimal(n));
    }
}

/// An integer reply is the number on its line, with or without a sign and zeros in front, where that
/// fits 64 bits, and zero where it does not.
pub proof fn law_integer_on_a_line(sign: Seq<char>, zeros: Seq<char>, n: nat, rest: Seq<u8>)
    requires
        forall|i: int| 0 <= i < zeros.len() ==> #[trigger] zeros[i] == '0',
        sign == Seq::<char>::empty() || sign == seq!['+'] || sign == seq!['-'],
    ensures
        ({
            let line = number_line(sign, zeros, n);
            let value = if sign == seq!['-'] {
                -n
            } else {
                n as int
            };
            decode(seq![58u8] + line + seq![13u8, 10u8] + rest) == Progress::Complete(
                Value::Integer(
                    if -0x8000_0000_0000_0000 <= value <= 0x7fff_ffff_ffff_ffff {
                        value as i64
                    } else {
                        0
                    },
                ),
                line.len() + 3,
            )
        }),
{
    lemma_number_line_value(sign, zeros, n);
    lemma_decode_line(58, number_line(sign, zeros, n), rest);
}

/// A bulk string or an array that announces a negative length is none, and so is one whose length is
/// no number of machine size.
pub proof fn law_no_length_on_a_line(sign: Seq<char>, zeros: Seq<char>, n: nat, rest: Seq<u8>)
    requires
        forall|i: int| 0 <= i < zeros.len() ==> #[trigger] zeros[i] == '0',
        sign == Seq::<char>::empty() || sign == seq!['+'] || sign == seq!['-'],
        n > isize::MAX || (sign == seq!['-'] && n > 0),
    ensures
        ({
            let line = number_line(sign, zeros, n);
            let end = seq![13u8, 10u8];
            &&& decode(seq![36u8] + line + end + rest) == Progress::Complete(
                Value::BulkString(None),
                line.len() + 3,
            )
            &&& decode(seq![42u8] + line + end + rest) == Progress::Complete(
                Value::Array(None),
                line.len() + 3,
            )
        }),
{
    lemma_number_line_value(sign, zeros, n);
    lemma_decode_line(36, number_line(sign, zeros, n), rest);
    lemma_decode_line(42, number_line(sign, zeros, n), rest);
}

/// Where the line holds anything but digits behind at most one sign, an integer reply is zero, and a
/// bulk string or an array is none.
pub proof fn law_no_number_on_a_line(line: Seq<u8>, i: int, rest: Seq<u8>)
    requires
        forall|j: int| 0 <= j < line.len() - 1 ==> !(#[trigger] line[j] == 13 && line[j + 1] == 10),
        line.len() == 0 || (line.len() == 1 && !(48 <= line[0] <= 57)) || (0 < i < line.len() && !(48
            <= line[i] <= 57)) || (i == 0 && line.len() > 0 && !(48 <= line[0] <= 57) && line[0] != 43
            && line[0] != 45),
    ensures
        ({
            let end = seq![13u8, 10u8];
            &&& decode(seq![58u8] + line + end + rest) == Progress::Complete(
                Value::Integer(0),
                line.len() + 3,
            )
            &&& decode(seq![36u8] + line + end + rest) == Progress::Complete(
                Value::BulkString(None),
                line.len() + 3,
            )
            &&& decode(seq![42u8] + line + end + rest) == Progress::Complete(
                Value::Array(None),
                line.len() + 3,
            )
        }),
{
    let t = ascii_chars(line);
    law_line_goes_up_to_its_end(line, rest);
    lemma_decode_line(58, line, rest);
    lemma_decode_line(36, line, rest);
    lemma_decode_line(42, line, rest);
    assert(t.len() == line.len());
    if line.len() > 0 {
        assert(t[0] == line[0] as char);
    }
    if 0 < i < line.len() {
        assert(t[i] == line[i] as char);
    }
    law_no_number_in_text(t, i);
}

/// A bulk string is the announced number of bytes behind its first line, whatever they are; what
/// stands between them and the next line end is passed over. While some of these bytes or that line
/// end are still to come, more is awaited.
pub proof fn law_bulk_string_on_the_wire(
    sign: Seq<char>,
    zeros: Seq<char>,
    data: Seq<u8>,
    junk: Seq<u8>,
    rest: Seq<u8>,
    few: Seq<u8>,
)
    requires
        data.len() <= isize::MAX,
        forall|i: int| 0 <= i < zeros.len() ==> #[trigger] zeros[i] == '0',
        sign == Seq::<char>::empty() || sign == seq!['+'],
        forall|i: int| 0 <= i < junk.len() - 1 ==> !(#[trigger] junk[i] == 13 && junk[i + 1] == 10),
        few.len() < data.len(),
    ensures
        ({
            let line = number_line(sign, zeros, data.len());
            let end = seq![13u8, 10u8];
            let head = seq![36u8] + line + end;
            &&& decode(head + (data + (junk + end + rest))) == Progress::Complete(
                Value::BulkString(Some(data)),
                line.len() + 3 + data.len() + junk.len() + 2,
            )
            &&& decode(head + (data + junk)) is Partial
            &&& decode(head + few) is Partial
        }),
{
    let line = number_line(sign, zeros, data.len());
    let end = seq![13u8, 10u8];
    lemma_number_line_value(sign, zeros, data.len());
    assert(sign != seq!['-']) by {
        if sign == seq!['-'] {
            assert(sign[0] == '-');
        }
    }
    let whole = data + (junk + end + rest);
    lemma_decode_line(36, line, whole);
    assert(whole.skip(data.len() as int) == junk + end + rest);
    assert(whole.take(data.len() as int) == data);
    law_line_goes_up_to_its_end(junk, rest);
    lemma_decode_line(36, line, data + junk);
    assert((data + junk).skip(data.len() as int) == junk);
    lemma_decode_line(36, line, few);
}

/// The first line of an array of `n` values.
pub open spec fn array_head(n: nat) -> Seq<u8> {
    seq![42u8] + ascii_bytes(decimal(n)) + seq![13u8, 10u8]
}

proof fn lemma_array_head(n: nat, b: Seq<u8>)
    requires
        n <= isize::MAX,
    ensures
        decode(array_head(n) + b) == (match decode_many(b, n) {
            Progress::Complete(vs, used) => Progress::Complete(
                Value::Array(Some(vs)),
                array_head(n).len() + used,
            ),
            Progress::Partial => Progress::Partial,
            Progress::Unknown(lead, used) => Progress::Unknown(lead, array_head(n).len() + used),
        }),
{
    let line = ascii_bytes(decimal(n));
    let t = array_head(n) + b;
    lemma_length_line(n, b);
    assert(t.skip(1) == line + seq![13u8, 10u8] + b);
    assert(t.skip(1).take(line.len() as int) == line);
    assert(t.skip(line.len() as int + 3) == b);
    assert(array_head(n).len() == line.len() + 3);
}

/// An array has no values just where it announces none. One of `n + 1` values is the value that its
/// bytes start with, in front of those of the array of `n` values that the other bytes would make. Where
/// the first value has not come, or starts with a byte that starts none, so it is with the array.
pub proof fn law_array_value_by_value(n: nat, b: Seq<u8>)
    requires
        n < isize::MAX,
    ensures
        decode(array_head(0) + b) == Progress::Complete(Value::Array(Some(Seq::empty())), 4),
        decode(b) is Partial ==> decode(array_head(n + 1) + b) is Partial,
        decode(b) matches Progress::Unknown(lead, used) ==> decode(array_head(n + 1) + b)
            == Progress::<Value>::Unknown(lead, array_head(n + 1).len() + used),
        decode(b) matches Progress::Complete(v, used) ==> {
            match decode(array_head(n) + b.skip(used as int)) {
                Progress::Complete(array, all) => array is Array && array->Array_0 is Some && decode(
                    array_head(n + 1) + b,
                ) == Progress::Complete(
                    Value::Array(Some(seq![v] + array->Array_0->0)),
                    (array_head(n + 1).len() + used + all - array_head(n).len()) as nat,
                ),
                Progress::Partial => decode(array_head(n + 1) + b) is Partial,
                Progress::Unknown(lead, all) => decode(array_head(n + 1) + b)
                    == Progress::<Value>::Unknown(
                    lead,
                    (array_head(n + 1).len() + used + all - array_head(n).len()) as nat,
                ),
            }
        },
{
    lemma_array_head(0, b);
    lemma_array_head(n + 1, b);
    law_reply_within_bytes(b);
    if let Progress::Complete(v, used) = decode(b) {
        lemma_array_head(n, b.skip(used as int));
    }
    lemma_decimal(0);
    assert(array_head(0).len() == 4);
}

/// A reply holds what its parts hold, and an array what its elements hold, in order.
pub proof fn law_what_a_reply_holds(s: String, n: i64, b: Vec<u8>, v: Vec<Resp>, i: int)
    ensures
        Resp::SimpleString(s)@ == Value::SimpleString(s@),
        Resp::Error(s)@ == Value::Error(s@),
        Resp::Integer(n)@ == Value::Integer(n),
        Resp::BulkString(None)@ == Value::BulkString(None),
        Resp::BulkString(Some(b))@ == Value::BulkString(Some(b@)),
        Resp::Array(None)@ == Value::Array(None),
        Resp::Array(Some(v))@ is Array,
        Resp::Array(Some(v))@->Array_0 is Some,
        Resp::Array(Some(v))@->Array_0->0.len() == v@.len(),
        0 <= i < v@.len() ==> Resp::Array(Some(v))@->Array_0->0[i] == v@[i]@,
{
    lemma_array_value(v);
}

/// The arguments that vectors hold are the bytes of each of them, in order.
pub proof fn law_what_arguments_hold(args: Seq<Vec<u8>>, i: int)
    ensures
        arg_views(args).len() == args.len(),
        0 <= i < args.len() ==> arg_views(args)[i] == args[i]@,
{
}

/// Zeros and a plus sign in front of the length of an array change nothing but the number of bytes.
pub proof fn law_array_length_in_other_forms(
    sign: Seq<char>,
    zeros: Seq<char>,
    n: nat,
    b: Seq<u8>,
)
    requires
        n <= isize::MAX,
        forall|i: int| 0 <= i < zeros.len() ==> #[trigger] zeros[i] == '0',
        sign == Seq::<char>::empty() || sign == seq!['+'],
    ensures
        ({
            let line = number_line(sign, zeros, n);
            let same = decode(array_head(n) + b);
            let longer = decode(seq![42u8] + line + seq![13u8, 10u8] + b);
            match same {
                Progress::Complete(v, used) => longer == Progress::Complete(
                    v,
                    (used + line.len() + 3 - array_head(n).len()) as nat,
                ),
                Progress::Partial => longer is Partial,
                Progress::Unknown(lead, used) => longer == Progress::<Value>::Unknown(
                    lead,
                    (used + line.len() + 3 - array_head(n).len()) as nat,
                ),
            }
        }),
{
    lemma_array_head(n, b);
    lemma_number_line_value(sign, zeros, n);
    assert(sign != seq!['-']) by {
        if sign == seq!['-'] {
            assert(sign[0] == '-');
        }
    }
    lemma_decode_line(42, number_line(sign, zeros, n), b);
}

/// What has been read is told as it is: the reply with its number of bytes, that more is to come, or
/// the byte that starts no reply.
pub proof fn law_what_was_read(r: Resp, used: usize, lead: u8)
    ensures
        Decoded::Complete(r, used).progress() == Progress::Complete(r@, used as nat),
        Decoded::Partial.progress() == Progress::<Value>::Partial,
        Decoded::Unknown(lead, used).progress() == Progress::<Value>::Unknown(lead, used as nat),
{
}

} // verus!
