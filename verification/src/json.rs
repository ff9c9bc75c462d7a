//! How a reader of JSON understands the documents that rows are stored as. The reader knows the part
//! of JSON that they are written in: one object, whose members are whole numbers and strings, with no
//! white space between the tokens.
use vstd::prelude::*;

use crate::text::{
    all_digits, decimal, is_digit, law_decimal_reads_back, lemma_decimal, signed_decimal,
    signed_value,
};
use crate::vmstat::{document, escaped, escaped_char, member, members, number_in, KEYS};

verus! {

/// The value of a member.
pub enum Field {
    Number(int),
    Text(Seq<char>),
}

/// The number that a hexadecimal digit stands for.
pub open spec fn hex_value(c: char) -> Option<int> {
    if is_digit(c) {
        Some(c as int - '0' as int)
    } else if 'a' <= c <= 'f' {
        Some(c as int - 'a' as int + 10)
    } else if 'A' <= c <= 'F' {
        Some(c as int - 'A' as int + 10)
    } else {
        None
    }
}

/// The UTF-16 code unit that four hexadecimal digits from `at` on stand for.
pub open spec fn code_unit(t: Seq<char>, at: int) -> Option<int> {
    if t.len() < at + 4 {
        None
    } else {
        match (hex_value(t[at]), hex_value(t[at + 1]), hex_value(t[at + 2]), hex_value(t[at + 3])) {
            (Some(a), Some(b), Some(c), Some(d)) => Some(4096 * a + 256 * b + 16 * c + d),
            _ => None,
        }
    }
}

/// The character that an escape in hexadecimal digits stands for, told by what follows the
/// backslash, and the number of characters behind the backslash that it takes. A character outside
/// the basic plane takes two escapes, one for each of its surrogates; a lone surrogate is none.
pub open spec fn read_unicode_escape(t: Seq<char>) -> Option<(char, nat)> {
    match code_unit(t, 1) {
        None => None,
        Some(u) => if u < 0xd800 || 0xdfff < u {
            Some((u as char, 5))
        } else if 0xdbff < u || t.len() < 7 || t[5] != '\\' || t[6] != 'u' {
            None
        } else {
            match code_unit(t, 7) {
                Some(w) => if 0xdc00 <= w <= 0xdfff {
                    Some(((0x10000 + 0x400 * (u - 0xd800) + (w - 0xdc00)) as char, 11))
                } else {
                    None
                },
                None => None,
            }
        },
    }
}

/// The character that an escape stands for, told by what follows the backslash, and the number of
/// characters behind the backslash that it takes; `None` for what is no escape of JSON.
pub open spec fn read_escape(t: Seq<char>) -> Option<(char, nat)> {
    if t.len() == 0 {
        None
    } else if t[0] == '"' || t[0] == '\\' || t[0] == '/' {
        Some((t[0], 1))
    } else if t[0] == 'b' {
        Some(('\u{8}', 1))
    } else if t[0] == 'f' {
        Some(('\u{c}', 1))
    } else if t[0] == 'n' {
        Some(('\n', 1))
    } else if t[0] == 'r' {
        Some(('\r', 1))
    } else if t[0] == 't' {
        Some(('\t', 1))
    } else if t[0] == 'u' {
        read_unicode_escape(t)
    } else {
        None
    }
}

/// The string that starts behind an opening quote, and the number of characters up to and with the
/// closing one. A control character, which is one below the space, must be escaped.
pub open spec fn read_string(t: Seq<char>) -> Option<(Seq<char>, nat)>
    decreases t.len(),
{
    if t.len() == 0 || !(t[0] >= ' ') {
        None
    } else if t[0] == '"' {
        Some((Seq::empty(), 1))
    } else if t[0] == '\\' {
        match read_escape(t.skip(1)) {
            Some((c, k)) => match read_string(t.skip(k as int + 1)) {
                Some((s, n)) => Some((seq![c] + s, n + k + 1)),
                None => None,
            },
            None => None,
        }
    } else {
        match read_string(t.skip(1)) {
            Some((s, n)) => Some((seq![t[0]] + s, n + 1)),
            None => None,
        }
    }
}

/// How many characters a number takes that `t` starts with.
pub open spec fn number_len(t: Seq<char>) -> nat
    decreases t.len(),
{
    if t.len() > 0 && (is_digit(t[0]) || t[0] == '-') {
        1 + number_len(t.skip(1))
    } else {
        0
    }
}

/// Whether `d` is how JSON writes a whole number: digits, with no zero in front of others, behind at
/// most a minus sign.
pub open spec fn is_whole_number(d: Seq<char>) -> bool {
    let digits = if d.len() > 0 && d[0] == '-' {
        d.skip(1)
    } else {
        d
    };
    all_digits(digits) && (digits.len() == 1 || digits[0] != '0')
}

/// The value that `t` starts with, and the number of characters that it takes.
pub open spec fn read_field(t: Seq<char>) -> Option<(Field, nat)> {
    if t.len() > 0 && t[0] == '"' {
        match read_string(t.skip(1)) {
            Some((s, n)) => Some((Field::Text(s), n + 1)),
            None => None,
        }
    } else {
        let d = t.take(number_len(t) as int);
        if is_whole_number(d) {
            Some((Field::Number(signed_value(d)->0), number_len(t)))
        } else {
            None
        }
    }
}

/// The member that `t` starts with, and the number of characters that it takes.
pub open spec fn read_member(t: Seq<char>) -> Option<((Seq<char>, Field), nat)> {
    if t.len() > 0 && t[0] == '"' {
        match read_string(t.skip(1)) {
            Some((name, n)) => if n + 1 < t.len() && t[n as int + 1] == ':' {
                match read_field(t.skip(n as int + 2)) {
                    Some((field, k)) => Some(((name, field), n + 2 + k)),
                    None => None,
                }
            } else {
                None
            },
            None => None,
        }
    } else {
        None
    }
}

/// The members of an object, from behind its opening brace to the end of the text.
pub open spec fn read_members(t: Seq<char>) -> Option<Seq<(Seq<char>, Field)>>
    decreases t.len(),
{
    match read_member(t) {
        Some((first, n)) => if n < t.len() && t[n as int] == ',' {
            match read_members(t.skip(n as int + 1)) {
                Some(others) => Some(seq![first] + others),
                None => None,
            }
        } else if n + 1 == t.len() && t[n as int] == '}' {
            Some(seq![first])
        } else {
            None
        },
        None => None,
    }
}

/// The members of the object that a text holds.
pub open spec fn read_object(t: Seq<char>) -> Option<Seq<(Seq<char>, Field)>> {
    if t.len() > 0 && t[0] == '{' {
        read_members(t.skip(1))
    } else {
        None
    }
}

/// The members that stand for a row.
pub open spec fn row_members(tokens: Seq<Seq<char>>) -> Seq<(Seq<char>, Field)> {
    Seq::new(18, |i: int| (KEYS@[i]@, Field::Number(number_in(tokens[i])))).push(
        ("v-date"@, Field::Text(tokens[18])),
    ).push(("v-time"@, Field::Text(tokens[19])))
}

proof fn lemma_escaped_front(s: Seq<char>)
    requires
        s.len() > 0,
    ensures
        escaped(s) == escaped_char(s[0]) + escaped(s.skip(1)),
    decreases s.len(),
{
    reveal_with_fuel(escaped, 2);
    if s.len() == 1 {
        assert(s.drop_last() == Seq::<char>::empty());
        assert(s.skip(1) == Seq::<char>::empty());
        assert(escaped(s) == escaped_char(s[0]) + escaped(s.skip(1)));
    } else {
        lemma_escaped_front(s.drop_last());
        assert(s.drop_last().skip(1) == s.skip(1).drop_last());
        assert(escaped(s) == escaped_char(s[0]) + escaped(s.skip(1)));
    }
}

/// Whether every control character of a text is one that is escaped: a line feed, a carriage return
/// or a tab.
pub open spec fn is_legible(s: Seq<char>) -> bool {
    forall|i: int|
        0 <= i < s.len() ==> #[trigger] s[i] >= ' ' || s[i] == '\n' || s[i] == '\r' || s[i] == '\t'
}

proof fn lemma_escaped_text(s: Seq<char>, rest: Seq<char>)
    ensures
        read_string(escaped(s) + seq!['"'] + rest) == (if is_legible(s) {
            Some((s, escaped(s).len() + 1))
        } else {
            None
        }),
    decreases s.len(),
{
    let t = escaped(s) + seq!['"'] + rest;
    if s.len() == 0 {
        assert(t[0] == '"');
        assert(s == Seq::<char>::empty());
    } else {
        let others = s.skip(1);
        lemma_escaped_front(s);
        lemma_escaped_text(others, rest);
        let e = escaped_char(s[0]);
        assert(t.skip(e.len() as int) == escaped(others) + seq!['"'] + rest);
        assert(t[0] == e[0]);
        if e.len() == 2 {
            assert(t.skip(1)[0] == e[1]);
        }
        assert(seq![s[0]] + others == s);
        if is_legible(s) {
            assert forall|i: int| 0 <= i < others.len() implies #[trigger] others[i] >= ' '
                || others[i] == '\n' || others[i] == '\r' || others[i] == '\t' by {
                assert(others[i] == s[i + 1]);
            }
            assert(s[0] >= ' ' || s[0] == '\n' || s[0] == '\r' || s[0] == '\t');
        } else if is_legible(others) {
            assert forall|i: int| 0 < i < s.len() implies #[trigger] s[i] >= ' ' || s[i] == '\n'
                || s[i] == '\r' || s[i] == '\t' by {
                assert(s[i] == others[i - 1]);
            }
            assert(!(s[0] >= ' '));
        }
    }
}

/// A text that was escaped reads back as it was, and ends at the quote that was put behind it,
/// whatever follows, unless it holds a control character that is not escaped.
pub proof fn law_escaped_text_reads_back(s: Seq<char>, rest: Seq<char>)
    requires
        is_legible(s),
    ensures
        read_string(escaped(s) + seq!['"'] + rest) == Some((s, escaped(s).len() + 1)),
{
    lemma_escaped_text(s, rest);
}

/// Whether a text is written in a string as it is.
pub open spec fn is_plain(s: Seq<char>) -> bool {
    forall|i: int|
        0 <= i < s.len() ==> #[trigger] s[i] >= ' ' && escaped_char(s[i]) == seq![s[i]]
}

proof fn lemma_plain_escaped(s: Seq<char>)
    requires
        is_plain(s),
    ensures
        escaped(s) == s,
    decreases s.len(),
{
    if s.len() > 0 {
        let before = s.drop_last();
        assert forall|i: int| 0 <= i < before.len() implies #[trigger] before[i] >= ' '
            && escaped_char(before[i]) == seq![before[i]] by {
            assert(before[i] == s[i]);
        }
        lemma_plain_escaped(before);
        assert(s[s.len() - 1] == s.last());
        assert(before + seq![s.last()] == s);
    } else {
        assert(s == Seq::<char>::empty());
    }
}

proof fn lemma_number_len(d: Seq<char>, rest: Seq<char>)
    requires
        forall|i: int| 0 <= i < d.len() ==> is_digit(#[trigger] d[i]) || d[i] == '-',
        rest.len() > 0,
        rest[0] == ',' || rest[0] == '}',
    ensures
        number_len(d + rest) == d.len(),
    decreases d.len(),
{
    let t = d + rest;
    if d.len() > 0 {
        let e = d.skip(1);
        assert forall|i: int| 0 <= i < e.len() implies is_digit(#[trigger] e[i]) || e[i] == '-' by {
            assert(is_digit(d[i + 1]) || d[i + 1] == '-');
        }
        lemma_number_len(e, rest);
        assert(t.skip(1) == e + rest);
        assert(is_digit(d[0]) || d[0] == '-');
        assert(t[0] == d[0]);
    } else {
        assert(t[0] == rest[0]);
    }
}

/// A number is written without a zero in front of other digits.
proof fn lemma_no_leading_zero(n: nat)
    ensures
        n > 0 ==> decimal(n)[0] != '0',
        n == 0 ==> decimal(n).len() == 1,
        decimal(n).len() > 0,
    decreases n,
{
    if n >= 10 {
        lemma_no_leading_zero(n / 10);
        assert(decimal(n)[0] == decimal(n / 10)[0]);
    }
}

proof fn lemma_whole_number(n: int)
    ensures
        is_whole_number(signed_decimal(n)),
{
    let m = (if n < 0 { -n } else { n }) as nat;
    lemma_decimal(m);
    lemma_no_leading_zero(m);
    if n < 0 {
        assert(signed_decimal(n).skip(1) == decimal(m));
    } else {
        assert(is_digit(decimal(m)[0]));
    }
}

/// Whether the value of a member reads back.
spec fn is_readable(field: Field) -> bool {
    match field {
        Field::Number(_) => true,
        Field::Text(s) => is_legible(s),
    }
}

/// How the value of a member is written.
spec fn written_field(field: Field) -> Seq<char> {
    match field {
        Field::Number(n) => signed_decimal(n),
        Field::Text(s) => seq!['"'] + escaped(s) + seq!['"'],
    }
}

/// How a member is written.
spec fn written(name: Seq<char>, field: Field) -> Seq<char> {
    seq!['"'] + name + seq!['"', ':'] + written_field(field)
}

proof fn lemma_field_reads_back(field: Field, rest: Seq<char>)
    requires
        rest.len() > 0,
        rest[0] == ',' || rest[0] == '}',
    ensures
        read_field(written_field(field) + rest) == (if is_readable(field) {
            Some((field, written_field(field).len()))
        } else {
            None
        }),
{
    let t = written_field(field) + rest;
    match field {
        Field::Number(n) => {
            let d = signed_decimal(n);
            lemma_decimal((if n < 0 { -n } else { n }) as nat);
            assert forall|i: int| 0 <= i < d.len() implies is_digit(#[trigger] d[i]) || d[i]
                == '-' by {
                if n < 0 {
                    if i > 0 {
                        assert(d[i] == decimal((-n) as nat)[i - 1]);
                    }
                } else {
                    assert(is_digit(decimal(n as nat)[i]));
                }
            }
            lemma_number_len(d, rest);
            assert(t.take(d.len() as int) == d);
            law_decimal_reads_back(n);
            lemma_whole_number(n);
            assert(d.len() > 0);
            assert(t[0] == d[0]);
            assert(is_digit(d[0]) || d[0] == '-');
        },
        Field::Text(s) => {
            lemma_escaped_text(s, rest);
            assert(t[0] == '"');
            assert(t.skip(1) == escaped(s) + seq!['"'] + rest);
        },
    }
}

proof fn lemma_name_reads_back(name: Seq<char>, rest: Seq<char>)
    requires
        is_plain(name),
    ensures
        read_string(name + seq!['"'] + rest) == Some((name, name.len() + 1)),
{
    lemma_plain_escaped(name);
    assert forall|i: int| 0 <= i < name.len() implies #[trigger] name[i] >= ' ' by {}
    assert(is_legible(name));
    lemma_escaped_text(name, rest);
}

/// A member whose name and value read back does so itself.
proof fn lemma_member_of_parts(name: Seq<char>, value: Seq<char>, rest: Seq<char>)
    requires
        read_string(name + seq!['"'] + (seq![':'] + (value + rest))) == Some(
            (name, name.len() + 1),
        ),
    ensures
        read_member(seq!['"'] + name + seq!['"', ':'] + value + rest) == (match read_field(
            value + rest,
        ) {
            Some((field, k)) => Some(((name, field), name.len() + 3 + k)),
            None => None,
        }),
{
    let tail = value + rest;
    let t = seq!['"'] + name + seq!['"', ':'] + value + rest;
    assert(t[0] == '"');
    assert(t.skip(1) == name + seq!['"'] + (seq![':'] + tail));
    assert(t[name.len() as int + 2] == ':');
    assert(t.skip(name.len() as int + 3) == tail);
}

proof fn lemma_member_reads_back(name: Seq<char>, field: Field, rest: Seq<char>)
    requires
        is_plain(name),
        rest.len() > 0,
        rest[0] == ',' || rest[0] == '}',
    ensures
        read_member(written(name, field) + rest) == (if is_readable(field) {
            Some(((name, field), written(name, field).len()))
        } else {
            None
        }),
{
    let value = written_field(field);
    lemma_name_reads_back(name, seq![':'] + (value + rest));
    lemma_field_reads_back(field, rest);
    lemma_member_of_parts(name, value, rest);
}

/// How the members of an object are written, from behind its opening brace.
spec fn written_all(list: Seq<(Seq<char>, Field)>) -> Seq<char>
    decreases list.len(),
{
    if list.len() == 0 {
        Seq::empty()
    } else if list.len() == 1 {
        written(list[0].0, list[0].1) + seq!['}']
    } else {
        written(list[0].0, list[0].1) + seq![','] + written_all(list.skip(1))
    }
}

/// Whether the values of all members read back.
spec fn all_readable(list: Seq<(Seq<char>, Field)>) -> bool {
    forall|i: int| 0 <= i < list.len() ==> is_readable((#[trigger] list[i]).1)
}

proof fn lemma_members_read_back(list: Seq<(Seq<char>, Field)>)
    requires
        list.len() > 0,
        forall|i: int| 0 <= i < list.len() ==> is_plain((#[trigger] list[i]).0),
    ensures
        read_members(written_all(list)) == (if all_readable(list) {
            Some(list)
        } else {
            None
        }),
    decreases list.len(),
{
    let (name, field) = list[0];
    let w = written(name, field);
    let t = written_all(list);
    assert(is_plain(list[0].0));
    if list.len() == 1 {
        lemma_member_reads_back(name, field, seq!['}']);
        assert(t[w.len() as int] == '}');
        assert(list == seq![list[0]]);
    } else {
        let others = list.skip(1);
        assert forall|i: int| 0 <= i < others.len() implies is_plain((#[trigger] others[i]).0) by {
            assert(is_plain(list[i + 1].0));
        }
        lemma_members_read_back(others);
        let rest = seq![','] + written_all(others);
        assert(t == w + rest);
        lemma_member_reads_back(name, field, rest);
        assert(t[w.len() as int] == ',');
        assert(t.skip(w.len() as int + 1) == written_all(others));
        assert(list == seq![list[0]] + others);
        if all_readable(list) {
            assert forall|i: int| 0 <= i < others.len() implies is_readable(
                (#[trigger] others[i]).1,
            ) by {
                assert(is_readable(list[i + 1].1));
            }
            assert(is_readable(list[0].1));
        } else if all_readable(others) {
            let i = choose|i: int| 0 <= i < list.len() && !is_readable((#[trigger] list[i]).1);
            if i > 0 {
                assert(is_readable(others[i - 1].1));
            }
        }
    }
}

/// The characters of the names of members.
spec fn is_name_char(c: char) -> bool {
    c == '-' || ('a' <= c <= 'z')
}

proof fn lemma_names_plain(i: int)
    ensures
        0 <= i < 18 ==> is_plain(KEYS@[i]@),
        is_plain("v-date"@),
        is_plain("v-time"@),
{
    reveal_strlit("v-r");
    reveal_strlit("v-b");
    reveal_strlit("v-swpd");
    reveal_strlit("v-free");
    reveal_strlit("v-buff");
    reveal_strlit("v-cache");
    reveal_strlit("v-si");
    reveal_strlit("v-so");
    reveal_strlit("v-bi");
    reveal_strlit("v-bo");
    reveal_strlit("v-in");
    reveal_strlit("v-cs");
    reveal_strlit("v-us");
    reveal_strlit("v-sy");
    reveal_strlit("v-id");
    reveal_strlit("v-wa");
    reveal_strlit("v-st");
    reveal_strlit("v-gu");
    reveal_strlit("v-date");
    reveal_strlit("v-time");
    if 0 <= i < 18 {
        let name = KEYS@[i]@;
        assert(name.len() <= 7);
        assert forall|j: int| 0 <= j < name.len() implies #[trigger] name[j] >= ' ' && escaped_char(
            name[j],
        ) == seq![name[j]] by {
            assert(j == 0 || j == 1 || j == 2 || j == 3 || j == 4 || j == 5 || j == 6);
            assert(is_name_char(name[j]));
        }
    }
    assert forall|j: int| 0 <= j < "v-date"@.len() implies #[trigger] "v-date"@[j] >= ' '
        && escaped_char("v-date"@[j]) == seq!["v-date"@[j]] by {
        assert(j == 0 || j == 1 || j == 2 || j == 3 || j == 4 || j == 5);
        assert(is_name_char("v-date"@[j]));
    }
    assert forall|j: int| 0 <= j < "v-time"@.len() implies #[trigger] "v-time"@[j] >= ' '
        && escaped_char("v-time"@[j]) == seq!["v-time"@[j]] by {
        assert(j == 0 || j == 1 || j == 2 || j == 3 || j == 4 || j == 5);
        assert(is_name_char("v-time"@[j]));
    }
}

/// The first `n` members, one or more, and the others behind a comma are the members of the row.
proof fn lemma_members_written(tokens: Seq<Seq<char>>, n: nat)
    requires
        1 <= n <= 18,
    ensures
        members(tokens, n) + seq![','] + written_all(row_members(tokens).skip(n as int))
            == written_all(row_members(tokens)),
    decreases n,
{
    let list = row_members(tokens);
    let k = n - 1;
    let here = list.skip(k);
    reveal_strlit("\":");
    assert("\":"@ == seq!['"', ':']);
    assert(member(k, tokens[k]) == written(list[k].0, list[k].1));
    assert(here[0] == list[k]);
    assert(here.skip(1) == list.skip(n as int));
    assert(written_all(here) == member(k, tokens[k]) + seq![','] + written_all(
        list.skip(n as int),
    ));
    if n == 1 {
        assert(here == list);
    } else {
        lemma_members_written(tokens, k as nat);
        assert(members(tokens, n) + seq![','] + written_all(list.skip(n as int)) == members(
            tokens,
            k as nat,
        ) + seq![','] + written_all(here));
    }
}

/// The fixed parts of a document, taken apart.
proof fn lemma_fixed_parts()
    ensures
        ",\"v-date\":\""@ == seq![','] + (seq!['"'] + "v-date"@ + seq!['"', ':']) + seq!['"'],
        "\",\"v-time\":\""@ == seq!['"', ','] + (seq!['"'] + "v-time"@ + seq!['"', ':']) + seq!['"'],
        "\"}"@ == seq!['"', '}'],
{
    reveal_strlit(",\"v-date\":\"");
    reveal_strlit("\",\"v-time\":\"");
    reveal_strlit("\"}");
    reveal_strlit("v-date");
    reveal_strlit("v-time");
    assert(",\"v-date\":\""@ == seq![','] + (seq!['"'] + "v-date"@ + seq!['"', ':']) + seq!['"']);
    assert("\",\"v-time\":\""@ == seq!['"', ','] + (seq!['"'] + "v-time"@ + seq!['"', ':'])
        + seq!['"']);
    assert("\"}"@ == seq!['"', '}']);
}

/// Two members in front of the end of an object, `first` and `second` being what stands in front of
/// the texts that they hold.
proof fn lemma_two_texts(
    front: Seq<char>,
    first: Seq<char>,
    date: Seq<char>,
    second: Seq<char>,
    time: Seq<char>,
)
    ensures
        front + (seq![','] + first + seq!['"']) + date + (seq!['"', ','] + second + seq!['"']) + time
            + seq!['"', '}'] == front + seq![','] + ((first + (seq!['"'] + date + seq!['"']))
            + seq![','] + ((second + (seq!['"'] + time + seq!['"'])) + seq!['}'])),
{
    let a = first + (seq!['"'] + date + seq!['"']);
    let b = second + (seq!['"'] + time + seq!['"']) + seq!['}'];
    assert(second + seq!['"'] + time + seq!['"', '}'] == b);
    assert(first + seq!['"'] + date + seq!['"', ','] + b == a + seq![','] + b);
    assert(front + (seq![','] + first + seq!['"']) + date + (seq!['"', ','] + second + seq!['"'])
        + time + seq!['"', '}'] == front + seq![','] + (first + seq!['"'] + date + seq!['"', ',']
        + (second + seq!['"'] + time + seq!['"', '}'])));
}

proof fn lemma_last_members(tokens: Seq<Seq<char>>)
    ensures
        written_all(row_members(tokens).skip(18)) == written("v-date"@, Field::Text(tokens[18]))
            + seq![','] + (written("v-time"@, Field::Text(tokens[19])) + seq!['}']),
{
    let list = row_members(tokens);
    let last = list.skip(18);
    let time = seq![("v-time"@, Field::Text(tokens[19]))];
    assert(last.len() == 2);
    assert(last[0] == ("v-date"@, Field::Text(tokens[18])));
    assert(last.skip(1) == time);
    assert(written_all(time) == written(time[0].0, time[0].1) + seq!['}']);
}

proof fn lemma_document_written(tokens: Seq<Seq<char>>)
    ensures
        document(tokens) == seq!['{'] + written_all(row_members(tokens)),
{
    let front = seq!['{'] + members(tokens, 18);
    let last = written_all(row_members(tokens).skip(18));
    lemma_members_written(tokens, 18);
    lemma_last_members(tokens);
    lemma_fixed_parts();
    lemma_two_texts(
        front,
        seq!['"'] + "v-date"@ + seq!['"', ':'],
        escaped(tokens[18]),
        seq!['"'] + "v-time"@ + seq!['"', ':'],
        escaped(tokens[19]),
    );
    assert(document(tokens) == front + seq![','] + last);
    assert(front + seq![','] + last == seq!['{'] + (members(tokens, 18) + seq![','] + last));
}

proof fn lemma_row_readable(tokens: Seq<Seq<char>>)
    ensures
        all_readable(row_members(tokens)) == (is_legible(tokens[18]) && is_legible(tokens[19])),
{
    let list = row_members(tokens);
    assert(list[18].1 == Field::Text(tokens[18]));
    assert(list[19].1 == Field::Text(tokens[19]));
    assert forall|i: int| 0 <= i < 18 implies is_readable((#[trigger] list[i]).1) by {
        assert(list[i].1 is Number);
    }
    if all_readable(list) {
        assert(is_readable(list[18].1));
        assert(is_readable(list[19].1));
    }
}

proof fn lemma_document(tokens: Seq<Seq<char>>)
    ensures
        read_object(document(tokens)) == (if is_legible(tokens[18]) && is_legible(tokens[19]) {
            Some(row_members(tokens))
        } else {
            None
        }),
{
    let list = row_members(tokens);
    lemma_document_written(tokens);
    lemma_row_readable(tokens);
    assert(document(tokens)[0] == '{');
    assert(document(tokens).skip(1) == written_all(list));
    assert forall|i: int| 0 <= i < list.len() implies is_plain((#[trigger] list[i]).0) by {
        lemma_names_plain(i);
    }
    lemma_members_read_back(list);
}

/// The document of a row is JSON, and reads back as an object with the numbers, the date and the time
/// of the row, each under its name, unless the date or the time holds a control character that is not
/// escaped.
pub proof fn law_document_reads_back(tokens: Seq<Seq<char>>)
    requires
        is_legible(tokens[18]),
        is_legible(tokens[19]),
    ensures
        read_object(document(tokens)) == Some(row_members(tokens)),
{
    lemma_document(tokens);
}

/// A document whose date or time holds a control character that is not escaped is refused.
pub proof fn law_control_character_is_refused(tokens: Seq<Seq<char>>)
    requires
        !(is_legible(tokens[18]) && is_legible(tokens[19])),
    ensures
        read_object(document(tokens)) is None,
{
    lemma_document(tokens);
}

/// No two members of a document have the same name.
pub proof fn law_member_names_differ(tokens: Seq<Seq<char>>, i: int, j: int)
    requires
        0 <= i < j < 20,
    ensures
        row_members(tokens)[i].0 != row_members(tokens)[j].0,
{
    reveal_strlit("v-r");
    reveal_strlit("v-b");
    reveal_strlit("v-swpd");
    reveal_strlit("v-free");
    reveal_strlit("v-buff");
    reveal_strlit("v-cache");
    reveal_strlit("v-si");
    reveal_strlit("v-so");
    reveal_strlit("v-bi");
    reveal_strlit("v-bo");
    reveal_strlit("v-in");
    reveal_strlit("v-cs");
    reveal_strlit("v-us");
    reveal_strlit("v-sy");
    reveal_strlit("v-id");
    reveal_strlit("v-wa");
    reveal_strlit("v-st");
    reveal_strlit("v-gu");
    reveal_strlit("v-date");
    reveal_strlit("v-time");
    let a = row_members(tokens)[i].0;
    let b = row_members(tokens)[j].0;
    assert(a.len() != b.len() || a[2] != b[2] || a[3] != b[3]);
}

/// A row whose columns are the numbers `n`, written in decimal, reads back from its document with each
/// of these numbers under the name of its column, and with its date and its time.
pub proof fn law_numbers_read_back(tokens: Seq<Seq<char>>, n: Seq<int>)
    requires
        n.len() == 18,
        forall|i: int| 0 <= i < 18 ==> #[trigger] tokens[i] == signed_decimal(n[i]),
        forall|i: int|
            0 <= i < 18 ==> -0x8000_0000_0000_0000 <= #[trigger] n[i] <= 0x7fff_ffff_ffff_ffff,
        is_legible(tokens[18]),
        is_legible(tokens[19]),
    ensures
        read_object(document(tokens)) == Some(
            seq![
                ("v-r"@, Field::Number(n[0])),
                ("v-b"@, Field::Number(n[1])),
                ("v-swpd"@, Field::Number(n[2])),
                ("v-free"@, Field::Number(n[3])),
                ("v-buff"@, Field::Number(n[4])),
                ("v-cache"@, Field::Number(n[5])),
                ("v-si"@, Field::Number(n[6])),
                ("v-so"@, Field::Number(n[7])),
                ("v-bi"@, Field::Number(n[8])),
                ("v-bo"@, Field::Number(n[9])),
                ("v-in"@, Field::Number(n[10])),
                ("v-cs"@, Field::Number(n[11])),
                ("v-us"@, Field::Number(n[12])),
                ("v-sy"@, Field::Number(n[13])),
                ("v-id"@, Field::Number(n[14])),
                ("v-wa"@, Field::Number(n[15])),
                ("v-st"@, Field::Number(n[16])),
                ("v-gu"@, Field::Number(n[17])),
                ("v-date"@, Field::Text(tokens[18])),
                ("v-time"@, Field::Text(tokens[19])),
            ],
        ),
{
    law_document_reads_back(tokens);
    let list = row_members(tokens);
    assert forall|i: int| 0 <= i < 18 implies #[trigger] list[i] == (
        KEYS@[i]@,
        Field::Number(n[i]),
    ) by {
        assert(tokens[i] == signed_decimal(n[i]));
        law_decimal_reads_back(n[i]);
    }
    assert(list == seq![
        ("v-r"@, Field::Number(n[0])),
        ("v-b"@, Field::Number(n[1])),
        ("v-swpd"@, Field::Number(n[2])),
        ("v-free"@, Field::Number(n[3])),
        ("v-buff"@, Field::Number(n[4])),
        ("v-cache"@, Field::Number(n[5])),
        ("v-si"@, Field::Number(n[6])),
        ("v-so"@, Field::Number(n[7])),
        ("v-bi"@, Field::Number(n[8])),
        ("v-bo"@, Field::Number(n[9])),
        ("v-in"@, Field::Number(n[10])),
        ("v-cs"@, Field::Number(n[11])),
        ("v-us"@, Field::Number(n[12])),
        ("v-sy"@, Field::Number(n[13])),
        ("v-id"@, Field::Number(n[14])),
        ("v-wa"@, Field::Number(n[15])),
        ("v-st"@, Field::Number(n[16])),
        ("v-gu"@, Field::Number(n[17])),
        ("v-date"@, Field::Text(tokens[18])),
        ("v-time"@, Field::Text(tokens[19])),
    ]);
}

} // verus!
