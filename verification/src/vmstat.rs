//! Rows of `vmstat -y -n -t` and the JSON documents that stand for them.
use vstd::prelude::*;
use vstd::utf8::*;

use crate::text::{
    byte_part, bytes_between, chars_of, decimal, digits_value, is_digit, is_space,
    law_decimal_reads_back, law_no_number_in_text, law_numbers_in_text, law_part_by_its_bytes,
    law_words_of_a_line, lemma_word_len, line_of, parse_i64, push_decimal, signed_decimal,
    signed_value, split_words, text_of, within, word_len, word_views, words,
};

verus! {

/// How a character is written inside a JSON string. Quotes, backslashes, line feeds, carriage
/// returns and tabs are escaped; every other character stands for itself.
pub open spec fn escaped_char(c: char) -> Seq<char> {
    if c == '"' {
        seq!['\\', '"']
    } else if c == '\\' {
        seq!['\\', '\\']
    } else if c == '\n' {
        seq!['\\', 'n']
    } else if c == '\r' {
        seq!['\\', 'r']
    } else if c == '\t' {
        seq!['\\', 't']
    } else {
        seq![c]
    }
}

/// How a text is written inside a JSON string: character by character.
pub open spec fn escaped(s: Seq<char>) -> Seq<char>
    decreases s.len(),
{
    if s.len() == 0 {
        Seq::empty()
    } else {
        escaped(s.drop_last()) + escaped_char(s.last())
    }
}

/// `s` as it is written inside a JSON string.
pub fn json_escape(s: &str) -> (r: String)
    ensures
        r@ == escaped(s@),
{
    let mut out = String::new();
    for c in it: s.chars()
        invariant
            it.seq() == s@,
            out@ == escaped(s@.take(it.index() as int)),
    {
        let ghost n = it.index() as int;
        proof {
            assert(s@.take(n + 1).drop_last() == s@.take(n));
        }
        if c == '"' {
            out.push('\\');
            out.push('"');
        } else if c == '\\' {
            out.push('\\');
            out.push('\\');
        } else if c == '\n' {
            out.push('\\');
            out.push('n');
        } else if c == '\r' {
            out.push('\\');
            out.push('r');
        } else if c == '\t' {
            out.push('\\');
            out.push('t');
        } else {
            out.push(c);
        }
        proof {
            assert(out@ == escaped(s@.take(n)) + escaped_char(c));
        }
    }
    proof {
        assert(s@.take(s@.len() as int) == s@);
    }
    out
}

/// The names of the numeric columns, in the order in which `vmstat` prints them.
pub const KEYS: [&'static str; 18] = [
    "v-r",
    "v-b",
    "v-swpd",
    "v-free",
    "v-buff",
    "v-cache",
    "v-si",
    "v-so",
    "v-bi",
    "v-bo",
    "v-in",
    "v-cs",
    "v-us",
    "v-sy",
    "v-id",
    "v-wa",
    "v-st",
    "v-gu",
];

/// The number in a numeric column; zero where the column holds no 64-bit integer.
pub open spec fn number_in(token: Seq<char>) -> int {
    match within(signed_value(token), i64::MIN as int, i64::MAX as int) {
        Some(n) => n,
        None => 0,
    }
}

/// One member of the document: the name of column `i` and the number in it.
pub open spec fn member(i: int, token: Seq<char>) -> Seq<char> {
    seq!['"'] + KEYS@[i]@ + "\":"@ + signed_decimal(number_in(token))
}

/// The members for the first `n` columns, with commas between them.
pub open spec fn members(tokens: Seq<Seq<char>>, n: nat) -> Seq<char>
    decreases n,
{
    if n == 0 {
        Seq::empty()
    } else if n == 1 {
        member(0, tokens[0])
    } else {
        members(tokens, (n - 1) as nat) + seq![','] + member(n - 1, tokens[n - 1])
    }
}

/// The document for a row of `vmstat`: its numeric columns, then the date and the time.
pub open spec fn document(tokens: Seq<Seq<char>>) -> Seq<char> {
    seq!['{'] + members(tokens, 18) + ",\"v-date\":\""@ + escaped(tokens[18])
        + "\",\"v-time\":\""@ + escaped(tokens[19]) + "\"}"@
}

/// The second that a time such as `12:34:56` names in its seventh and eighth byte; zero where they
/// hold no number below sixty.
pub open spec fn second_of(time: Seq<char>) -> int {
    match byte_part(time, 6, 8) {
        Some(t) => match within(signed_value(t), 0, 59) {
            Some(n) => n,
            None => 0,
        },
        None => 0,
    }
}

/// Whether a line is a row of data: it has twenty words or more, and the first of them starts with
/// a digit.
pub open spec fn is_row(line: Seq<char>) -> bool {
    words(line).len() >= 20 && is_digit(words(line)[0][0])
}

/// A row of `vmstat`, ready to be stored.
#[derive(Debug, PartialEq, Eq)]
pub struct ParsedVmstat {
    /// The document that stands for the row.
    pub json: String,
    /// The second of the minute in which the row was taken.
    pub second: i64,
}

fn second_in(time: &[char]) -> (r: i64)
    ensures
        r == second_of(time@),
        0 <= r < 60,
{
    match bytes_between(time, 6, 8) {
        Some(t) => match parse_i64(t.as_slice()) {
            Some(n) => if 0 <= n && n < 60 {
                n
            } else {
                0
            },
            None => 0,
        },
        None => 0,
    }
}

fn push_member(json: &mut String, i: usize, token: &[char])
    requires
        i < 18,
    ensures
        final(json)@ == old(json)@ + member(i as int, token@),
{
    let n: i64 = match parse_i64(token) {
        Some(n) => n,
        None => 0,
    };
    json.push('"');
    json.push_str(KEYS[i]);
    json.push_str("\":");
    push_decimal(json, n);
    proof {
        assert(json@ == old(json)@ + member(i as int, token@));
    }
}

proof fn lemma_first_word(s: Seq<char>)
    requires
        words(s).len() > 0,
    ensures
        words(s)[0].len() > 0,
        forall|i: int| 0 <= i < words(s)[0].len() ==> !is_space(#[trigger] words(s)[0][i]),
    decreases s.len(),
{
    if s.len() > 0 {
        if is_space(s[0]) {
            lemma_first_word(s.skip(1));
        } else {
            lemma_word_len(s);
            assert(words(s)[0] == s.take(word_len(s) as int));
        }
    }
}

/// The document and the second of a line that is a row of data; `None` for any other line.
pub fn parse_vmstat_line(line: &str) -> (r: Option<ParsedVmstat>)
    ensures
        match r {
            Some(p) => is_row(line@) && p.json@ == document(words(line@)) && p.second == second_of(
                words(line@)[19],
            ) && 0 <= p.second < 60,
            None => !is_row(line@),
        },
{
    let chars = chars_of(line);
    let tokens = split_words(chars.as_slice());
    let ghost toks = words(line@);
    proof {
        assert(tokens@.len() == word_views(tokens@).len());
        assert forall|i: int| 0 <= i < tokens@.len() implies #[trigger] toks[i] == tokens@[i]@ by {
            assert(word_views(tokens@)[i] == tokens@[i]@);
        }
    }
    if tokens.len() < 20 {
        return None;
    }
    proof {
        lemma_first_word(line@);
        assert(toks[0] == tokens@[0]@);
    }
    let first = tokens[0][0];
    if first < '0' || first > '9' {
        return None;
    }
    let second: i64 = second_in(tokens[19].as_slice());
    let mut json = String::new();
    json.push('{');
    let mut i: usize = 0;
    proof {
        assert(json@ == seq!['{'] + members(toks, 0));
    }
    while i < 18
        invariant
            i <= 18,
            tokens@.len() >= 20,
            toks.len() == tokens@.len(),
            forall|k: int| 0 <= k < tokens@.len() ==> #[trigger] toks[k] == tokens@[k]@,
            json@ == seq!['{'] + members(toks, i as nat),
        decreases 18 - i,
    {
        let ghost before = json@;
        if i > 0 {
            json.push(',');
        }
        push_member(&mut json, i, tokens[i].as_slice());
        proof {
            assert(toks[i as int] == tokens@[i as int]@);
            assert(json@ == seq!['{'] + members(toks, i as nat + 1));
        }
        i += 1;
    }
    let date = text_of(tokens[18].as_slice());
    let time = text_of(tokens[19].as_slice());
    json.push_str(",\"v-date\":\"");
    json.push_str(json_escape(date.as_str()).as_str());
    json.push_str("\",\"v-time\":\"");
    json.push_str(json_escape(time.as_str()).as_str());
    json.push_str("\"}");
    proof {
        assert(toks[18] == tokens@[18]@);
        assert(toks[19] == tokens@[19]@);
        assert(json@ == document(toks));
    }
    Some(ParsedVmstat { json, second })
}

/// Escaping goes character by character: the five characters below become a backslash and a letter or
/// themselves, and every other character stays as it is.
pub proof fn law_escaping(a: Seq<char>, b: Seq<char>, c: char)
    ensures
        escaped(a + b) == escaped(a) + escaped(b),
        escaped(Seq::empty()) == Seq::<char>::empty(),
        escaped(seq!['"']) == seq!['\\', '"'],
        escaped(seq!['\\']) == seq!['\\', '\\'],
        escaped(seq!['\n']) == seq!['\\', 'n'],
        escaped(seq!['\r']) == seq!['\\', 'r'],
        escaped(seq!['\t']) == seq!['\\', 't'],
        c != '"' && c != '\\' && c != '\n' && c != '\r' && c != '\t' ==> escaped(seq![c]) == seq![c],
    decreases b.len(),
{
    lemma_escaped_one('"');
    lemma_escaped_one('\\');
    lemma_escaped_one('\n');
    lemma_escaped_one('\r');
    lemma_escaped_one('\t');
    lemma_escaped_one(c);
    if b.len() == 0 {
        assert(a + b == a);
        assert(escaped(a) + escaped(b) == escaped(a));
    } else {
        law_escaping(a, b.drop_last(), c);
        assert((a + b).drop_last() == a + b.drop_last());
        assert(escaped(a + b) == escaped(a) + escaped(b));
    }
}

proof fn lemma_escaped_one(c: char)
    ensures
        escaped(seq![c]) == escaped_char(c),
{
    reveal_with_fuel(escaped, 2);
    assert(seq![c].drop_last() == Seq::<char>::empty());
    assert(Seq::<char>::empty() + escaped_char(c) == escaped_char(c));
}

/// A column that holds a number, with zeros or a sign in front of its digits or not, is that number
/// where it fits 64 bits, and zero where it does not.
pub proof fn law_column_holds_number(zeros: Seq<char>, n: nat)
    requires
        forall|i: int| 0 <= i < zeros.len() ==> #[trigger] zeros[i] == '0',
    ensures
        number_in(zeros + decimal(n)) == (if n <= 0x7fff_ffff_ffff_ffff {
            n as int
        } else {
            0
        }),
        number_in(seq!['+'] + (zeros + decimal(n))) == (if n <= 0x7fff_ffff_ffff_ffff {
            n as int
        } else {
            0
        }),
        number_in(seq!['-'] + (zeros + decimal(n))) == (if n <= 0x8000_0000_0000_0000 {
            -n
        } else {
            0
        }),
{
    law_numbers_in_text(zeros, n);
}

/// A column that holds anything but digits behind at most one sign is zero.
pub proof fn law_column_without_number(token: Seq<char>, i: int)
    requires
        token.len() == 0 || (token.len() == 1 && !('0' <= token[0] <= '9')) || (0 < i < token.len()
            && !('0' <= token[i] <= '9')) || (i == 0 && token.len() > 0 && !('0' <= token[0] <= '9')
            && token[0] != '+' && token[0] != '-'),
    ensures
        number_in(token) == 0,
{
    law_no_number_in_text(token, i);
}

/// A line is a row just where it has twenty words or more and the first of them starts with a digit,
/// whatever white space stands between them; it is read as these words.
pub proof fn law_row_is_twenty_words(list: Seq<Seq<char>>, gaps: Seq<Seq<char>>)
    requires
        gaps.len() == list.len() + 1,
        forall|i: int, j: int|
            0 <= i < gaps.len() && 0 <= j < gaps[i].len() ==> is_space(#[trigger] gaps[i][j]),
        forall|i: int| 0 < i < list.len() ==> (#[trigger] gaps[i]).len() > 0,
        forall|i: int| 0 <= i < list.len() ==> (#[trigger] list[i]).len() > 0,
        forall|i: int, j: int|
            0 <= i < list.len() && 0 <= j < list[i].len() ==> !is_space(#[trigger] list[i][j]),
    ensures
        words(line_of(list, gaps)) == list,
        is_row(line_of(list, gaps)) <==> list.len() >= 20 && '0' <= list[0][0] <= '9',
{
    law_words_of_a_line(list, gaps);
}

/// A time whose seventh and eighth byte are two digits names the second that they stand for, or zero
/// where that is sixty or more; a digit behind a plus sign names that second. What stands in front of
/// them and behind them makes no difference.
pub proof fn law_second_from_two_bytes(front: Seq<char>, tens: nat, ones: nat, back: Seq<char>)
    requires
        encode_utf8(front).len() == 6,
        tens < 10,
        ones < 10,
    ensures
        second_of(
            front + seq![('0' as int + tens) as char, ('0' as int + ones) as char] + back,
        ) == (if 10 * tens + ones < 60 {
            (10 * tens + ones) as int
        } else {
            0
        }),
        second_of(front + seq!['+', ('0' as int + ones) as char] + back) == ones,
{
    let t = ('0' as int + tens) as char;
    let o = ('0' as int + ones) as char;
    let two = seq![t, o];
    let signed = seq!['+', o];
    law_part_by_its_bytes(front, two, back, 0, 0);
    law_part_by_its_bytes(front, signed, back, 0, 0);
    assert(is_ascii_chars(two));
    is_ascii_chars_encode_utf8(two);
    assert(is_ascii_chars(signed));
    is_ascii_chars_encode_utf8(signed);
    reveal_with_fuel(digits_value, 3);
    assert(two.drop_last() == seq![t]);
    assert(seq![t].drop_last() == Seq::<char>::empty());
    assert(signed.skip(1) == seq![o]);
    assert(seq![o].drop_last() == Seq::<char>::empty());
    assert(is_digit(two[0]) && is_digit(two[1]));
    assert(signed_value(two) == Some((10 * tens + ones) as int));
    assert(!is_digit(signed[0]));
    assert(is_digit(seq![o][0]));
    assert(signed_value(signed) == Some(ones as int));
}

/// The second of a time is below sixty, and zero where its seventh and eighth byte are not a number
/// of their own: where it is not zero, the time has a part in just these two bytes, which stands for
/// the second.
pub proof fn law_second_is_named_by_the_time(time: Seq<char>)
    ensures
        0 <= second_of(time) < 60,
        second_of(time) != 0 ==> exists|x: Seq<char>, y: Seq<char>, z: Seq<char>|
            time == #[trigger] (x + y + z) && encode_utf8(x).len() == 6 && encode_utf8(y).len() == 2
                && signed_value(y) == Some(second_of(time)),
{
    law_part_by_its_bytes(time, Seq::empty(), Seq::empty(), 6, 8);
    if second_of(time) != 0 {
        let (x, y, z) = choose|x: Seq<char>, y: Seq<char>, z: Seq<char>|
            time == #[trigger] (x + y + z) && encode_utf8(x).len() == 6 && encode_utf8(y).len() == 2
                && byte_part(time, 6, 8) == Some(y);
        assert(time == x + y + z);
    }
}

proof fn lemma_member_fronts()
    ensures
        "{\"v-r\":"@ == seq!['{', '"'] + KEYS@[0]@ + "\":"@,
        ",\"v-b\":"@ == seq![',', '"'] + KEYS@[1]@ + "\":"@,
        ",\"v-swpd\":"@ == seq![',', '"'] + KEYS@[2]@ + "\":"@,
        ",\"v-free\":"@ == seq![',', '"'] + KEYS@[3]@ + "\":"@,
        ",\"v-buff\":"@ == seq![',', '"'] + KEYS@[4]@ + "\":"@,
        ",\"v-cache\":"@ == seq![',', '"'] + KEYS@[5]@ + "\":"@,
        ",\"v-si\":"@ == seq![',', '"'] + KEYS@[6]@ + "\":"@,
        ",\"v-so\":"@ == seq![',', '"'] + KEYS@[7]@ + "\":"@,
        ",\"v-bi\":"@ == seq![',', '"'] + KEYS@[8]@ + "\":"@,
        ",\"v-bo\":"@ == seq![',', '"'] + KEYS@[9]@ + "\":"@,
        ",\"v-in\":"@ == seq![',', '"'] + KEYS@[10]@ + "\":"@,
        ",\"v-cs\":"@ == seq![',', '"'] + KEYS@[11]@ + "\":"@,
        ",\"v-us\":"@ == seq![',', '"'] + KEYS@[12]@ + "\":"@,
        ",\"v-sy\":"@ == seq![',', '"'] + KEYS@[13]@ + "\":"@,
        ",\"v-id\":"@ == seq![',', '"'] + KEYS@[14]@ + "\":"@,
        ",\"v-wa\":"@ == seq![',', '"'] + KEYS@[15]@ + "\":"@,
        ",\"v-st\":"@ == seq![',', '"'] + KEYS@[16]@ + "\":"@,
        ",\"v-gu\":"@ == seq![',', '"'] + KEYS@[17]@ + "\":"@,
{
    reveal_strlit("\":");
    reveal_strlit("v-r");
    reveal_strlit("{\"v-r\":");
    reveal_strlit("v-b");
    reveal_strlit(",\"v-b\":");
    reveal_strlit("v-swpd");
    reveal_strlit(",\"v-swpd\":");
    reveal_strlit("v-free");
    reveal_strlit(",\"v-free\":");
    reveal_strlit("v-buff");
    reveal_strlit(",\"v-buff\":");
    reveal_strlit("v-cache");
    reveal_strlit(",\"v-cache\":");
    reveal_strlit("v-si");
    reveal_strlit(",\"v-si\":");
    reveal_strlit("v-so");
    reveal_strlit(",\"v-so\":");
    reveal_strlit("v-bi");
    reveal_strlit(",\"v-bi\":");
    reveal_strlit("v-bo");
    reveal_strlit(",\"v-bo\":");
    reveal_strlit("v-in");
    reveal_strlit(",\"v-in\":");
    reveal_strlit("v-cs");
    reveal_strlit(",\"v-cs\":");
    reveal_strlit("v-us");
    reveal_strlit(",\"v-us\":");
    reveal_strlit("v-sy");
    reveal_strlit(",\"v-sy\":");
    reveal_strlit("v-id");
    reveal_strlit(",\"v-id\":");
    reveal_strlit("v-wa");
    reveal_strlit(",\"v-wa\":");
    reveal_strlit("v-st");
    reveal_strlit(",\"v-st\":");
    reveal_strlit("v-gu");
    reveal_strlit(",\"v-gu\":");
    assert("{\"v-r\":"@ == seq!['{', '"'] + KEYS@[0]@ + "\":"@);
    assert(",\"v-b\":"@ == seq![',', '"'] + KEYS@[1]@ + "\":"@);
    assert(",\"v-swpd\":"@ == seq![',', '"'] + KEYS@[2]@ + "\":"@);
    assert(",\"v-free\":"@ == seq![',', '"'] + KEYS@[3]@ + "\":"@);
    assert(",\"v-buff\":"@ == seq![',', '"'] + KEYS@[4]@ + "\":"@);
    assert(",\"v-cache\":"@ == seq![',', '"'] + KEYS@[5]@ + "\":"@);
    assert(",\"v-si\":"@ == seq![',', '"'] + KEYS@[6]@ + "\":"@);
    assert(",\"v-so\":"@ == seq![',', '"'] + KEYS@[7]@ + "\":"@);
    assert(",\"v-bi\":"@ == seq![',', '"'] + KEYS@[8]@ + "\":"@);
    assert(",\"v-bo\":"@ == seq![',', '"'] + KEYS@[9]@ + "\":"@);
    assert(",\"v-in\":"@ == seq![',', '"'] + KEYS@[10]@ + "\":"@);
    assert(",\"v-cs\":"@ == seq![',', '"'] + KEYS@[11]@ + "\":"@);
    assert(",\"v-us\":"@ == seq![',', '"'] + KEYS@[12]@ + "\":"@);
    assert(",\"v-sy\":"@ == seq![',', '"'] + KEYS@[13]@ + "\":"@);
    assert(",\"v-id\":"@ == seq![',', '"'] + KEYS@[14]@ + "\":"@);
    assert(",\"v-wa\":"@ == seq![',', '"'] + KEYS@[15]@ + "\":"@);
    assert(",\"v-st\":"@ == seq![',', '"'] + KEYS@[16]@ + "\":"@);
    assert(",\"v-gu\":"@ == seq![',', '"'] + KEYS@[17]@ + "\":"@);
}

proof fn lemma_next_member(tokens: Seq<Seq<char>>, k: int, n: int)
    requires
        1 <= k < 18,
        tokens[k] == signed_decimal(n),
        i64::MIN <= n <= i64::MAX,
    ensures
        seq!['{'] + members(tokens, (k + 1) as nat) == seq!['{'] + members(tokens, k as nat) + (
        seq![',', '"'] + KEYS@[k]@ + "\":"@) + signed_decimal(n),
{
    law_decimal_reads_back(n);
    assert(number_in(tokens[k]) == n);
    let m = seq!['"'] + KEYS@[k]@ + "\":"@ + signed_decimal(n);
    assert(member(k, tokens[k]) == m);
    assert(seq![','] + m == (seq![',', '"'] + KEYS@[k]@ + "\":"@) + signed_decimal(n));
    assert(members(tokens, (k + 1) as nat) == members(tokens, k as nat) + (seq![','] + m));
    assert(seq!['{'] + (members(tokens, k as nat) + (seq![','] + m)) == seq!['{'] + members(
        tokens,
        k as nat,
    ) + (seq![',', '"'] + KEYS@[k]@ + "\":"@) + signed_decimal(n));
}

proof fn lemma_first_member(tokens: Seq<Seq<char>>, n: int)
    requires
        tokens[0] == signed_decimal(n),
        i64::MIN <= n <= i64::MAX,
    ensures
        seq!['{'] + members(tokens, 1) == (seq!['{', '"'] + KEYS@[0]@ + "\":"@) + signed_decimal(n),
{
    law_decimal_reads_back(n);
    assert(number_in(tokens[0]) == n);
    assert(seq!['{'] + members(tokens, 1) == (seq!['{', '"'] + KEYS@[0]@ + "\":"@)
        + signed_decimal(n));
}

/// The document of a row whose columns are the numbers `n`, written in decimal, is this text, to the
/// character.
pub proof fn law_document_of_numbers(tokens: Seq<Seq<char>>, n: Seq<int>)
    requires
        n.len() == 18,
        forall|i: int| 0 <= i < 18 ==> #[trigger] tokens[i] == signed_decimal(n[i]),
        forall|i: int|
            0 <= i < 18 ==> -0x8000_0000_0000_0000 <= #[trigger] n[i] <= 0x7fff_ffff_ffff_ffff,
    ensures
        document(tokens) == "{\"v-r\":"@ + signed_decimal(n[0])
            + ",\"v-b\":"@ + signed_decimal(n[1])
            + ",\"v-swpd\":"@ + signed_decimal(n[2])
            + ",\"v-free\":"@ + signed_decimal(n[3])
            + ",\"v-buff\":"@ + signed_decimal(n[4])
            + ",\"v-cache\":"@ + signed_decimal(n[5])
            + ",\"v-si\":"@ + signed_decimal(n[6])
            + ",\"v-so\":"@ + signed_decimal(n[7])
            + ",\"v-bi\":"@ + signed_decimal(n[8])
            + ",\"v-bo\":"@ + signed_decimal(n[9])
            + ",\"v-in\":"@ + signed_decimal(n[10])
            + ",\"v-cs\":"@ + signed_decimal(n[11])
            + ",\"v-us\":"@ + signed_decimal(n[12])
            + ",\"v-sy\":"@ + signed_decimal(n[13])
            + ",\"v-id\":"@ + signed_decimal(n[14])
            + ",\"v-wa\":"@ + signed_decimal(n[15])
            + ",\"v-st\":"@ + signed_decimal(n[16])
            + ",\"v-gu\":"@ + signed_decimal(n[17])
            + ",\"v-date\":\""@ + escaped(tokens[18]) + "\",\"v-time\":\""@ + escaped(tokens[19])
            + "\"}"@,
{
    lemma_member_fronts();
    assert(tokens[0] == signed_decimal(n[0]));
    lemma_first_member(tokens, n[0]);
    assert(tokens[1] == signed_decimal(n[1]));
    lemma_next_member(tokens, 1, n[1]);
    assert(tokens[2] == signed_decimal(n[2]));
    lemma_next_member(tokens, 2, n[2]);
    assert(tokens[3] == signed_decimal(n[3]));
    lemma_next_member(tokens, 3, n[3]);
    assert(tokens[4] == signed_decimal(n[4]));
    lemma_next_member(tokens, 4, n[4]);
    assert(tokens[5] == signed_decimal(n[5]));
    lemma_next_member(tokens, 5, n[5]);
    assert(tokens[6] == signed_decimal(n[6]));
    lemma_next_member(tokens, 6, n[6]);
    assert(tokens[7] == signed_decimal(n[7]));
    lemma_next_member(tokens, 7, n[7]);
    assert(tokens[8] == signed_decimal(n[8]));
    lemma_next_member(tokens, 8, n[8]);
    assert(tokens[9] == signed_decimal(n[9]));
    lemma_next_member(tokens, 9, n[9]);
    assert(tokens[10] == signed_decimal(n[10]));
    lemma_next_member(tokens, 10, n[10]);
    assert(tokens[11] == signed_decimal(n[11]));
    lemma_next_member(tokens, 11, n[11]);
    assert(tokens[12] == signed_decimal(n[12]));
    lemma_next_member(tokens, 12, n[12]);
    assert(tokens[13] == signed_decimal(n[13]));
    lemma_next_member(tokens, 13, n[13]);
    assert(tokens[14] == signed_decimal(n[14]));
    lemma_next_member(tokens, 14, n[14]);
    assert(tokens[15] == signed_decimal(n[15]));
    lemma_next_member(tokens, 15, n[15]);
    assert(tokens[16] == signed_decimal(n[16]));
    lemma_next_member(tokens, 16, n[16]);
    assert(tokens[17] == signed_decimal(n[17]));
    lemma_next_member(tokens, 17, n[17]);
}

} // verus!
