//! Characters, words and decimal numbers.
use vstd::arithmetic::div_mod::lemma_div_denominator;
use vstd::arithmetic::power::{lemma_pow0, lemma_pow1, lemma_pow_positive, pow};
use vstd::prelude::*;
use vstd::utf8::*;

verus! {

/// The characters that Unicode gives the property `White_Space`.
pub open spec fn is_space(c: char) -> bool {
    let n = c as u32;
    ||| 0x09 <= n <= 0x0d
    ||| n == 0x20
    ||| n == 0x85
    ||| n == 0xa0
    ||| n == 0x1680
    ||| 0x2000 <= n <= 0x200a
    ||| n == 0x2028
    ||| n == 0x2029
    ||| n == 0x202f
    ||| n == 0x205f
    ||| n == 0x3000
}

/// Whether `c` is white space.
pub fn is_white_space(c: char) -> (r: bool)
    ensures
        r == is_space(c),
{
    let n: u32 = c as u32;
    (0x09 <= n && n <= 0x0d) || n == 0x20 || n == 0x85 || n == 0xa0 || n == 0x1680 || (0x2000 <= n
        && n <= 0x200a) || n == 0x2028 || n == 0x2029 || n == 0x202f || n == 0x205f || n == 0x3000
}

/// `s` without the white space that it starts with.
pub open spec fn trim_front(s: Seq<char>) -> Seq<char>
    decreases s.len(),
{
    if s.len() > 0 && is_space(s[0]) {
        trim_front(s.skip(1))
    } else {
        s
    }
}

/// `s` without the white space that it ends with.
pub open spec fn trim_back(s: Seq<char>) -> Seq<char>
    decreases s.len(),
{
    if s.len() > 0 && is_space(s.last()) {
        trim_back(s.drop_last())
    } else {
        s
    }
}

/// `s` without white space at either end.
pub open spec fn trimmed(s: Seq<char>) -> Seq<char> {
    trim_back(trim_front(s))
}

/// How many characters `s` starts with that are not white space.
pub open spec fn word_len(s: Seq<char>) -> nat
    decreases s.len(),
{
    if s.len() > 0 && !is_space(s[0]) {
        1 + word_len(s.skip(1))
    } else {
        0
    }
}

/// The words of `s`: its longest runs of characters that are not white space, in order.
pub open spec fn words(s: Seq<char>) -> Seq<Seq<char>>
    decreases s.len(),
{
    if s.len() == 0 {
        Seq::empty()
    } else if is_space(s[0]) {
        words(s.skip(1))
    } else {
        proof {
            lemma_word_len(s);
        }
        seq![s.take(word_len(s) as int)] + words(s.skip(word_len(s) as int))
    }
}

/// The first word of a text ends within it, at the first white space or at the end.
pub proof fn lemma_word_len(s: Seq<char>)
    ensures
        word_len(s) <= s.len(),
        s.len() > 0 && !is_space(s[0]) ==> word_len(s) > 0,
        forall|i: int| 0 <= i < word_len(s) ==> !is_space(#[trigger] s[i]),
        word_len(s) < s.len() ==> is_space(s[word_len(s) as int]),
    decreases s.len(),
{
    if s.len() > 0 && !is_space(s[0]) {
        let t = s.skip(1);
        lemma_word_len(t);
        assert forall|i: int| 0 <= i < word_len(s) implies !is_space(#[trigger] s[i]) by {
            if i > 0 {
                assert(!is_space(t[i - 1]));
            }
        }
    }
}

/// Whether `c` is one of the ten ASCII digits.
pub open spec fn is_digit(c: char) -> bool {
    '0' <= c <= '9'
}

/// The number that a digit stands for.
pub open spec fn digit_value(c: char) -> int {
    c as int - '0' as int
}

/// Whether `s` is one digit or more, and nothing else.
pub open spec fn all_digits(s: Seq<char>) -> bool {
    s.len() > 0 && forall|i: int| 0 <= i < s.len() ==> is_digit(#[trigger] s[i])
}

/// The number that a run of digits stands for.
pub open spec fn digits_value(s: Seq<char>) -> int
    decreases s.len(),
{
    if s.len() == 0 {
        0
    } else {
        10 * digits_value(s.drop_last()) + digit_value(s.last())
    }
}

/// The number that `s` stands for, if it is digits behind at most one sign.
pub open spec fn signed_value(s: Seq<char>) -> Option<int> {
    if all_digits(s) {
        Some(digits_value(s))
    } else if s.len() > 0 && s[0] == '+' && all_digits(s.skip(1)) {
        Some(digits_value(s.skip(1)))
    } else if s.len() > 0 && s[0] == '-' && all_digits(s.skip(1)) {
        Some(-digits_value(s.skip(1)))
    } else {
        None
    }
}

/// The number that `s` stands for, if it is digits behind at most a plus sign.
pub open spec fn unsigned_value(s: Seq<char>) -> Option<int> {
    if s.len() > 0 && s[0] == '-' {
        None
    } else {
        signed_value(s)
    }
}

/// `n` where it lies between `min` and `max`.
pub open spec fn within(n: Option<int>, min: int, max: int) -> Option<int> {
    match n {
        Some(v) => if min <= v <= max {
            Some(v)
        } else {
            None
        },
        None => None,
    }
}

/// `n` in decimal, without leading zeros.
pub open spec fn decimal(n: nat) -> Seq<char>
    decreases n,
{
    if n < 10 {
        seq![('0' as int + n) as char]
    } else {
        decimal(n / 10).push(('0' as int + n % 10) as char)
    }
}

/// `n` in decimal, with a minus sign in front where it is negative.
pub open spec fn signed_decimal(n: int) -> Seq<char> {
    if n < 0 {
        seq!['-'] + decimal((-n) as nat)
    } else {
        decimal(n as nat)
    }
}

/// `String::push` puts one character behind those that the string holds.
pub assume_specification[ String::push ](s: &mut String, c: char)
    ensures
        final(s)@ == old(s)@.push(c),
;

/// `String::push_str` puts the characters of a text behind those that the string holds.
pub assume_specification[ String::push_str ](s: &mut String, t: &str)
    ensures
        final(s)@ == old(s)@ + t@,
;

/// The characters of `s`.
pub fn chars_of(s: &str) -> (r: Vec<char>)
    ensures
        r@ == s@,
{
    let mut r: Vec<char> = Vec::new();
    for c in it: s.chars()
        invariant
            it.seq() == s@,
            r@ == s@.take(it.index() as int),
    {
        r.push(c);
    }
    r
}

/// The text that consists of `chars`.
pub fn text_of(chars: &[char]) -> (r: String)
    ensures
        r@ == chars@,
{
    let mut r = String::new();
    let mut i: usize = 0;
    while i < chars.len()
        invariant
            i <= chars@.len(),
            r@ == chars@.take(i as int),
        decreases chars@.len() - i,
    {
        r.push(chars[i]);
        i += 1;
    }
    r
}

/// Trimming the front takes off white space up to the first other character.
pub proof fn lemma_trim_front(s: Seq<char>, n: int)
    requires
        0 <= n <= s.len(),
        forall|i: int| 0 <= i < n ==> is_space(#[trigger] s[i]),
        n < s.len() ==> !is_space(s[n]),
    ensures
        trim_front(s) == s.skip(n),
    decreases n,
{
    if n > 0 {
        let t = s.skip(1);
        assert forall|i: int| 0 <= i < n - 1 implies is_space(#[trigger] t[i]) by {
            assert(is_space(s[i + 1]));
        }
        assert(is_space(s[0]));
        lemma_trim_front(t, n - 1);
        assert(t.skip(n - 1) == s.skip(n));
    } else {
        assert(s.skip(0) == s);
    }
}

proof fn lemma_trim_back(s: Seq<char>, n: int)
    requires
        0 <= n <= s.len(),
        forall|i: int| n <= i < s.len() ==> is_space(#[trigger] s[i]),
        n > 0 ==> !is_space(s[n - 1]),
    ensures
        trim_back(s) == s.take(n),
    decreases s.len() - n,
{
    if n < s.len() {
        assert(is_space(s[s.len() - 1]));
        lemma_trim_back(s.drop_last(), n);
        assert(s.drop_last().take(n) == s.take(n));
    } else {
        assert(s.take(n) == s);
    }
}

/// `s` without white space at either end.
pub fn trim(s: &str) -> (r: String)
    ensures
        r@ == trimmed(s@),
{
    let chars = chars_of(s);
    let mut from: usize = 0;
    while from < chars.len() && is_white_space(chars[from])
        invariant
            from <= chars@.len(),
            forall|i: int| 0 <= i < from ==> is_space(#[trigger] chars@[i]),
        decreases chars@.len() - from,
    {
        from += 1;
    }
    let mut to: usize = chars.len();
    while to > from && is_white_space(chars[to - 1])
        invariant
            from <= to <= chars@.len(),
            forall|i: int| to <= i < chars@.len() ==> is_space(#[trigger] chars@[i]),
        decreases to,
    {
        to -= 1;
    }
    proof {
        lemma_trim_front(chars@, from as int);
        let t = chars@.skip(from as int);
        assert forall|i: int| to - from <= i < t.len() implies is_space(#[trigger] t[i]) by {
            assert(is_space(chars@[i + from]));
        }
        lemma_trim_back(t, to - from);
        assert(t.take(to - from) == chars@.subrange(from as int, to as int));
    }
    text_of(vstd::slice::slice_subrange(chars.as_slice(), from, to))
}

/// The words that the vectors hold.
pub open spec fn word_views(v: Seq<Vec<char>>) -> Seq<Seq<char>> {
    v.map_values(|w: Vec<char>| w@)
}

/// The words of `chars`.
pub fn split_words(chars: &[char]) -> (r: Vec<Vec<char>>)
    ensures
        word_views(r@) == words(chars@),
{
    let mut out: Vec<Vec<char>> = Vec::new();
    let mut i: usize = 0;
    proof {
        assert(chars@.skip(0) == chars@);
        assert(word_views(out@) + words(chars@) == words(chars@));
    }
    while i < chars.len()
        invariant
            i <= chars@.len(),
            word_views(out@) + words(chars@.skip(i as int)) == words(chars@),
        decreases chars@.len() - i,
    {
        let ghost rest = chars@.skip(i as int);
        if is_white_space(chars[i]) {
            proof {
                assert(rest.skip(1) == chars@.skip(i + 1));
            }
            i += 1;
        } else {
            let start: usize = i;
            let mut word: Vec<char> = Vec::new();
            proof {
                lemma_word_len(rest);
            }
            while i < chars.len() && !is_white_space(chars[i])
                invariant
                    start <= i <= chars@.len(),
                    rest == chars@.skip(start as int),
                    word@ == rest.take(i - start),
                    i - start <= word_len(rest) <= rest.len(),
                    word_len(rest) < rest.len() ==> is_space(rest[word_len(rest) as int]),
                    forall|k: int| 0 <= k < word_len(rest) ==> !is_space(#[trigger] rest[k]),
                decreases chars@.len() - i,
            {
                assert(rest[i - start] == chars@[i as int]);
                word.push(chars[i]);
                i += 1;
            }
            proof {
                let n = word_len(rest) as int;
                if i - start < n {
                    assert(!is_space(rest[i - start]));
                }
                assert(i - start == n);
                assert(rest.skip(n) == chars@.skip(i as int));
                assert(words(rest) == seq![word@] + words(rest.skip(n)));
            }
            let ghost before = out@;
            out.push(word);
            proof {
                assert(word_views(out@) == word_views(before).push(word@));
                assert(word_views(out@) + words(chars@.skip(i as int)) == word_views(before)
                    + words(rest));
            }
        }
    }
    proof {
        assert(word_views(out@) + words(chars@.skip(i as int)) == word_views(out@));
    }
    out
}

proof fn lemma_digits_value_grows(s: Seq<char>, n: int)
    requires
        0 <= n <= s.len(),
        forall|i: int| 0 <= i < s.len() ==> is_digit(#[trigger] s[i]),
    ensures
        0 <= digits_value(s.take(n)) <= digits_value(s),
    decreases s.len(),
{
    if s.len() == 0 {
        assert(s.take(n) == s);
    } else if n == s.len() {
        assert(s.take(n) == s);
        lemma_digits_value_grows(s.drop_last(), n - 1);
        assert(is_digit(s[s.len() - 1]));
    } else {
        lemma_digits_value_grows(s.drop_last(), n);
        assert(s.drop_last().take(n) == s.take(n));
        assert(is_digit(s[s.len() - 1]));
    }
}

/// The largest number that is told apart from those that no 64-bit integer can hold.
pub const MAGNITUDE_LIMIT: u128 = 18446744073709551615;

/// The number that the characters from `from` on stand for, if they are digits and the number is
/// no larger than `MAGNITUDE_LIMIT`.
fn magnitude(s: &[char], from: usize) -> (r: Option<u128>)
    requires
        from <= s@.len(),
    ensures
        match r {
            Some(m) => all_digits(s@.skip(from as int)) && m == digits_value(s@.skip(from as int))
                && m <= MAGNITUDE_LIMIT,
            None => !(all_digits(s@.skip(from as int)) && digits_value(s@.skip(from as int))
                <= MAGNITUDE_LIMIT),
        },
{
    let ghost t = s@.skip(from as int);
    if from == s.len() {
        return None;
    }
    let mut m: u128 = 0;
    let mut i: usize = from;
    while i < s.len()
        invariant
            from <= i <= s@.len(),
            from < s@.len(),
            t == s@.skip(from as int),
            m == digits_value(t.take(i - from)),
            m <= MAGNITUDE_LIMIT,
            forall|k: int| 0 <= k < i - from ==> is_digit(#[trigger] t[k]),
        decreases s@.len() - i,
    {
        let c = s[i];
        proof {
            assert(t[i - from] == s@[i as int]);
            assert(t.take(i - from + 1).drop_last() == t.take(i - from));
        }
        if c < '0' || c > '9' {
            return None;
        }
        m = m * 10 + (c as u32 - '0' as u32) as u128;
        i += 1;
        if m > MAGNITUDE_LIMIT {
            proof {
                if all_digits(t) {
                    lemma_digits_value_grows(t, i - from);
                }
            }
            return None;
        }
    }
    proof {
        assert(t.take(i - from) == t);
    }
    Some(m)
}

/// The number that `s` stands for, if it is digits behind at most one sign and lies between `min`
/// and `max`.
fn parse_between(s: &[char], min: i128, max: i128) -> (r: Option<i128>)
    requires
        -MAGNITUDE_LIMIT <= min,
        max <= MAGNITUDE_LIMIT,
    ensures
        match r {
            Some(n) => within(signed_value(s@), min as int, max as int) == Some(n as int),
            None => within(signed_value(s@), min as int, max as int) is None,
        },
{
    if s.len() == 0 {
        return None;
    }
    proof {
        assert(s@.skip(0) == s@);
        if all_digits(s@) {
            assert(is_digit(s@[0]));
            lemma_digits_value_grows(s@, 0);
        }
        if all_digits(s@.skip(1)) {
            lemma_digits_value_grows(s@.skip(1), 0);
        }
    }
    let first = s[0];
    let found = if first == '+' || first == '-' {
        magnitude(s, 1)
    } else {
        magnitude(s, 0)
    };
    match found {
        None => None,
        Some(m) => {
            let n: i128 = if first == '-' {
                -(m as i128)
            } else {
                m as i128
            };
            if min <= n && n <= max {
                Some(n)
            } else {
                None
            }
        },
    }
}

/// The `i64` that `s` stands for.
pub fn parse_i64(s: &[char]) -> (r: Option<i64>)
    ensures
        match r {
            Some(n) => within(signed_value(s@), i64::MIN as int, i64::MAX as int) == Some(n as int),
            None => within(signed_value(s@), i64::MIN as int, i64::MAX as int) is None,
        },
{
    match parse_between(s, i64::MIN as i128, i64::MAX as i128) {
        Some(n) => Some(n as i64),
        None => None,
    }
}

/// The `isize` that `s` stands for.
pub fn parse_isize(s: &[char]) -> (r: Option<isize>)
    ensures
        match r {
            Some(n) => within(signed_value(s@), isize::MIN as int, isize::MAX as int) == Some(
                n as int,
            ),
            None => within(signed_value(s@), isize::MIN as int, isize::MAX as int) is None,
        },
{
    match parse_between(s, isize::MIN as i128, isize::MAX as i128) {
        Some(n) => Some(n as isize),
        None => None,
    }
}

/// The `u64` that `s` stands for. A minus sign is refused, in front of zeros too.
pub fn parse_u64(s: &[char]) -> (r: Option<u64>)
    ensures
        match r {
            Some(n) => within(unsigned_value(s@), 0, u64::MAX as int) == Some(n as int),
            None => within(unsigned_value(s@), 0, u64::MAX as int) is None,
        },
{
    if s.len() > 0 && s[0] == '-' {
        return None;
    }
    match parse_between(s, 0, u64::MAX as i128) {
        Some(n) => Some(n as u64),
        None => None,
    }
}

/// The characters of `s`, which are ASCII, as bytes.
pub open spec fn ascii_bytes(s: Seq<char>) -> Seq<u8> {
    s.map_values(|c: char| c as u8)
}

/// The bytes of `b` as the characters of the same number.
pub open spec fn ascii_chars(b: Seq<u8>) -> Seq<char> {
    b.map_values(|x: u8| x as char)
}

/// Puts `n` in decimal behind what `out` holds.
fn push_magnitude(out: &mut String, n: u64)
    ensures
        final(out)@ == old(out)@ + decimal(n as nat),
    decreases n,
{
    if n >= 10 {
        push_magnitude(out, n / 10);
    }
    out.push((48u8 + (n % 10) as u8) as char);
    proof {
        assert(out@ == old(out)@ + decimal(n as nat));
    }
}

/// Puts `n` in decimal behind what `out` holds, with a minus sign where it is negative.
pub fn push_decimal(out: &mut String, n: i64)
    ensures
        final(out)@ == old(out)@ + signed_decimal(n as int),
{
    if n < 0 {
        out.push('-');
        let m: u64 = (-(n as i128)) as u64;
        push_magnitude(out, m);
        proof {
            assert(out@ == old(out)@ + signed_decimal(n as int));
        }
    } else {
        push_magnitude(out, n as u64);
    }
}

/// Puts `n` in decimal, as ASCII, behind what `out` holds.
pub fn push_decimal_bytes(out: &mut Vec<u8>, n: usize)
    ensures
        final(out)@ == old(out)@ + ascii_bytes(decimal(n as nat)),
    decreases n,
{
    if n >= 10 {
        push_decimal_bytes(out, n / 10);
    }
    out.push(48u8 + (n % 10) as u8);
    proof {
        let d = decimal(n as nat);
        if n >= 10 {
            assert(ascii_bytes(d) == ascii_bytes(d.drop_last()).push(d.last() as u8));
            assert(d.drop_last() == decimal(n as nat / 10));
        }
        assert(out@ == old(out)@ + ascii_bytes(d));
    }
}

/// The bytes as the characters of the same number.
pub fn chars_of_bytes(b: &[u8]) -> (r: Vec<char>)
    ensures
        r@ == ascii_chars(b@),
{
    let mut r: Vec<char> = Vec::new();
    let mut i: usize = 0;
    while i < b.len()
        invariant
            i <= b@.len(),
            r@ == ascii_chars(b@).take(i as int),
        decreases b@.len() - i,
    {
        r.push(b[i] as char);
        i += 1;
    }
    r
}

/// Decimal digits stand for the number that they were written for.
pub proof fn lemma_decimal(n: nat)
    ensures
        all_digits(decimal(n)),
        digits_value(decimal(n)) == n,
    decreases n,
{
    if n < 10 {
        reveal_with_fuel(digits_value, 2);
        assert(decimal(n).drop_last() == Seq::<char>::empty());
    } else {
        lemma_decimal(n / 10);
        assert(decimal(n).drop_last() == decimal(n / 10));
    }
}

/// What is written for a number stands for that number.
pub proof fn law_decimal_reads_back(n: int)
    ensures
        signed_value(signed_decimal(n)) == Some(n),
{
    if n < 0 {
        lemma_decimal((-n) as nat);
        assert(signed_decimal(n).skip(1) == decimal((-n) as nat));
        assert(!is_digit(signed_decimal(n)[0]));
    } else {
        lemma_decimal(n as nat);
    }
}

/// The number of bytes that `s` takes in UTF-8.
pub open spec fn byte_len(s: Seq<char>) -> nat {
    encode_utf8(s).len()
}

/// Whether the characters from `a` up to `b` take the bytes from `from` up to `to` of `s`.
pub open spec fn takes_bytes(s: Seq<char>, from: int, to: int, a: int, b: int) -> bool {
    &&& 0 <= a <= b <= s.len()
    &&& byte_len(s.take(a)) == from
    &&& byte_len(s.take(b)) == to
}

/// The characters that take the bytes from `from` up to `to` of `s` in UTF-8, if there are such.
pub open spec fn byte_part(s: Seq<char>, from: int, to: int) -> Option<Seq<char>> {
    if exists|a: int, b: int| takes_bytes(s, from, to, a, b) {
        let (a, b) = choose|a: int, b: int| takes_bytes(s, from, to, a, b);
        Some(s.subrange(a, b))
    } else {
        None
    }
}

/// The number of bytes that `c` takes in UTF-8.
fn char_width(c: char) -> (r: usize)
    ensures
        r == encode_scalar(c as u32).len(),
        1 <= r <= 4,
{
    let n: u32 = c as u32;
    if n < 0x80 {
        1
    } else if n < 0x800 {
        2
    } else if n < 0x10000 {
        3
    } else {
        4
    }
}

proof fn lemma_byte_len_push(s: Seq<char>, c: char)
    ensures
        byte_len(s.push(c)) == byte_len(s) + encode_scalar(c as u32).len(),
    decreases s.len(),
{
    reveal_with_fuel(encode_utf8, 2);
    if s.len() == 0 {
        assert(s.push(c).drop_first() == Seq::<char>::empty());
    } else {
        lemma_byte_len_push(s.drop_first(), c);
        assert(s.push(c).drop_first() == s.drop_first().push(c));
    }
}

proof fn lemma_byte_len_grows(s: Seq<char>, a: int, b: int)
    requires
        0 <= a < b <= s.len(),
    ensures
        byte_len(s.take(a)) < byte_len(s.take(b)),
    decreases b - a,
{
    lemma_byte_len_push(s.take(b - 1), s[b - 1]);
    assert(s.take(b - 1).push(s[b - 1]) == s.take(b));
    if a < b - 1 {
        lemma_byte_len_grows(s, a, b - 1);
    }
}

/// The number of characters that take the first `at` bytes of `s`, if there is such a number.
fn char_index(s: &[char], at: usize) -> (r: Option<usize>)
    ensures
        match r {
            Some(k) => k <= s@.len() && byte_len(s@.take(k as int)) == at,
            None => forall|k: int|
                0 <= k <= s@.len() ==> byte_len(#[trigger] s@.take(k)) != at,
        },
{
    let mut k: usize = 0;
    let mut len: usize = 0;
    proof {
        assert(s@.take(0) == Seq::<char>::empty());
    }
    while len < at
        invariant
            k <= s@.len(),
            len == byte_len(s@.take(k as int)),
            len <= at,
        decreases at - len,
    {
        let ghost before = k as int;
        if k == s.len() {
            proof {
                assert forall|j: int| 0 <= j <= s@.len() implies byte_len(#[trigger] s@.take(j))
                    != at by {
                    if j < k {
                        lemma_byte_len_grows(s@, j, k as int);
                    }
                }
            }
            return None;
        }
        let w: usize = char_width(s[k]);
        proof {
            lemma_byte_len_push(s@.take(before), s@[before]);
            assert(s@.take(before).push(s@[before]) == s@.take(before + 1));
        }
        if at - len < w {
            proof {
                assert forall|j: int| 0 <= j <= s@.len() implies byte_len(#[trigger] s@.take(j))
                    != at by {
                    if j < before {
                        lemma_byte_len_grows(s@, j, before);
                    }
                    if j > before + 1 {
                        lemma_byte_len_grows(s@, before + 1, j);
                    }
                }
            }
            return None;
        }
        len += w;
        k += 1;
    }
    Some(k)
}

/// The characters that take the bytes from `from` up to `to` of `s` in UTF-8, if there are such.
pub fn bytes_between(s: &[char], from: usize, to: usize) -> (r: Option<Vec<char>>)
    ensures
        match r {
            Some(v) => byte_part(s@, from as int, to as int) == Some(v@),
            None => byte_part(s@, from as int, to as int) is None,
        },
{
    let a = char_index(s, from);
    let b = char_index(s, to);
    match (a, b) {
        (Some(a), Some(b)) if from <= to => {
            proof {
                if b < a {
                    lemma_byte_len_grows(s@, b as int, a as int);
                }
                assert(takes_bytes(s@, from as int, to as int, a as int, b as int));
                assert forall|x: int, y: int| takes_bytes(s@, from as int, to as int, x, y) implies x
                    == a && y == b by {
                    if x < a {
                        lemma_byte_len_grows(s@, x, a as int);
                    }
                    if x > a {
                        lemma_byte_len_grows(s@, a as int, x);
                    }
                    if y < b {
                        lemma_byte_len_grows(s@, y, b as int);
                    }
                    if y > b {
                        lemma_byte_len_grows(s@, b as int, y);
                    }
                }
            }
            Some(vstd::slice::slice_to_vec(vstd::slice::slice_subrange(s, a, b)))
        },
        _ => {
            proof {
                assert forall|x: int, y: int| !takes_bytes(s@, from as int, to as int, x, y) by {
                    if takes_bytes(s@, from as int, to as int, x, y) {
                        assert(byte_len(s@.take(x)) == from);
                        assert(byte_len(s@.take(y)) == to);
                        if x < y {
                            lemma_byte_len_grows(s@, x, y);
                        }
                    }
                }
            }
            None
        },
    }
}

/// Whether two texts hold the same characters.
pub fn same_text(a: &str, b: &str) -> (r: bool)
    ensures
        r == (a@ == b@),
{
    let x = chars_of(a);
    let y = chars_of(b);
    if x.len() != y.len() {
        return false;
    }
    let mut i: usize = 0;
    while i < x.len()
        invariant
            i <= x@.len(),
            x@.len() == y@.len(),
            x@ == a@,
            y@ == b@,
            forall|k: int| 0 <= k < i ==> #[trigger] x@[k] == y@[k],
        decreases x@.len() - i,
    {
        if x[i] != y[i] {
            return false;
        }
        i += 1;
    }
    proof {
        assert(x@ == y@);
    }
    true
}

/// The digit of the place `10^i` of a number, counted from the end of what is written for it, and no
/// zero in front: a number that is written in `k` digits lies between `10^(k - 1)` and `10^k`.
pub proof fn law_decimal_places(n: nat, i: nat)
    ensures
        i < decimal(n).len() ==> decimal(n)[decimal(n).len() - 1 - i] as int == 48 + (n / pow(
            10,
            i,
        ) as nat) % 10,
        n < pow(10, decimal(n).len()),
        n > 0 ==> pow(10, (decimal(n).len() - 1) as nat) <= n,
        n == 0 ==> decimal(n).len() == 1,
    decreases n,
{
    lemma_pow0(10);
    lemma_pow1(10);
    lemma_pow_positive(10, i);
    let len = decimal(n).len();
    if n >= 10 {
        let q = n / 10;
        law_decimal_places(q, (if i > 0 { i - 1 } else { 0 }) as nat);
        reveal(pow);
        assert(pow(10, len) == 10 * pow(10, (len - 1) as nat));
        assert(pow(10, (len - 1) as nat) == 10 * pow(10, (len - 2) as nat));
        if i > 0 {
            let p = pow(10, (i - 1) as nat);
            lemma_pow_positive(10, (i - 1) as nat);
            assert(pow(10, i) == 10 * p);
            lemma_div_denominator(n as int, 10, p);
            if i < len {
                assert(decimal(n)[len - 1 - i] == decimal(q)[decimal(q).len() - 1 - (i - 1)]);
            }
        }
    } else {
        assert(n / 1 == n);
    }
}

proof fn lemma_zeros_in_front(zeros: Seq<char>, d: Seq<char>)
    requires
        forall|i: int| 0 <= i < zeros.len() ==> #[trigger] zeros[i] == '0',
    ensures
        digits_value(zeros + d) == digits_value(d),
    decreases zeros.len() + d.len(),
{
    let t = zeros + d;
    if d.len() > 0 {
        assert(t.drop_last() == zeros + d.drop_last());
        lemma_zeros_in_front(zeros, d.drop_last());
    } else if zeros.len() > 0 {
        assert(t.drop_last() == zeros.drop_last() + d);
        assert(t.last() == zeros[zeros.len() - 1]);
        lemma_zeros_in_front(zeros.drop_last(), d);
    }
}

/// The digits of a number stand for it, with any number of zeros in front; a plus sign in front
/// changes nothing, and a minus sign stands for the number below zero, which no unsigned number is.
pub proof fn law_numbers_in_text(zeros: Seq<char>, n: nat)
    requires
        forall|i: int| 0 <= i < zeros.len() ==> #[trigger] zeros[i] == '0',
    ensures
        signed_value(zeros + decimal(n)) == Some(n as int),
        signed_value(seq!['+'] + (zeros + decimal(n))) == Some(n as int),
        signed_value(seq!['-'] + (zeros + decimal(n))) == Some(-n),
        unsigned_value(zeros + decimal(n)) == Some(n as int),
        unsigned_value(seq!['+'] + (zeros + decimal(n))) == Some(n as int),
        unsigned_value(seq!['-'] + (zeros + decimal(n))) is None,
{
    let d = zeros + decimal(n);
    lemma_decimal(n);
    lemma_zeros_in_front(zeros, decimal(n));
    assert forall|i: int| 0 <= i < d.len() implies is_digit(#[trigger] d[i]) by {
        if i >= zeros.len() {
            assert(d[i] == decimal(n)[i - zeros.len()]);
        }
    }
    assert(is_digit(d[0]));
    assert((seq!['+'] + d).skip(1) == d);
    assert((seq!['-'] + d).skip(1) == d);
    assert(!is_digit((seq!['+'] + d)[0]));
    assert(!is_digit((seq!['-'] + d)[0]));
}

/// What is not digits behind at most one sign stands for no number: a text with any other character
/// at place `i`, a sign behind the first place, nothing, or a sign alone.
pub proof fn law_no_number_in_text(s: Seq<char>, i: int)
    requires
        s.len() == 0 || (s.len() == 1 && !('0' <= s[0] <= '9')) || (0 < i < s.len() && !('0' <= s[i]
            <= '9')) || (i == 0 && s.len() > 0 && !('0' <= s[0] <= '9') && s[0] != '+' && s[0]
            != '-'),
    ensures
        signed_value(s) is None,
        unsigned_value(s) is None,
{
    if s.len() > 0 {
        let t = s.skip(1);
        if 0 < i < s.len() {
            assert(s[i] == t[i - 1]);
            assert(all_digits(t) ==> is_digit(t[i - 1]));
            assert(all_digits(s) ==> is_digit(s[i]));
        }
        assert(all_digits(s) ==> is_digit(s[0]));
    }
}

/// Trimming takes off the white space at both ends, all of it and nothing else.
pub proof fn law_trimmed(front: Seq<char>, s: Seq<char>, back: Seq<char>)
    requires
        forall|i: int| 0 <= i < front.len() ==> is_space(#[trigger] front[i]),
        forall|i: int| 0 <= i < back.len() ==> is_space(#[trigger] back[i]),
        s.len() > 0 ==> !is_space(s[0]) && !is_space(s[s.len() - 1]),
    ensures
        trimmed(front + s + back) == s,
{
    let t = front + s + back;
    if s.len() > 0 {
        assert forall|i: int| 0 <= i < front.len() implies is_space(#[trigger] t[i]) by {
            assert(t[i] == front[i]);
        }
        assert(t[front.len() as int] == s[0]);
        lemma_trim_front(t, front.len() as int);
        let u = s + back;
        assert(t.skip(front.len() as int) == u);
        assert forall|i: int| s.len() <= i < u.len() implies is_space(#[trigger] u[i]) by {
            assert(u[i] == back[i - s.len()]);
        }
        lemma_trim_back(u, s.len() as int);
        assert(u.take(s.len() as int) == s);
    } else {
        assert forall|i: int| 0 <= i < t.len() implies is_space(#[trigger] t[i]) by {
            if i < front.len() {
                assert(t[i] == front[i]);
            } else {
                assert(t[i] == back[i - front.len()]);
            }
        }
        lemma_trim_front(t, t.len() as int);
        assert(t.skip(t.len() as int) == s);
        assert(trim_back(s) == s);
    }
}

/// Words with gaps between them, in front of them and behind them; there is one gap more than there
/// are words.
pub open spec fn line_of(list: Seq<Seq<char>>, gaps: Seq<Seq<char>>) -> Seq<char>
    decreases list.len(),
{
    if list.len() == 0 {
        gaps[0]
    } else {
        gaps[0] + list[0] + line_of(list.skip(1), gaps.skip(1))
    }
}

proof fn lemma_words_behind_gap(gap: Seq<char>, rest: Seq<char>)
    requires
        forall|i: int| 0 <= i < gap.len() ==> is_space(#[trigger] gap[i]),
    ensures
        words(gap + rest) == words(rest),
    decreases gap.len(),
{
    let t = gap + rest;
    if gap.len() > 0 {
        assert(is_space(gap[0]));
        assert(t[0] == gap[0]);
        assert(t.skip(1) == gap.skip(1) + rest);
        assert forall|i: int| 0 <= i < gap.skip(1).len() implies is_space(#[trigger] gap.skip(1)[i]) by {
            assert(is_space(gap[i + 1]));
        }
        lemma_words_behind_gap(gap.skip(1), rest);
    } else {
        assert(t == rest);
    }
}

proof fn lemma_words_in_front(word: Seq<char>, rest: Seq<char>)
    requires
        word.len() > 0,
        forall|i: int| 0 <= i < word.len() ==> !is_space(#[trigger] word[i]),
        rest.len() > 0 ==> is_space(rest[0]),
    ensures
        words(word + rest) == seq![word] + words(rest),
{
    let t = word + rest;
    lemma_word_len(t);
    assert(t[0] == word[0]);
    let n = word_len(t) as int;
    if n < word.len() {
        assert(t[n] == word[n]);
    }
    if n > word.len() {
        assert(t[word.len() as int] == rest[0]);
    }
    assert(n == word.len());
    assert(t.take(n) == word);
    assert(t.skip(n) == rest);
}

/// The words of a line are the runs of characters that are not white space, each of them whole and
/// in order, whatever white space stands between them, in front of them and behind them.
pub proof fn law_words_of_a_line(list: Seq<Seq<char>>, gaps: Seq<Seq<char>>)
    requires
        gaps.len() == list.len() + 1,
        forall|i: int, j: int|
            0 <= i < gaps.len() && 0 <= j < gaps[i].len() ==> is_space(#[trigger] gaps[i][j]),
        forall|i: int| 0 < i < list.len() ==> (#[trigger] gaps[i]).len() > 0,
        forall|i: int| 0 <= i < list.len() ==> (#[trigger] list[i]).len() > 0,
        forall|i: int, j: int|
            0 <= i < list.len() && 0 <= j < list[i].len() ==> !is_space(#[trigger] list[i][j]),
    ensures
        words(line_of(list, gaps)) == list,
    decreases list.len(),
{
    let gap = gaps[0];
    assert forall|j: int| 0 <= j < gap.len() implies is_space(#[trigger] gap[j]) by {
        assert(is_space(gaps[0][j]));
    }
    if list.len() == 0 {
        lemma_words_behind_gap(gap, Seq::empty());
        assert(gap + Seq::<char>::empty() == gap);
        assert(list == Seq::<Seq<char>>::empty());
    } else {
        let others = list.skip(1);
        let behind = gaps.skip(1);
        let rest = line_of(others, behind);
        assert forall|i: int, j: int| 0 <= i < behind.len() && 0 <= j < behind[i].len() implies is_space(
            #[trigger] behind[i][j],
        ) by {
            assert(is_space(gaps[i + 1][j]));
        }
        assert forall|i: int| 0 < i < others.len() implies (#[trigger] behind[i]).len() > 0 by {
            assert(gaps[i + 1].len() > 0);
        }
        assert forall|i: int| 0 <= i < others.len() implies (#[trigger] others[i]).len() > 0 by {
            assert(list[i + 1].len() > 0);
        }
        assert forall|i: int, j: int| 0 <= i < others.len() && 0 <= j < others[i].len() implies !is_space(
            #[trigger] others[i][j],
        ) by {
            assert(!is_space(list[i + 1][j]));
        }
        law_words_of_a_line(others, behind);
        assert(behind[0] == gaps[1]);
        if rest.len() > 0 {
            if others.len() > 0 {
                assert(gaps[1].len() > 0);
                assert(rest[0] == behind[0][0]);
            }
            assert(is_space(behind[0][0]));
        }
        let word = list[0];
        assert(word.len() > 0);
        assert forall|j: int| 0 <= j < word.len() implies !is_space(#[trigger] word[j]) by {
            assert(!is_space(list[0][j]));
        }
        lemma_words_in_front(word, rest);
        lemma_words_behind_gap(gap, word + rest);
        assert(gap + word + rest == gap + (word + rest));
        assert(seq![word] + others == list);
    }
}

proof fn lemma_byte_len_of_parts(a: Seq<char>, b: Seq<char>)
    ensures
        byte_len(a + b) == byte_len(a) + byte_len(b),
    decreases b.len(),
{
    if b.len() == 0 {
        assert(a + b == a);
        assert(byte_len(b) == 0);
    } else {
        lemma_byte_len_of_parts(a, b.drop_last());
        lemma_byte_len_push(a + b.drop_last(), b.last());
        lemma_byte_len_push(b.drop_last(), b.last());
        assert((a + b.drop_last()).push(b.last()) == a + b);
        assert(b.drop_last().push(b.last()) == b);
    }
}

proof fn lemma_byte_place(s: Seq<char>, a: int, b: int)
    requires
        0 <= a <= s.len(),
        0 <= b <= s.len(),
        byte_len(s.take(a)) == byte_len(s.take(b)),
    ensures
        a == b,
{
    if a < b {
        lemma_byte_len_grows(s, a, b);
    }
    if b < a {
        lemma_byte_len_grows(s, b, a);
    }
}

/// The bytes of a part of a text, found by where they start and end in UTF-8, are that part; and
/// whatever is found by its bytes is such a part.
pub proof fn law_part_by_its_bytes(a: Seq<char>, b: Seq<char>, c: Seq<char>, from: int, to: int)
    ensures
        byte_part(
            a + b + c,
            encode_utf8(a).len() as int,
            (encode_utf8(a).len() + encode_utf8(b).len()) as int,
        ) == Some(b),
        byte_part(a, from, to) is Some ==> exists|x: Seq<char>, y: Seq<char>, z: Seq<char>|
            a == #[trigger] (x + y + z) && encode_utf8(x).len() == from && encode_utf8(y).len()
                == to - from && byte_part(a, from, to) == Some(y),
{
    let s = a + b + c;
    let p = encode_utf8(a).len() as int;
    let q = (encode_utf8(a).len() + encode_utf8(b).len()) as int;
    let i = a.len() as int;
    let j = i + b.len();
    assert(s.take(i) == a);
    assert(s.take(j) == a + b);
    lemma_byte_len_of_parts(a, b);
    assert(takes_bytes(s, p, q, i, j));
    let (k, l) = choose|k: int, l: int| takes_bytes(s, p, q, k, l);
    lemma_byte_place(s, i, k);
    lemma_byte_place(s, j, l);
    assert(s.subrange(i, j) == b);
    if byte_part(a, from, to) is Some {
        let (k, l) = choose|k: int, l: int| takes_bytes(a, from, to, k, l);
        assert(takes_bytes(a, from, to, k, l));
        let x = a.take(k);
        let y = a.subrange(k, l);
        let z = a.skip(l);
        assert(a.take(l) == x + y);
        lemma_byte_len_of_parts(x, y);
        assert(a == x + y + z);
    }
}

/// ASCII text and its bytes are the same numbers, character for character.
pub proof fn law_ascii_by_number(s: Seq<char>, b: Seq<u8>, i: int)
    ensures
        ascii_bytes(s).len() == s.len(),
        ascii_chars(b).len() == b.len(),
        0 <= i < s.len() && '\u{0}' <= s[i] <= '\u{7f}' ==> ascii_bytes(s)[i] as int == s[i] as int,
        0 <= i < b.len() ==> ascii_chars(b)[i] as int == b[i] as int,
{
    if 0 <= i < s.len() && '\u{0}' <= s[i] <= '\u{7f}' {
        assert(ascii_bytes(s)[i] == s[i] as u8);
    }
}

} // verus!
