//! What the tools `hostname` and `nproc` say of the host.
use vstd::prelude::*;
use vstd::utf8::*;

use crate::encoding::{lossy, lossy_text, strict_text};
use crate::text::{
    chars_of, decimal, is_digit, is_space, law_no_number_in_text, law_numbers_in_text, law_trimmed,
    lemma_decimal, parse_u64, trim, trimmed, unsigned_value, within,
};

verus! {

/// The name of a host that could not be found out.
pub const UNKNOWN_HOST: &'static str = "unknown-host";

/// The number of processors where it could not be found out.
pub const DEFAULT_NPROC: u64 = 4;

/// The name in a text that `hostname` printed; `UNKNOWN_HOST` where it holds white space only.
pub open spec fn name_in(text: Seq<char>) -> Seq<char> {
    if trimmed(text).len() == 0 {
        UNKNOWN_HOST@
    } else {
        trimmed(text)
    }
}

/// The name in `text`.
pub fn name_from(text: &str) -> (r: String)
    ensures
        r@ == name_in(text@),
{
    let name = trim(text);
    if name.as_str().is_empty() {
        UNKNOWN_HOST.to_owned()
    } else {
        name
    }
}

/// The name of the host, as the recorder takes it from the output of its command. Bytes that are not
/// UTF-8 are replaced. `None` stands for a command that could not be run. From output that is UTF-8
/// and not blank, `get_hostname` takes the same name.
pub fn hostname(output: Option<&[u8]>) -> (r: String)
    ensures
        match output {
            Some(bytes) => r@ == name_in(lossy(bytes@)) && (valid_utf8(bytes@) ==> r@ == name_in(
                decode_utf8(bytes@),
            )),
            None => r@ == UNKNOWN_HOST@,
        },
{
    match output {
        Some(bytes) => name_from(lossy_text(bytes).as_str()),
        None => UNKNOWN_HOST.to_owned(),
    }
}

/// The name of the host, as the scorer takes it from the output of `hostname`: without white space
/// around it, and empty where there is nothing else. `None` where the output is not UTF-8.
pub fn get_hostname(stdout: Vec<u8>) -> (r: Option<String>)
    ensures
        match r {
            Some(s) => valid_utf8(stdout@) && s@ == trimmed(decode_utf8(stdout@)),
            None => !valid_utf8(stdout@),
        },
{
    match strict_text(stdout) {
        Some(s) => Some(trim(s.as_str())),
        None => None,
    }
}

/// The number of processors in a text that `nproc` printed; `DEFAULT_NPROC` where it holds no number.
pub open spec fn nproc_in(text: Seq<char>) -> u64 {
    match within(unsigned_value(trimmed(text)), 0, u64::MAX as int) {
        Some(n) => n as u64,
        None => DEFAULT_NPROC,
    }
}

/// The number of processors in `text`.
pub fn nproc_from(text: &str) -> (r: u64)
    ensures
        r == nproc_in(text@),
{
    match parse_u64(chars_of(trim(text).as_str()).as_slice()) {
        Some(n) => n,
        None => DEFAULT_NPROC,
    }
}

/// The number of processors, from the output of `nproc`. `None` stands for a command that could not
/// be run.
pub fn get_nproc(output: Option<&[u8]>) -> (r: u64)
    ensures
        match output {
            Some(bytes) => r == nproc_in(lossy(bytes@)) && (valid_utf8(bytes@) ==> r == nproc_in(
                decode_utf8(bytes@),
            )),
            None => r == DEFAULT_NPROC,
        },
{
    match output {
        Some(bytes) => nproc_from(lossy_text(bytes).as_str()),
        None => DEFAULT_NPROC,
    }
}

/// The name of a host is what stands between the white space around it, whole and unchanged; where
/// nothing stands there, the host is unknown.
pub proof fn law_name_between_white_space(front: Seq<char>, name: Seq<char>, back: Seq<char>)
    requires
        forall|i: int| 0 <= i < front.len() ==> is_space(#[trigger] front[i]),
        forall|i: int| 0 <= i < back.len() ==> is_space(#[trigger] back[i]),
        name.len() > 0 ==> !is_space(name[0]) && !is_space(name[name.len() - 1]),
    ensures
        name.len() > 0 ==> name_in(front + name + back) == name,
        name.len() == 0 ==> name_in(front + name + back) == "unknown-host"@,
{
    law_trimmed(front, name, back);
}

/// The number of processors is the number between the white space around it, with or without zeros or
/// a plus sign in front, where it fits 64 bits; otherwise it is four.
pub proof fn law_processors_between_white_space(
    front: Seq<char>,
    zeros: Seq<char>,
    n: nat,
    back: Seq<char>,
)
    requires
        forall|i: int| 0 <= i < front.len() ==> is_space(#[trigger] front[i]),
        forall|i: int| 0 <= i < back.len() ==> is_space(#[trigger] back[i]),
        forall|i: int| 0 <= i < zeros.len() ==> #[trigger] zeros[i] == '0',
    ensures
        nproc_in(front + (zeros + decimal(n)) + back) == (if n <= 0xffff_ffff_ffff_ffff {
            n as u64
        } else {
            4
        }),
        nproc_in(front + (seq!['+'] + (zeros + decimal(n))) + back) == (if n
            <= 0xffff_ffff_ffff_ffff {
            n as u64
        } else {
            4
        }),
        nproc_in(front + (seq!['-'] + (zeros + decimal(n))) + back) == 4,
{
    let d = zeros + decimal(n);
    lemma_decimal(n);
    assert forall|i: int| 0 <= i < d.len() implies '0' <= #[trigger] d[i] <= '9' by {
        if i >= zeros.len() {
            assert(is_digit(decimal(n)[i - zeros.len()]));
            assert(d[i] == decimal(n)[i - zeros.len()]);
        } else {
            assert(d[i] == zeros[i]);
        }
    }
    assert('0' <= d[0] <= '9');
    assert('0' <= d[d.len() - 1] <= '9');
    let plus = seq!['+'] + d;
    let minus = seq!['-'] + d;
    assert(plus[plus.len() - 1] == d[d.len() - 1]);
    assert(minus[minus.len() - 1] == d[d.len() - 1]);
    law_trimmed(front, d, back);
    law_trimmed(front, plus, back);
    law_trimmed(front, minus, back);
    law_numbers_in_text(zeros, n);
}

/// Where anything but digits behind at most one sign stands between the white space, there are four
/// processors.
pub proof fn law_processors_without_number(
    front: Seq<char>,
    text: Seq<char>,
    i: int,
    back: Seq<char>,
)
    requires
        forall|j: int| 0 <= j < front.len() ==> is_space(#[trigger] front[j]),
        forall|j: int| 0 <= j < back.len() ==> is_space(#[trigger] back[j]),
        text.len() > 0 ==> !is_space(text[0]) && !is_space(text[text.len() - 1]),
        text.len() == 0 || (text.len() == 1 && !('0' <= text[0] <= '9')) || (0 < i < text.len() && !(
        '0' <= text[i] <= '9')) || (i == 0 && text.len() > 0 && !('0' <= text[0] <= '9') && text[0]
            != '+' && text[0] != '-'),
    ensures
        nproc_in(front + text + back) == 4,
{
    law_trimmed(front, text, back);
    law_no_number_in_text(text, i);
}

} // verus!
