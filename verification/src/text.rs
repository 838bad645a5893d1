//! Small text operations with exact contracts.

use vstd::prelude::*;
use vstd::string::StringExecFns;
use vstd::utf8::{encode_utf8, encode_utf8_decode_utf8};

verus! {

/// Whether two texts hold the same characters.
pub fn same_text(a: &str, b: &str) -> (same: bool)
    ensures
        same == (a@ == b@),
{
    let left: &[u8] = a.as_bytes();
    let right: &[u8] = b.as_bytes();
    proof {
        encode_utf8_decode_utf8(a@);
        encode_utf8_decode_utf8(b@);
    }
    if left.len() != right.len() {
        return false;
    }
    let mut at: usize = 0;
    while at < left.len()
        invariant
            at <= left@.len(),
            left@.len() == right@.len(),
            left@ == encode_utf8(a@),
            right@ == encode_utf8(b@),
            forall|i: int| 0 <= i < at ==> left@[i] == right@[i],
        decreases left@.len() - at,
    {
        if left[at] != right[at] {
            return false;
        }
        at = at + 1;
    }
    proof {
        assert(left@ =~= right@);
    }
    true
}

/// The characters of a text.
pub fn char_list(text: &str) -> (list: Vec<char>)
    ensures
        list@ == text@,
{
    let n: usize = text.unicode_len();
    let mut list: Vec<char> = Vec::new();
    while list.len() < n
        invariant
            n == text@.len(),
            list@.len() <= n,
            list@ == text@.take(list@.len() as int),
        decreases n - list@.len(),
    {
        let at: usize = list.len();
        let next: char = text.get_char(at);
        proof {
            assert(text@.take(at + 1) =~= text@.take(at as int).push(next));
        }
        list.push(next);
    }
    proof {
        assert(text@.take(n as int) =~= text@);
    }
    list
}

/// Unicode white space.
pub open spec fn is_space(c: char) -> bool {
    let code = c as u32;
    ||| 0x9 <= code <= 0xd
    ||| code == 0x20
    ||| code == 0x85
    ||| code == 0xa0
    ||| code == 0x1680
    ||| 0x2000 <= code <= 0x200a
    ||| 0x2028 <= code <= 0x2029
    ||| code == 0x202f
    ||| code == 0x205f
    ||| code == 0x3000
}

fn space(c: char) -> (r: bool)
    ensures
        r == is_space(c),
{
    let code: u32 = c as u32;
    (0x9 <= code && code <= 0xd) || code == 0x20 || code == 0x85 || code == 0xa0 || code == 0x1680
        || (0x2000 <= code && code <= 0x200a) || (0x2028 <= code && code <= 0x2029) || code
        == 0x202f || code == 0x205f || code == 0x3000
}

/// Without leading white space.
pub open spec fn trim_start(s: Seq<char>) -> Seq<char>
    decreases s.len(),
{
    if s.len() > 0 && is_space(s[0]) {
        trim_start(s.drop_first())
    } else {
        s
    }
}

/// Without trailing white space.
pub open spec fn trim_end(s: Seq<char>) -> Seq<char>
    decreases s.len(),
{
    if s.len() > 0 && is_space(s.last()) {
        trim_end(s.drop_last())
    } else {
        s
    }
}

/// Without white space at either end.
pub open spec fn trimmed(s: Seq<char>) -> Seq<char> {
    trim_end(trim_start(s))
}

/// The characters of a text without white space at either end.
pub fn trim_chars(text: &str) -> (list: Vec<char>)
    ensures
        list@ == trimmed(text@),
{
    let all: Vec<char> = char_list(text);
    let mut lo: usize = 0;
    proof {
        assert(text@.skip(0) =~= text@);
    }
    while lo < all.len() && space(all[lo])
        invariant
            all@ == text@,
            lo <= all@.len(),
            trim_start(text@) == trim_start(text@.skip(lo as int)),
        decreases all@.len() - lo,
    {
        proof {
            assert(text@.skip(lo as int).drop_first() =~= text@.skip(lo + 1));
        }
        lo = lo + 1;
    }
    let mut hi: usize = all.len();
    let ghost rest = text@.skip(lo as int);
    proof {
        assert(rest =~= text@.subrange(lo as int, hi as int));
    }
    while lo < hi && space(all[hi - 1])
        invariant
            all@ == text@,
            lo <= hi <= all@.len(),
            trim_end(rest) == trim_end(text@.subrange(lo as int, hi as int)),
        decreases hi,
    {
        proof {
            assert(text@.subrange(lo as int, hi as int).drop_last() =~= text@.subrange(
                lo as int,
                hi - 1,
            ));
        }
        hi = hi - 1;
    }
    let mut list: Vec<char> = Vec::new();
    let mut at: usize = lo;
    while at < hi
        invariant
            all@ == text@,
            lo <= at <= hi <= all@.len(),
            list@ == text@.subrange(lo as int, at as int),
        decreases hi - at,
    {
        list.push(all[at]);
        at = at + 1;
    }
    list
}

/// Whether the characters are exactly those of `text`.
pub fn chars_are(list: &Vec<char>, text: &str) -> (same: bool)
    ensures
        same == (list@ == text@),
{
    let other: Vec<char> = char_list(text);
    if other.len() != list.len() {
        return false;
    }
    let mut at: usize = 0;
    while at < list.len()
        invariant
            at <= list@.len(),
            list@.len() == other@.len(),
            other@ == text@,
            forall|i: int| 0 <= i < at ==> list@[i] == other@[i],
        decreases list@.len() - at,
    {
        if list[at] != other[at] {
            return false;
        }
        at = at + 1;
    }
    proof {
        assert(list@ =~= other@);
    }
    true
}

pub open spec fn is_digit(c: char) -> bool {
    '0' <= c && c <= '9'
}

/// The value of a row of decimal digits.
pub open spec fn decimal_value(s: Seq<char>) -> nat
    decreases s.len(),
{
    if s.len() == 0 {
        0
    } else {
        decimal_value(s.drop_last()) * 10 + (s.last() as u32 - '0' as u32) as nat
    }
}

/// What follows an optional plus sign.
pub open spec fn unsigned_body(s: Seq<char>) -> Seq<char> {
    if s.len() > 0 && s[0] == '+' {
        s.skip(1)
    } else {
        s
    }
}

/// The number that a text denotes: digits after an optional plus sign, up to `max`.
pub open spec fn parsed_number(s: Seq<char>, max: nat) -> Option<nat> {
    let body = unsigned_body(s);
    if body.len() > 0 && (forall|i: int| 0 <= i < body.len() ==> is_digit(#[trigger] body[i]))
        && decimal_value(body) <= max {
        Some(decimal_value(body))
    } else {
        None
    }
}

proof fn lemma_value_prefix(s: Seq<char>, i: int)
    requires
        0 <= i <= s.len(),
        forall|j: int| 0 <= j < s.len() ==> is_digit(#[trigger] s[j]),
    ensures
        decimal_value(s.take(i)) <= decimal_value(s),
    decreases s.len(),
{
    if i < s.len() {
        assert(s.drop_last().take(i) =~= s.take(i));
        lemma_value_prefix(s.drop_last(), i);
    } else {
        assert(s.take(i) =~= s);
    }
}

/// Parses an unsigned 64-bit number.
pub fn parse_wide(list: &Vec<char>) -> (number: Option<u64>)
    ensures
        match number {
            Some(value) => parsed_number(list@, u64::MAX as nat) == Some(value as nat),
            None => parsed_number(list@, u64::MAX as nat) is None,
        },
{
    let start: usize = if list.len() > 0 && list[0] == '+' {
        1
    } else {
        0
    };
    let ghost body = unsigned_body(list@);
    if start == list.len() {
        return None;
    }
    proof {
        assert(body =~= list@.skip(start as int));
        assert(body.take(0) =~= Seq::<char>::empty());
    }
    let mut value: u64 = 0;
    let mut at: usize = start;
    while at < list.len()
        invariant
            start <= at <= list@.len(),
            start < list@.len(),
            body == unsigned_body(list@),
            body == list@.skip(start as int),
            forall|i: int| 0 <= i < at - start ==> is_digit(#[trigger] body[i]),
            value == decimal_value(body.take(at - start)),
        decreases list@.len() - at,
    {
        let c: char = list[at];
        let ghost done = at - start;
        assert(body[done] == c);
        if !(c >= '0' && c <= '9') {
            return None;
        }
        let digit: u64 = (c as u32 - '0' as u32) as u64;
        proof {
            assert(body.take(done + 1).drop_last() =~= body.take(done));
            assert(decimal_value(body.take(done + 1)) == value * 10 + digit);
            if forall|i: int| 0 <= i < body.len() ==> is_digit(#[trigger] body[i]) {
                lemma_value_prefix(body, done + 1);
            }
        }
        match value.checked_mul(10) {
            None => {
                return None;
            },
            Some(tens) => {
                match tens.checked_add(digit) {
                    None => {
                        return None;
                    },
                    Some(sum) => {
                        value = sum;
                    },
                }
            },
        }
        at = at + 1;
    }
    proof {
        assert(body.take(at - start) =~= body);
    }
    Some(value)
}

/// Parses an unsigned machine number.
pub fn parse_number(list: &Vec<char>) -> (number: Option<usize>)
    ensures
        match number {
            Some(value) => parsed_number(list@, usize::MAX as nat) == Some(value as nat),
            None => parsed_number(list@, usize::MAX as nat) is None,
        },
{
    match parse_wide(list) {
        None => None,
        Some(value) => if value <= usize::MAX as u64 {
            Some(value as usize)
        } else {
            None
        },
    }
}

/// The decimal digit `d`.
pub open spec fn digit_char(d: nat) -> char {
    (('0' as u32) + d) as char
}

/// The decimal digits of `n`, most significant first.
pub open spec fn decimal(n: nat) -> Seq<char>
    decreases n,
{
    if n < 10 {
        seq![digit_char(n)]
    } else {
        decimal(n / 10).push(digit_char(n % 10))
    }
}

fn digit_text(d: u64) -> (text: &'static str)
    requires
        d < 10,
    ensures
        text@ == seq![digit_char(d as nat)],
{
    proof {
        reveal_strlit("0");
        reveal_strlit("1");
        reveal_strlit("2");
        reveal_strlit("3");
        reveal_strlit("4");
        reveal_strlit("5");
        reveal_strlit("6");
        reveal_strlit("7");
        reveal_strlit("8");
        reveal_strlit("9");
    }
    let text: &'static str = match d {
        0 => "0",
        1 => "1",
        2 => "2",
        3 => "3",
        4 => "4",
        5 => "5",
        6 => "6",
        7 => "7",
        8 => "8",
        _ => "9",
    };
    proof {
        assert(text@ =~= seq![digit_char(d as nat)]);
    }
    text
}

/// Writes a number in decimal.
pub fn decimal_text(n: u64) -> (text: String)
    ensures
        text@ == decimal(n as nat),
    decreases n,
{
    if n < 10 {
        digit_text(n).to_owned()
    } else {
        let mut text: String = decimal_text(n / 10);
        let last: &'static str = digit_text(n % 10);
        text.append(last);
        proof {
            assert(text@ =~= decimal((n / 10) as nat).push(digit_char((n % 10) as nat)));
        }
        text
    }
}

/// A signed number in decimal.
pub open spec fn signed_decimal(n: int) -> Seq<char> {
    if n < 0 {
        "-"@ + decimal((-n) as nat)
    } else {
        decimal(n as nat)
    }
}

/// Writes a signed number in decimal.
pub fn signed_text(n: i64) -> (text: String)
    ensures
        text@ == signed_decimal(n as int),
{
    if n < 0 {
        let mut text: String = "-".to_owned();
        let magnitude: u64 = if n == i64::MIN {
            0x8000_0000_0000_0000u64
        } else {
            (-n) as u64
        };
        text.append(decimal_text(magnitude).as_str());
        text
    } else {
        decimal_text(n as u64)
    }
}

/// What std's debug formatting makes of a text: the text in double quotes, with escapes.
pub uninterp spec fn quoted_text(text: Seq<char>) -> Seq<char>;

/// The debug formatting of `str` in std.
#[verifier::external_body]
pub(crate) fn quoted(text: &str) -> (quoted: String)
    ensures
        quoted@ == quoted_text(text@),
{
    format!("{text:?}")
}

/// Two texts in a row.
pub fn join2(a: &str, b: &str) -> (text: String)
    ensures
        text@ == a@ + b@,
{
    let mut text: String = a.to_owned();
    text.append(b);
    text
}

/// Three texts in a row.
pub fn join3(a: &str, b: &str, c: &str) -> (text: String)
    ensures
        text@ == a@ + b@ + c@,
{
    let mut text: String = join2(a, b);
    text.append(c);
    text
}

} // verus!
