//! What numbers and settings read from and written to texts amount to.

use vstd::prelude::*;

use crate::ops::views::{bracketed, listed};
use crate::span::partition_span;
use crate::text::{
    decimal, decimal_value, digit_char, is_digit, is_space, parsed_number, signed_decimal,
    trim_end, trim_start, trimmed, unsigned_body,
};
use crate::tracer::{capture_place, capture_target};

verus! {

proof fn lemma_digit(d: nat)
    requires
        d < 10,
    ensures
        is_digit(digit_char(d)),
        (digit_char(d) as u32 - '0' as u32) as nat == d,
        digit_char(d) == '0' <==> d == 0,
        !is_space(digit_char(d)),
        digit_char(d) != '+',
        digit_char(d) != '-',
{
}

/// A number is written in decimal digits, the first of which is no zero unless the number is, and
/// read back as the same number wherever it fits.
pub proof fn law_decimal_reads_back(n: nat, max: nat)
    ensures
        decimal(n).len() > 0,
        forall|i: int| 0 <= i < decimal(n).len() ==> is_digit(#[trigger] decimal(n)[i]),
        decimal(n)[0] == '0' <==> n == 0,
        decimal(n).len() == 1 <==> n < 10,
        decimal_value(decimal(n)) == n,
        parsed_number(decimal(n), max) == (if n <= max {
            Some(n)
        } else {
            None::<nat>
        }),
        trimmed(decimal(n)) == decimal(n),
    decreases n,
{
    let text = decimal(n);
    if n < 10 {
        lemma_digit(n);
        assert(text =~= seq![digit_char(n)]);
        assert(text.drop_last() =~= Seq::empty());
        assert(decimal_value(text.drop_last()) == 0);
        assert(text.last() == digit_char(n));
    } else {
        law_decimal_reads_back(n / 10, max);
        lemma_digit(n % 10);
        let front = decimal(n / 10);
        assert(text == front.push(digit_char(n % 10)));
        assert(text.drop_last() =~= front);
        assert(text.last() == digit_char(n % 10));
        assert(decimal_value(text) == decimal_value(front) * 10 + n % 10);
        assert forall|i: int| 0 <= i < text.len() implies is_digit(#[trigger] text[i]) by {
            if i < front.len() {
                assert(is_digit(front[i]));
            }
        }
        assert(text[0] == front[0]);
    }
    assert(is_digit(text[0]));
    assert(!is_space(text[0]));
    assert(is_digit(text[text.len() - 1]));
    assert(!is_space(text.last()));
    assert(trim_start(text) == text);
    assert(trim_end(text) == text);
    assert(text[0] != '+');
    assert(unsigned_body(text) == text);
}

/// Different numbers are written differently, whatever their signs.
pub proof fn law_numbers_are_told_apart(a: int, b: int)
    requires
        signed_decimal(a) == signed_decimal(b),
    ensures
        a == b,
{
    reveal_strlit("-");
    let (x, y) = (if a < 0 {
        -a
    } else {
        a
    }, if b < 0 {
        -b
    } else {
        b
    });
    law_decimal_reads_back(x as nat, 0);
    law_decimal_reads_back(y as nat, 0);
    let (left, right) = (signed_decimal(a), signed_decimal(b));
    assert(is_digit(decimal(x as nat)[0]));
    assert(is_digit(decimal(y as nat)[0]));
    if a < 0 {
        assert(left[0] == '-');
        assert(left.skip(1) =~= decimal(x as nat));
    } else {
        assert(left[0] != '-');
    }
    if b < 0 {
        assert(right[0] == '-');
        assert(right.skip(1) =~= decimal(y as nat));
    } else {
        assert(right[0] != '-');
    }
}

proof fn lemma_trim_start(s: Seq<char>)
    ensures
        exists|i: int|
            0 <= i <= s.len() && s.skip(i) == #[trigger] trim_start(s) && #[trigger] spaces(
                s.take(i),
            ),
        trim_start(s).len() > 0 ==> !is_space(trim_start(s)[0]),
    decreases s.len(),
{
    if s.len() > 0 && is_space(s[0]) {
        let rest = s.drop_first();
        lemma_trim_start(rest);
        let i = choose|i: int|
            0 <= i <= rest.len() && rest.skip(i) == #[trigger] trim_start(rest) && #[trigger] spaces(
                rest.take(i),
            );
        assert(s.skip(i + 1) =~= rest.skip(i));
        assert forall|j: int| 0 <= j < i + 1 implies is_space(#[trigger] s.take(i + 1)[j]) by {
            if j > 0 {
                assert(rest.take(i)[j - 1] == s[j]);
            }
        }
        assert(spaces(s.take(i + 1)));
    } else {
        assert(s.skip(0) =~= s);
        assert(spaces(s.take(0)));
    }
}

proof fn lemma_trim_end(s: Seq<char>)
    ensures
        exists|i: int|
            0 <= i <= s.len() && s.take(i) == #[trigger] trim_end(s) && #[trigger] spaces(s.skip(i)),
        trim_end(s).len() > 0 ==> !is_space(trim_end(s).last()),
    decreases s.len(),
{
    if s.len() > 0 && is_space(s.last()) {
        let rest = s.drop_last();
        lemma_trim_end(rest);
        let i = choose|i: int|
            0 <= i <= rest.len() && rest.take(i) == #[trigger] trim_end(rest) && #[trigger] spaces(
                rest.skip(i),
            );
        assert(s.take(i) =~= rest.take(i));
        assert forall|j: int| 0 <= j < s.skip(i).len() implies is_space(#[trigger] s.skip(i)[j]) by {
            if i + j < rest.len() {
                assert(rest.skip(i)[j] == s[i + j]);
            }
        }
        assert(spaces(s.skip(i)));
    } else {
        assert(s.take(s.len() as int) =~= s);
        assert(spaces(s.skip(s.len() as int)));
    }
}

/// All white space.
pub open spec fn spaces(s: Seq<char>) -> bool {
    forall|i: int| 0 <= i < s.len() ==> is_space(#[trigger] s[i])
}

/// Trimming takes white space away at both ends, all of it and nothing else.
pub proof fn law_trimming(s: Seq<char>)
    ensures
        exists|i: int, j: int|
            0 <= i <= j <= s.len() && #[trigger] s.subrange(i, j) == trimmed(s) && spaces(s.take(i))
                && spaces(s.skip(j)),
        trimmed(s).len() > 0 ==> !is_space(trimmed(s)[0]) && !is_space(trimmed(s).last()),
{
    lemma_trim_start(s);
    let rest = trim_start(s);
    lemma_trim_end(rest);
    let i = choose|i: int|
        0 <= i <= s.len() && s.skip(i) == #[trigger] trim_start(s) && #[trigger] spaces(s.take(i));
    let k = choose|k: int|
        0 <= k <= rest.len() && rest.take(k) == #[trigger] trim_end(rest) && #[trigger] spaces(
            rest.skip(k),
        );
    assert(s.subrange(i, i + k) =~= rest.take(k));
    assert(s.skip(i + k) =~= rest.skip(k));
    if trimmed(s).len() > 0 {
        assert(trimmed(s)[0] == rest[0]);
    }
}

proof fn lemma_trim_around(before: Seq<char>, word: Seq<char>, after: Seq<char>)
    requires
        spaces(before),
        spaces(after),
        word.len() > 0,
        !is_space(word[0]),
        !is_space(word.last()),
    ensures
        trimmed(before + word + after) == word,
    decreases before.len() + after.len(),
{
    let s = before + word + after;
    if before.len() > 0 {
        assert(is_space(before[0]));
        assert(s[0] == before[0]);
        let rest = before.drop_first();
        assert forall|i: int| 0 <= i < rest.len() implies is_space(#[trigger] rest[i]) by {
            assert(before[i + 1] == rest[i]);
        }
        assert(s.drop_first() =~= rest + word + after);
        lemma_trim_around(rest, word, after);
    } else if after.len() > 0 {
        assert(s =~= word + after);
        assert(s[0] == word[0]);
        assert(trim_start(s) == s);
        assert(is_space(after[after.len() - 1]));
        assert(s.last() == after.last());
        let rest = after.drop_last();
        assert forall|i: int| 0 <= i < rest.len() implies is_space(#[trigger] rest[i]) by {
            assert(after[i] == rest[i]);
        }
        assert(s.drop_last() =~= before + word + rest);
        lemma_trim_around(before, word, rest);
        assert((before + word + rest)[0] == word[0]);
        assert(trim_start(before + word + rest) == before + word + rest);
    } else {
        assert(s =~= word);
        assert(trim_start(s) == s);
    }
}

/// A setting asks for the same number of layers whatever white space stands around it: a positive
/// number asks for that many, `0`, `off` and `false` for no split, and `auto` leaves the choice.
pub proof fn law_span_setting(before: Seq<char>, after: Seq<char>, layers: nat, n: nat)
    requires
        spaces(before),
        spaces(after),
        0 < n <= usize::MAX,
    ensures
        partition_span(Some(before + decimal(n) + after), layers) == Some(n),
        partition_span(Some(before + "0"@ + after), layers) is None,
        partition_span(Some(before + "off"@ + after), layers) is None,
        partition_span(Some(before + "false"@ + after), layers) is None,
        partition_span(Some(before + "auto"@ + after), layers) == partition_span(None, layers),
{
    reveal_strlit("0");
    reveal_strlit("off");
    reveal_strlit("false");
    reveal_strlit("auto");
    reveal_strlit("");
    law_decimal_reads_back(n, usize::MAX as nat);
    assert(is_digit(decimal(n)[0]));
    assert(is_digit(decimal(n)[decimal(n).len() - 1]));
    lemma_trim_around(before, decimal(n), after);
    lemma_trim_around(before, "0"@, after);
    lemma_trim_around(before, "off"@, after);
    lemma_trim_around(before, "false"@, after);
    lemma_trim_around(before, "auto"@, after);
    assert(decimal(n)[0] != "0"@[0]);
    assert(decimal(n)[0] != "off"@[0]);
    assert(decimal(n)[0] != "false"@[0]);
    assert(decimal(n)[0] != "auto"@[0]);
    assert("auto"@[0] != "0"@[0] && "auto"@[0] != "off"@[0] && "auto"@[0] != "false"@[0]);
}

/// Without a setting a decoder is split from twenty-three layers on, into parts of four to eight
/// layers: the fewest with which seven parts are enough, or the nearest that is allowed.
pub proof fn law_span_chosen(layers: nat)
    ensures
        partition_span(None, layers) is None <==> layers < 23,
        partition_span(None, layers) matches Some(span) ==> {
            &&& 4 <= span <= 8
            &&& span < 8 ==> 7 * span >= layers
            &&& span > 4 ==> 7 * (span - 1) < layers
        },
{
}

/// The capture goes where the setting says; a bare one goes to the usual place, and an empty or
/// missing one nowhere. The evaluation to capture is the number that the setting gives, with any
/// white space around it, and the first where it gives none.
pub proof fn law_capture_settings(
    place: Seq<char>,
    before: Seq<char>,
    after: Seq<char>,
    n: nat,
)
    requires
        spaces(before),
        spaces(after),
        n <= u64::MAX,
    ensures
        capture_place(None) is None,
        place.len() == 0 ==> capture_place(Some(place)) is None,
        place.len() > 0 && place != "1"@ ==> capture_place(Some(place)) == Some(place),
        capture_place(Some("1"@)) == Some("mlx_capture.gputrace"@),
        capture_target(None) == 0,
        capture_target(Some(before + decimal(n) + after)) == n,
{
    reveal_strlit("1");
    law_decimal_reads_back(n, u64::MAX as nat);
    assert(is_digit(decimal(n)[0]));
    assert(is_digit(decimal(n)[decimal(n).len() - 1]));
    lemma_trim_around(before, decimal(n), after);
}

/// White space is what Unicode calls so: tabs and line ends, the space, the next-line and no-break
/// space characters, and the wider and narrower spaces.
pub proof fn law_white_space(c: char)
    ensures
        is_space(c) <==> {
            ||| c == '\t' || c == '\n' || c == '\u{b}' || c == '\u{c}' || c == '\r'
            ||| c == ' ' || c == '\u{85}' || c == '\u{a0}' || c == '\u{1680}'
            ||| '\u{2000}' <= c && c <= '\u{200a}'
            ||| c == '\u{2028}' || c == '\u{2029}' || c == '\u{202f}' || c == '\u{205f}'
            ||| c == '\u{3000}'
        },
{
}

/// A text is a number exactly if it consists of decimal digits, at least one, after a plus sign or
/// none, and the number is not too large. Each digit more makes it ten times the number and the
/// digit.
pub proof fn law_numbers_read(digits: Seq<char>, digit: char, max: nat)
    requires
        '0' <= digit && digit <= '9',
    ensures
        ({
            let plain = digits.push(digit);
            let signed = seq!['+'] + plain;
            let only_digits = forall|i: int|
                0 <= i < digits.len() ==> '0' <= #[trigger] digits[i] && digits[i] <= '9';
            let value = decimal_value(digits) * 10 + (digit as u32 - '0' as u32);
            &&& only_digits && value <= max ==> parsed_number(plain, max) == Some(value as nat)
            &&& only_digits && value <= max ==> parsed_number(signed, max) == Some(value as nat)
            &&& only_digits && value > max ==> parsed_number(plain, max) is None
            &&& !only_digits && digits[0] != '+' ==> parsed_number(plain, max) is None
            &&& !only_digits ==> parsed_number(signed, max) is None
        }),
        parsed_number(Seq::empty(), max) is None,
        parsed_number(seq!['+'], max) is None,
{
    let plain = digits.push(digit);
    let signed = seq!['+'] + plain;
    assert(plain.drop_last() =~= digits);
    assert(plain.last() == digit);
    assert(signed.skip(1) =~= plain);
    assert(unsigned_body(signed) == plain);
    assert(seq!['+'].skip(1) =~= Seq::<char>::empty());
    let only_digits = forall|i: int|
        0 <= i < digits.len() ==> '0' <= #[trigger] digits[i] && digits[i] <= '9';
    if only_digits {
        assert(plain[0] != '+') by {
            if digits.len() > 0 {
                assert('0' <= digits[0]);
                assert(plain[0] == digits[0]);
            }
        }
        assert forall|i: int| 0 <= i < plain.len() implies is_digit(#[trigger] plain[i]) by {
            if i < digits.len() {
                assert('0' <= digits[i] && digits[i] <= '9');
            }
        }
    } else {
        let i = choose|i: int|
            0 <= i < digits.len() && !('0' <= #[trigger] digits[i] && digits[i] <= '9');
        assert(plain[i] == digits[i]);
        assert(!is_digit(plain[i]));
        assert(plain[0] == digits[0]);
    }
}

/// A setting of white space alone leaves the choice, as no setting does; one that is neither a
/// number nor `auto` asks for no split.
pub proof fn law_other_span_settings(setting: Seq<char>, layers: nat)
    ensures
        spaces(setting) ==> partition_span(Some(setting), layers) == partition_span(None, layers),
        trimmed(setting).len() > 0 && trimmed(setting) != "auto"@ && parsed_number(
            trimmed(setting),
            usize::MAX as nat,
        ) is None ==> partition_span(Some(setting), layers) is None,
    decreases setting.len(),
{
    reveal_strlit("");
    reveal_strlit("0");
    reveal_strlit("off");
    reveal_strlit("false");
    reveal_strlit("auto");
    if spaces(setting) {
        lemma_all_trimmed(setting);
        assert(trimmed(setting) =~= ""@);
        assert(""@ != "0"@ && ""@ != "off"@ && ""@ != "false"@) by {
            assert(""@.len() == 0 && "0"@.len() == 1 && "off"@.len() == 3 && "false"@.len() == 5);
        }
    }
    if trimmed(setting).len() > 0 {
        assert(trimmed(setting) != ""@);
    }
}

proof fn lemma_all_trimmed(s: Seq<char>)
    requires
        spaces(s),
    ensures
        trimmed(s).len() == 0,
    decreases s.len(),
{
    if s.len() > 0 {
        assert(is_space(s[0]));
        let rest = s.drop_first();
        assert forall|i: int| 0 <= i < rest.len() implies is_space(#[trigger] rest[i]) by {
            assert(rest[i] == s[i + 1]);
        }
        lemma_all_trimmed(rest);
    }
}

/// A number below zero is written with a minus sign before its digits, any other without.
pub proof fn law_signs(n: nat)
    ensures
        signed_decimal(n as int) == decimal(n),
        n > 0 ==> signed_decimal(-(n as int)) == seq!['-'] + decimal(n),
{
    reveal_strlit("-");
    assert("-"@ =~= seq!['-']);
}

/// A list is written in brackets, its numbers in order with a comma and a space between two.
pub proof fn law_lists_written(values: Seq<i64>, next: i64)
    ensures
        bracketed(Seq::empty()) == "["@ + "]"@,
        bracketed(values) == "["@ + listed(values) + "]"@,
        values.len() == 0 ==> listed(values.push(next)) == signed_decimal(next as int),
        values.len() > 0 ==> listed(values.push(next)) == listed(values) + ", "@ + signed_decimal(
            next as int,
        ),
{
    assert(values.push(next).drop_last() =~= values);
    assert("["@ + Seq::<char>::empty() =~= "["@);
}

} // verus!
