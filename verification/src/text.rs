//! Numbers as text.

use vstd::prelude::*;
use vstd::string::{StrSliceExecFns, StringExecFns};

verus! {

/// The character for a digit.
pub open spec fn digit(d: int) -> char {
    (d + 48) as char
}

/// A number in decimal.
pub open spec fn decimal(n: nat) -> Seq<char>
    decreases n,
{
    if n < 10 {
        seq![digit(n as int)]
    } else {
        decimal(n / 10).push(digit(n as int % 10))
    }
}

/// Appends one digit.
fn push_digit(out: &mut String, d: u64)
    requires
        d < 10,
    ensures
        final(out)@ == old(out)@.push(digit(d as int)),
{
    proof {
        reveal_strlit("0");
        reveal_strlit("1");
        reveal_strlit("2");
        reveal_strlit("3");
        reveal_strlit("4");
        reveal_strlit("5");
        reveal_strlit("6");
        reveal_strlit("7");
        reveal_strlit("8");
        reveal_strlit("9");
    }
    let s: &str = match d {
        0 => "0",
        1 => "1",
        2 => "2",
        3 => "3",
        4 => "4",
        5 => "5",
        6 => "6",
        7 => "7",
        8 => "8",
        _ => "9",
    };
    assert(s@ =~= seq![digit(d as int)]);
    out.append(s);
    assert(out@ =~= old(out)@.push(digit(d as int)));
}

/// Appends a number in decimal.
pub fn push_decimal(out: &mut String, n: u64)
    ensures
        final(out)@ == old(out)@ + decimal(n as nat),
    decreases n,
{
    if n >= 10 {
        push_decimal(out, n / 10);
    }
    push_digit(out, n % 10);
    proof {
        assert(out@ =~= old(out)@ + decimal(n as nat));
    }
}

/// A character that stands for a digit.
pub open spec fn is_digit(c: char) -> bool {
    '0' <= c && c <= '9'
}

/// The number that a run of digits spells.
pub open spec fn value(digits: Seq<char>) -> int
    decreases digits.len(),
{
    if digits.len() == 0 {
        0
    } else {
        value(digits.drop_last()) * 10 + (digits.last() as int - 48)
    }
}

/// A number's digits, without a plus sign before them.
pub open spec fn digits_of(s: Seq<char>) -> Seq<char> {
    if s.len() > 0 && s[0] == '+' {
        s.skip(1)
    } else {
        s
    }
}

/// `s` spells a number: at least one digit, nothing but digits after an
/// optional plus sign, and no more than a `u32` holds.
pub open spec fn is_number(s: Seq<char>) -> bool {
    &&& digits_of(s).len() > 0
    &&& forall|i: int| 0 <= i < digits_of(s).len() ==> is_digit(#[trigger] digits_of(s)[i])
    &&& value(digits_of(s)) <= u32::MAX
}

/// Reads a number.
pub fn parse_u32(s: &str) -> (n: Option<u32>)
    ensures
        n is Some <==> is_number(s@),
        n matches Some(v) ==> v == value(digits_of(s@)),
{
    let len: usize = s.unicode_len();
    let mut start: usize = 0;
    if len > 0 && s.get_char(0) == '+' {
        start = 1;
    }
    let ghost digits = digits_of(s@);
    if start == len {
        return None;
    }
    assert(digits == s@.skip(start as int));
    let mut n: u32 = 0;
    let mut i: usize = start;
    assert(digits.take(0) =~= seq![]);
    while i < len
        invariant
            start <= i <= len,
            len == s@.len(),
            digits == s@.skip(start as int),
            digits == digits_of(s@),
            digits.len() > 0,
            n == value(digits.take(i - start)),
            forall|k: int| 0 <= k < i - start ==> is_digit(#[trigger] digits[k]),
        decreases len - i,
    {
        let c: char = s.get_char(i);
        let ghost k = i - start;
        assert(digits[k] == c);
        assert(digits.take(k + 1).drop_last() =~= digits.take(k));
        if !('0' <= c && c <= '9') {
            assert(!is_digit(digits[k]));
            return None;
        }
        let d: u32 = c as u32 - 48;
        let wide: u64 = n as u64 * 10 + d as u64;
        if wide > u32::MAX as u64 {
            proof {
                lemma_value_grows(digits, k + 1, digits.len() as int);
                assert(digits.take(digits.len() as int) =~= digits);
                assert(wide == value(digits.take(k + 1)));
            }
            return None;
        }
        n = wide as u32;
        i += 1;
    }
    assert(digits.take(i - start) =~= digits);
    Some(n)
}

/// More digits never make a smaller number, as long as they are digits.
proof fn lemma_value_grows(digits: Seq<char>, a: int, b: int)
    requires
        0 <= a <= b <= digits.len(),
    ensures
        (forall|i: int| 0 <= i < digits.len() ==> is_digit(#[trigger] digits[i])) ==> 0 <= value(
            digits.take(a),
        ) <= value(digits.take(b)),
    decreases b,
{
    if forall|i: int| 0 <= i < digits.len() ==> is_digit(#[trigger] digits[i]) {
        if b > 0 {
            assert(digits.take(b).drop_last() =~= digits.take(b - 1));
            assert(is_digit(digits[b - 1]));
            if a < b {
                lemma_value_grows(digits, a, b - 1);
            } else {
                lemma_value_grows(digits, b - 1, b - 1);
            }
        } else {
            assert(digits.take(0) =~= seq![]);
        }
        if a == b && b > 0 {
            lemma_value_is_not_negative(digits, b);
        }
    }
}

proof fn lemma_value_is_not_negative(digits: Seq<char>, b: int)
    requires
        0 <= b <= digits.len(),
        forall|i: int| 0 <= i < digits.len() ==> is_digit(#[trigger] digits[i]),
    ensures
        0 <= value(digits.take(b)),
    decreases b,
{
    if b > 0 {
        assert(digits.take(b).drop_last() =~= digits.take(b - 1));
        assert(is_digit(digits[b - 1]));
        lemma_value_is_not_negative(digits, b - 1);
    }
}

/// A number that was written is read back as itself.
pub proof fn law_written_numbers_read_back(n: u32)
    ensures
        is_number(decimal(n as nat)),
        value(digits_of(decimal(n as nat))) == n,
{
    lemma_decimal(n as nat);
    assert(is_digit(decimal(n as nat)[0]));
}

proof fn lemma_decimal(n: nat)
    ensures
        decimal(n).len() > 0,
        forall|i: int| 0 <= i < decimal(n).len() ==> is_digit(#[trigger] decimal(n)[i]),
        value(decimal(n)) == n,
    decreases n,
{
    if n < 10 {
        assert(decimal(n).drop_last() =~= seq![]);
        assert(value(decimal(n).drop_last()) == 0);
    } else {
        lemma_decimal(n / 10);
        assert(decimal(n).drop_last() =~= decimal(n / 10));
    }
}

/// A letter in lower case, if it is an ASCII capital.
pub open spec fn lower(c: char) -> char {
    if 'A' <= c && c <= 'Z' {
        (c as int + 32) as char
    } else {
        c
    }
}

/// A letter in lower case, if it is an ASCII capital.
fn to_lower(c: char) -> (l: char)
    ensures
        l == lower(c),
{
    if 'A' <= c && c <= 'Z' {
        (c as u8 + 32) as char
    } else {
        c
    }
}

/// `part` stands in `text` at `at`, whatever the case of ASCII letters there.
pub open spec fn occurs_at(text: Seq<char>, part: Seq<char>, at: int) -> bool {
    &&& 0 <= at <= text.len() - part.len()
    &&& forall|k: int| 0 <= k < part.len() ==> lower(#[trigger] text[at + k]) == part[k]
}

/// `part` stands somewhere in `text`, whatever the case of ASCII letters there.
pub open spec fn occurs(text: Seq<char>, part: Seq<char>) -> bool {
    exists|at: int| #[trigger] occurs_at(text, part, at)
}

/// Whether a lower-case `part` stands somewhere in `text`, whatever the case
/// of ASCII letters there.
pub fn contains_ignoring_case(text: &str, part: &str) -> (found: bool)
    ensures
        found == occurs(text@, part@),
{
    let n: usize = text.unicode_len();
    let m: usize = part.unicode_len();
    if m > n {
        return false;
    }
    let mut at: usize = 0;
    while at <= n - m
        invariant
            n == text@.len(),
            m == part@.len(),
            m <= n,
            at <= n - m + 1,
            forall|a: int| 0 <= a < at ==> !#[trigger] occurs_at(text@, part@, a),
        decreases n - at,
    {
        let mut k: usize = 0;
        let mut same: bool = true;
        while same && k < m
            invariant
                n == text@.len(),
                m == part@.len(),
                m <= n,
                at <= n - m,
                k <= m,
                same ==> forall|j: int|
                    0 <= j < k ==> lower(#[trigger] text@[at + j]) == part@[j],
                !same ==> !occurs_at(text@, part@, at as int),
            decreases m - k,
        {
            let t: char = text.get_char(at + k);
            if to_lower(t) != part.get_char(k) {
                same = false;
                assert(lower(text@[at + k]) != part@[k as int]);
            }
            k += 1;
        }
        if same {
            assert(occurs_at(text@, part@, at as int));
            return true;
        }
        if at == n - m {
            assert forall|a: int| !#[trigger] occurs_at(text@, part@, a) by {
                if 0 <= a < at {
                }
            }
            return false;
        }
        at += 1;
    }
    false
}

/// `b` is `a` or its capital.
pub open spec fn same_letter(a: char, b: char) -> bool {
    a == b || ('a' <= a && a <= 'z' && b as int == a as int - 32)
}

/// A part in lower case occurs in every text that holds it, wherever it stands
/// and in whichever case each of its letters is written.
pub proof fn law_part_occurs(before: Seq<char>, part: Seq<char>, written: Seq<char>, after: Seq<char>)
    requires
        written.len() == part.len(),
        forall|k: int|
            0 <= k < part.len() ==> same_letter(#[trigger] part[k], written[k]) && !('A' <= part[k]
                && part[k] <= 'Z'),
    ensures
        occurs(before + written + after, part),
{
    let text = before + written + after;
    assert forall|k: int| 0 <= k < part.len() implies lower(
        #[trigger] text[before.len() as int + k],
    ) == part[k] by {
        assert(text[before.len() as int + k] == written[k]);
        assert(same_letter(part[k], written[k]));
    }
    assert(occurs_at(text, part, before.len() as int));
}

/// A part that occurs stands somewhere in the text, letter for letter but for
/// its case.
pub proof fn law_occurring_part_is_there(text: Seq<char>, part: Seq<char>)
    requires
        occurs(text, part),
    ensures
        exists|at: int|
            0 <= at && at + part.len() <= text.len() && #[trigger] reads_as(
                text.subrange(at, at + part.len()),
                part,
            ),
{
    let at = choose|at: int| #[trigger] occurs_at(text, part, at);
    let there = text.subrange(at, at + part.len());
    assert forall|k: int| 0 <= k < part.len() implies same_letter(#[trigger] part[k], there[k]) by {
        assert(lower(text[at + k]) == part[k]);
    }
    assert(reads_as(text.subrange(at, at + part.len()), part));
}

/// `written` is `part` in whichever case.
pub open spec fn reads_as(written: Seq<char>, part: Seq<char>) -> bool {
    written.len() == part.len() && forall|k: int|
        0 <= k < part.len() ==> same_letter(#[trigger] part[k], written[k])
}

/// Digits are worth ten times as much for each place to the left, and a plus
/// sign in front of a number changes nothing.
pub proof fn law_digits_have_their_place(s: Seq<char>, c: char)
    requires
        is_number(s),
    ensures
        value(digits_of(s).push(c)) == 10 * value(digits_of(s)) + (c as int - '0' as int),
        s[0] != '+' ==> is_number(seq!['+'] + s) && digits_of(seq!['+'] + s) == s,
{
    assert(digits_of(s).push(c).drop_last() =~= digits_of(s));
    assert((seq!['+'] + s).skip(1) =~= s);
}

/// A written number has no zero in front, but zero itself, and as many digits
/// as it takes.
pub proof fn law_written_numbers_are_plain(n: nat)
    ensures
        n > 0 ==> decimal(n)[0] != '0',
        n < 10 <==> decimal(n).len() == 1,
        n >= 10 ==> decimal(n).drop_last() == decimal(n / 10),
    decreases n,
{
    lemma_decimal(n);
    if n >= 10 {
        law_written_numbers_are_plain(n / 10);
        lemma_decimal(n / 10);
        assert(decimal(n)[0] == decimal(n / 10)[0]);
        assert(decimal(n).drop_last() =~= decimal(n / 10));
    }
}

/// Only digits make a number: at least one of them, each from 0 to 9, with at
/// most a plus sign before them, and together no more than a `u32` holds.
pub proof fn law_only_digits_are_numbers(s: Seq<char>, i: int)
    requires
        is_number(s),
        0 <= i < s.len(),
    ensures
        ('0' <= s[i] && s[i] <= '9') || (i == 0 && s[i] == '+' && s.len() > 1),
        0 <= value(digits_of(s)) <= u32::MAX,
{
    let digits = digits_of(s);
    if s[0] == '+' {
        if i > 0 {
            assert(is_digit(digits[i - 1]));
        }
    } else {
        assert(is_digit(digits[i]));
    }
    lemma_value_is_not_negative(digits, digits.len() as int);
    assert(digits.take(digits.len() as int) =~= digits);
}

} // verus!
