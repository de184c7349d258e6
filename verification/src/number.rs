use crate::text::chars_of;
use vstd::prelude::*;

verus! {

/// The value of `c` as a digit in base `radix`: `0`-`9`, then the letters in
/// either case from ten on; none where that value does not lie below `radix`.
pub open spec fn digit_value(c: char, radix: int) -> Option<int> {
    let v = if '0' <= c <= '9' {
        c as int - '0' as int
    } else if 'a' <= c <= 'z' {
        c as int - 'a' as int + 10
    } else if 'A' <= c <= 'Z' {
        c as int - 'A' as int + 10
    } else {
        radix
    };
    if v < radix {
        Some(v)
    } else {
        None
    }
}

/// The number that the digits `s` write in base `radix`, the empty run being
/// zero; none where a character is no digit.
pub open spec fn digits_value(s: Seq<char>, radix: int) -> Option<int>
    decreases s.len(),
{
    if s.len() == 0 {
        Some(0)
    } else {
        match (digits_value(s.drop_last(), radix), digit_value(s.last(), radix)) {
            (Some(a), Some(d)) => Some(a * radix + d),
            _ => None,
        }
    }
}

/// The number that `s` writes in base `radix`: an optional `+`, then at least
/// one digit.
pub open spec fn unsigned_value(s: Seq<char>, radix: int) -> Option<int> {
    let body = if s.len() > 0 && s[0] == '+' {
        s.skip(1)
    } else {
        s
    };
    if body.len() == 0 {
        None
    } else {
        digits_value(body, radix)
    }
}

/// `unsigned_value`, where it does not exceed `max`.
pub open spec fn bounded_value(s: Seq<char>, radix: int, max: int) -> Option<int> {
    match unsigned_value(s, radix) {
        Some(v) => if v <= max {
            Some(v)
        } else {
            None
        },
        None => None,
    }
}

/// A run of digits that extends a run without value has none; one that extends
/// a run with a value has at least that value.
pub proof fn lemma_digits_prefix(s: Seq<char>, radix: int, k: int)
    requires
        2 <= radix,
        0 <= k <= s.len(),
    ensures
        digits_value(s.take(k), radix) is None ==> digits_value(s, radix) is None,
        digits_value(s, radix) is Some ==> 0 <= digits_value(s.take(k), radix)->0
            <= digits_value(s, radix)->0,
    decreases s.len() - k,
{
    if k == s.len() {
        assert(s.take(k) == s);
        lemma_digits_nonnegative(s, radix);
    } else {
        lemma_digits_prefix(s.drop_last(), radix, k);
        assert(s.drop_last().take(k) == s.take(k));
        if digits_value(s, radix) is Some {
            let a = digits_value(s.drop_last(), radix)->0;
            assert(a * radix >= a) by (nonlinear_arith)
                requires
                    a >= 0,
                    radix >= 2,
            ;
        }
    }
}

/// The value of a run of digits is never negative.
pub proof fn lemma_digits_nonnegative(s: Seq<char>, radix: int)
    requires
        2 <= radix,
    ensures
        digits_value(s, radix) is Some ==> digits_value(s, radix)->0 >= 0,
    decreases s.len(),
{
    if s.len() > 0 {
        lemma_digits_nonnegative(s.drop_last(), radix);
        if digits_value(s, radix) is Some {
            let a = digits_value(s.drop_last(), radix)->0;
            assert(a * radix >= 0) by (nonlinear_arith)
                requires
                    a >= 0,
                    radix >= 2,
            ;
        }
    }
}

/// The digit that `c` is in base `radix`.
pub fn digit_of(c: char, radix: u32) -> (d: Option<u32>)
    requires
        2 <= radix <= 36,
    ensures
        match d {
            Some(v) => digit_value(c, radix as int) == Some(v as int) && v < radix,
            None => digit_value(c, radix as int) is None,
        },
{
    let v: u32 = if '0' <= c && c <= '9' {
        c as u32 - '0' as u32
    } else if 'a' <= c && c <= 'z' {
        c as u32 - 'a' as u32 + 10
    } else if 'A' <= c && c <= 'Z' {
        c as u32 - 'A' as u32 + 10
    } else {
        radix
    };
    if v < radix {
        Some(v)
    } else {
        None
    }
}

/// Reads `s` as a number in base `radix` that does not exceed `max`.
pub fn parse_unsigned(s: &[char], radix: u32, max: u64) -> (parsed: Option<u64>)
    requires
        2 <= radix <= 36,
    ensures
        match parsed {
            Some(v) => bounded_value(s@, radix as int, max as int) == Some(v as int),
            None => bounded_value(s@, radix as int, max as int) is None,
        },
{
    let start: usize = if s.len() > 0 && s[0] == '+' {
        1
    } else {
        0
    };
    if start == s.len() {
        return None;
    }
    let ghost body = s@.skip(start as int);
    proof {
        assert(s@.skip(0) == s@);
    }
    let mut acc: u128 = 0;
    let mut i: usize = start;
    while i < s.len()
        invariant
            2 <= radix <= 36,
            start <= i <= s.len(),
            body == s@.skip(start as int),
            unsigned_value(s@, radix as int) == digits_value(body, radix as int),
            digits_value(body.take(i - start), radix as int) == Some(acc as int),
            acc <= max,
        decreases s.len() - i,
    {
        proof {
            lemma_digits_prefix(body, radix as int, i - start + 1);
            assert(body.take(i - start + 1).drop_last() == body.take(i - start));
            assert(body.take(i - start + 1).last() == s@[i as int]);
        }
        match digit_of(s[i], radix) {
            Some(d) => {
                assert(acc * radix <= 36 * 0xffff_ffff_ffff_ffff) by (nonlinear_arith)
                    requires
                        acc <= 0xffff_ffff_ffff_ffff,
                        radix <= 36,
                ;
                let next: u128 = acc * (radix as u128) + (d as u128);
                if next > max as u128 {
                    return None;
                }
                acc = next;
            },
            None => {
                return None;
            },
        }
        i += 1;
    }
    proof {
        assert(body.take(i - start) == body);
        assert(s@.skip(0) == s@);
    }
    Some(acc as u64)
}

/// Whether `c` is a decimal digit.
pub open spec fn is_digit(c: char) -> bool {
    '0' <= c <= '9'
}

/// The end of the run of decimal digits that begins at `i`.
pub open spec fn digits_end(s: Seq<char>, i: int) -> int
    decreases s.len() - i,
{
    if 0 <= i < s.len() && is_digit(s[i]) {
        digits_end(s, i + 1)
    } else {
        i
    }
}

/// `c`, in lower case where it is an upper-case letter `A`-`Z`.
pub open spec fn lower(c: char) -> char {
    if 'A' <= c <= 'Z' {
        (c as int + 32) as char
    } else {
        c
    }
}

/// Whether `s` is `word` but for the case of its letters `A`-`Z`.
pub open spec fn spells(s: Seq<char>, word: Seq<char>) -> bool {
    s.len() == word.len() && forall|k: int| 0 <= k < s.len() ==> lower(#[trigger] s[k]) == word[k]
}

/// Whether an exponent begins at `at` and ends `s`: `e` or `E`, an optional
/// sign, at least one digit.
pub open spec fn is_exponent(s: Seq<char>, at: int) -> bool {
    let digits = if at + 1 < s.len() && (s[at + 1] == '+' || s[at + 1] == '-') {
        at + 2
    } else {
        at + 1
    };
    &&& 0 <= at < s.len()
    &&& s[at] == 'e' || s[at] == 'E'
    &&& digits < digits_end(s, digits)
    &&& digits_end(s, digits) == s.len()
}

/// Whether `s` from `from` on is a decimal number: digits with at most one
/// point among them, at least one digit in all, and an optional exponent.
pub open spec fn is_decimal(s: Seq<char>, from: int) -> bool {
    let whole = digits_end(s, from);
    let point = whole < s.len() && s[whole] == '.';
    let end = if point {
        digits_end(s, whole + 1)
    } else {
        whole
    };
    let count = if point {
        end - from - 1
    } else {
        end - from
    };
    count > 0 && (end == s.len() || is_exponent(s, end))
}

/// Whether `s` writes a floating-point number: an optional sign, then
/// `inf`, `infinity` or `nan` in any case, or a decimal number.
pub open spec fn is_float_text(s: Seq<char>) -> bool {
    let from: int = if s.len() > 0 && (s[0] == '+' || s[0] == '-') {
        1
    } else {
        0
    };
    let rest = s.skip(from);
    spells(rest, "inf"@) || spells(rest, "infinity"@) || spells(rest, "nan"@) || is_decimal(
        s,
        from,
    )
}

fn scan_digits(s: &[char], start: usize) -> (end: usize)
    requires
        start <= s.len(),
    ensures
        end == digits_end(s@, start as int),
        start <= end <= s.len(),
{
    let mut end: usize = start;
    while end < s.len() && '0' <= s[end] && s[end] <= '9'
        invariant
            start <= end <= s.len(),
            digits_end(s@, end as int) == digits_end(s@, start as int),
        decreases s.len() - end,
    {
        end += 1;
    }
    end
}

fn spells_word(s: &[char], from: usize, word: &str) -> (yes: bool)
    requires
        from <= s.len(),
    ensures
        yes == spells(s@.skip(from as int), word@),
{
    let letters = chars_of(word);
    if s.len() - from != letters.len() {
        return false;
    }
    let mut k: usize = 0;
    while k < letters.len()
        invariant
            from <= s.len(),
            s.len() - from == letters.len(),
            letters@ == word@,
            k <= letters.len(),
            forall|j: int| 0 <= j < k ==> lower(#[trigger] s@.skip(from as int)[j]) == word@[j],
        decreases letters.len() - k,
    {
        let c = s[from + k];
        let w = letters[k];
        let same = if 'A' <= c && c <= 'Z' {
            'a' <= w && w <= 'z' && c as u32 + 32 == w as u32
        } else {
            c == w
        };
        assert(s@.skip(from as int)[k as int] == c);
        assert(same == (lower(c) == w));
        if !same {
            return false;
        }
        k += 1;
    }
    true
}

/// Whether `s` writes a floating-point number.
pub fn is_float(s: &[char]) -> (yes: bool)
    ensures
        yes == is_float_text(s@),
{
    let from: usize = if s.len() > 0 && (s[0] == '+' || s[0] == '-') {
        1
    } else {
        0
    };
    if spells_word(s, from, "inf") || spells_word(s, from, "infinity") || spells_word(
        s,
        from,
        "nan",
    ) {
        return true;
    }
    let whole = scan_digits(s, from);
    let point = whole < s.len() && s[whole] == '.';
    let end = if point {
        scan_digits(s, whole + 1)
    } else {
        whole
    };
    let count = if point {
        end - from - 1
    } else {
        end - from
    };
    if count == 0 {
        return false;
    }
    if end == s.len() {
        return true;
    }
    if s[end] != 'e' && s[end] != 'E' {
        return false;
    }
    let digits = if end + 1 < s.len() && (s[end + 1] == '+' || s[end + 1] == '-') {
        end + 2
    } else {
        end + 1
    };
    let last = scan_digits(s, digits);
    digits < last && last == s.len()
}

} // verus!
