use vstd::prelude::*;

verus! {

/// The value of `c` as a digit in the given radix, as `char::to_digit` reads it:
/// `0`-`9`, then letters of either case from ten upwards.
pub open spec fn digit_value(c: char, radix: nat) -> Option<nat> {
    let v: int = if '0' <= c && c <= '9' {
        c as int - '0' as int
    } else if 'a' <= c && c <= 'z' {
        c as int - 'a' as int + 10
    } else if 'A' <= c && c <= 'Z' {
        c as int - 'A' as int + 10
    } else {
        radix as int
    };
    if 0 <= v < radix {
        Some(v as nat)
    } else {
        None
    }
}

/// Every character of `s` is a digit in the radix.
pub open spec fn all_digits(s: Seq<char>, radix: nat) -> bool {
    forall|i: int| 0 <= i < s.len() ==> (#[trigger] digit_value(s[i], radix)) is Some
}

/// The number that the digits of `s` spell, most significant first.
pub open spec fn digits_value(s: Seq<char>, radix: nat) -> nat
    decreases s.len(),
{
    if s.len() == 0 {
        0
    } else {
        let last = match digit_value(s.last(), radix) {
            Some(d) => d,
            None => 0,
        };
        digits_value(s.drop_last(), radix) * radix + last
    }
}

/// The digits of an unsigned number: the text without one leading `+`.
pub open spec fn unsigned_digits(s: Seq<char>) -> Seq<char> {
    if s.len() > 0 && s[0] == '+' {
        s.drop_first()
    } else {
        s
    }
}

/// What `u32::from_str_radix` gives for the text `s`: an optional `+`, then at
/// least one digit, and a value that fits in 32 bits.
pub open spec fn spec_parse_u32(s: Seq<char>, radix: nat) -> Option<u32> {
    let d = unsigned_digits(s);
    if d.len() > 0 && all_digits(d, radix) && digits_value(d, radix) <= u32::MAX {
        Some(digits_value(d, radix) as u32)
    } else {
        None
    }
}

/// The digit value of `c`, for a radix of at most 36.
pub fn digit_of(c: char, radix: u32) -> (d: Option<u32>)
    requires
        2 <= radix <= 36,
    ensures
        match d {
            Some(v) => digit_value(c, radix as nat) == Some(v as nat),
            None => digit_value(c, radix as nat) is None,
        },
{
    let v: u32 = if '0' <= c && c <= '9' {
        (c as u32) - ('0' as u32)
    } else if 'a' <= c && c <= 'z' {
        (c as u32) - ('a' as u32) + 10
    } else if 'A' <= c && c <= 'Z' {
        (c as u32) - ('A' as u32) + 10
    } else {
        radix
    };
    if v < radix {
        Some(v)
    } else {
        None
    }
}

proof fn lemma_value_grows(v: nat, radix: nat, d: nat)
    requires
        v > u32::MAX,
        radix >= 2,
    ensures
        v * radix + d > u32::MAX,
{
    assert(v * radix >= v) by (nonlinear_arith)
        requires
            radix >= 2,
    ;
}

/// Reads the unsigned number written in `s[start..end]` in the given radix,
/// with an optional leading `+`, as `u32::from_str_radix` does.
pub fn parse_u32(s: &[char], start: usize, end: usize, radix: u32) -> (r: Option<u32>)
    requires
        start <= end <= s@.len(),
        2 <= radix <= 36,
    ensures
        r == spec_parse_u32(s@.subrange(start as int, end as int), radix as nat),
{
    let ghost text = s@.subrange(start as int, end as int);
    let mut first = start;
    if start < end && s[start] == '+' {
        first = start + 1;
    }
    let ghost digits = s@.subrange(first as int, end as int);
    assert(unsigned_digits(text) =~= digits);
    if first == end {
        return None;
    }
    let limit: u64 = 0x1_0000_0000;
    let mut acc: u64 = 0;
    let mut i = first;
    while i < end
        invariant
            start <= first <= i <= end <= s@.len(),
            2 <= radix <= 36,
            digits == s@.subrange(first as int, end as int),
            text == s@.subrange(start as int, end as int),
            unsigned_digits(text) == digits,
            all_digits(s@.subrange(first as int, i as int), radix as nat),
            acc <= limit,
            limit == 0x1_0000_0000,
            acc < limit ==> acc == digits_value(s@.subrange(first as int, i as int), radix as nat),
            acc == limit ==> digits_value(s@.subrange(first as int, i as int), radix as nat)
                > u32::MAX,
        decreases end - i,
    {
        let ghost prefix = s@.subrange(first as int, i as int);
        let ghost next = s@.subrange(first as int, i + 1);
        assert(next.drop_last() =~= prefix);
        assert(next.last() == s@[i as int]);
        match digit_of(s[i], radix) {
            None => {
                assert(digits[i - first] == s@[i as int]);
                assert(digit_value(digits[i - first], radix as nat) is None);
                assert(!all_digits(digits, radix as nat));
                return None;
            },
            Some(d) => {
                let ghost old_value = digits_value(prefix, radix as nat);
                assert(digits_value(next, radix as nat) == old_value * radix + d);
                if acc == limit {
                    proof {
                        lemma_value_grows(old_value, radix as nat, d as nat);
                    }
                } else {
                    assert(acc * radix + d <= limit * 36 + 36) by (nonlinear_arith)
                        requires
                            acc < limit,
                            radix <= 36,
                            d < radix,
                    ;
                    let v = acc * (radix as u64) + (d as u64);
                    acc = if v < limit {
                        v
                    } else {
                        limit
                    };
                }
                assert forall|j: int| 0 <= j < next.len() implies (#[trigger] digit_value(
                    next[j],
                    radix as nat,
                )) is Some by {
                    if j < prefix.len() {
                        assert(next[j] == prefix[j]);
                    }
                }
            },
        }
        i = i + 1;
    }
    assert(s@.subrange(first as int, i as int) =~= digits);
    if acc < limit {
        Some(acc as u32)
    } else {
        None
    }
}

/// The lowercase character that writes the digit `v` (`0`-`9`, then `a`-`z`).
pub open spec fn lower_digit_char(v: nat) -> char {
    if v < 10 {
        (48 + v) as char
    } else {
        (87 + v) as char
    }
}

/// The uppercase character that writes the digit `v` (`0`-`9`, then `A`-`Z`).
pub open spec fn upper_digit_char(v: nat) -> char {
    if v < 10 {
        (48 + v) as char
    } else {
        (55 + v) as char
    }
}

/// A character is a digit of value `v` in a radix exactly when `v` is below
/// the radix and the character writes `v`, in lowercase or in uppercase:
/// letters of either case have the same value, and nothing else is a digit.
pub proof fn lemma_digit_value_chars(c: char, radix: nat, v: nat)
    requires
        2 <= radix <= 36,
    ensures
        digit_value(c, radix) == Some(v) <==> (v < radix && (c == lower_digit_char(v) || c
            == upper_digit_char(v))),
{
    if v < radix && v < 10 {
        assert(((48 + v) as char) as int == 48 + v);
    } else if v < radix {
        assert(((87 + v) as char) as int == 87 + v);
        assert(((55 + v) as char) as int == 55 + v);
    }
    if digit_value(c, radix) == Some(v) {
        assert(c as int == 48 + v || c as int == 87 + v || c as int == 55 + v);
        if c as int == 48 + v {
            assert(c == (48 + v) as char);
        } else if c as int == 87 + v {
            assert(c == (87 + v) as char);
        } else {
            assert(c == (55 + v) as char);
        }
    }
}

} // verus!
