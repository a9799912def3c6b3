//! Decimal digits: parsing unsigned integers the way `u64::from_str` does,
//! and rendering them the way `Display` does.
use vstd::prelude::*;

verus! {

/// `c` is an ASCII decimal digit.
pub open spec fn is_digit(c: char) -> bool {
    '0' <= c && c <= '9'
}

/// Value of an ASCII digit.
pub open spec fn digit_value(c: char) -> int {
    (c as u32) - ('0' as u32)
}

/// Value of a string of decimal digits, most significant first.
pub open spec fn digits_value(d: Seq<char>) -> int
    decreases d.len(),
{
    if d.len() == 0 {
        0
    } else {
        digits_value(d.drop_last()) * 10 + digit_value(d.last())
    }
}

/// The text after an optional leading `+`.
pub open spec fn unsigned_digits(s: Seq<char>) -> Seq<char> {
    if s.len() > 0 && s[0] == '+' {
        s.drop_first()
    } else {
        s
    }
}

/// Every character is an ASCII digit.
pub open spec fn all_digits(d: Seq<char>) -> bool {
    forall|i: int| 0 <= i < d.len() ==> is_digit(#[trigger] d[i])
}

/// What `u64::from_str` gives: an optional leading `+`, then one or more
/// ASCII digits whose value fits in 64 bits.
pub open spec fn parse_u64_spec(s: Seq<char>) -> Option<u64> {
    let d = unsigned_digits(s);
    if d.len() == 0 || !all_digits(d) {
        None
    } else if digits_value(d) > u64::MAX {
        None
    } else {
        Some(digits_value(d) as u64)
    }
}

pub proof fn lemma_digits_value_nonneg(d: Seq<char>)
    requires
        forall|i: int| 0 <= i < d.len() ==> is_digit(#[trigger] d[i]),
    ensures
        digits_value(d) >= 0,
    decreases d.len(),
{
    if d.len() > 0 {
        lemma_digits_value_nonneg(d.drop_last());
    }
}

/// A longer all-digit string is worth at least as much as its prefix.
pub proof fn lemma_digits_value_prefix(d: Seq<char>, k: int)
    requires
        0 <= k <= d.len(),
        forall|i: int| 0 <= i < d.len() ==> is_digit(#[trigger] d[i]),
    ensures
        digits_value(d.take(k)) <= digits_value(d),
    decreases d.len(),
{
    if k < d.len() {
        lemma_digits_value_prefix(d.drop_last(), k);
        assert(d.drop_last().take(k) =~= d.take(k));
        lemma_digits_value_nonneg(d.drop_last());
        assert(digits_value(d) == digits_value(d.drop_last()) * 10 + digit_value(d.last()));
    } else {
        assert(d.take(k) =~= d);
    }
}

/// Parses `s[start..end]` as `u64::from_str` does.
pub fn parse_u64_range(s: &Vec<char>, start: usize, end: usize) -> (r: Option<u64>)
    requires
        start <= end <= s.len(),
    ensures
        r == parse_u64_spec(s@.subrange(start as int, end as int)),
{
    let ghost t = s@.subrange(start as int, end as int);
    let mut i = start;
    if i < end && s[i] == '+' {
        i = i + 1;
    }
    let ghost d = unsigned_digits(t);
    assert(d =~= s@.subrange(i as int, end as int));
    if i == end {
        return None;
    }
    let first = i;
    let mut v: u64 = 0;
    while i < end
        invariant
            first <= i <= end <= s.len(),
            d =~= s@.subrange(first as int, end as int),
            t == s@.subrange(start as int, end as int),
            d == unsigned_digits(t),
            forall|k: int| 0 <= k < i - first ==> is_digit(#[trigger] d[k]),
            v == digits_value(d.take(i - first)),
        decreases end - i,
    {
        let c = s[i];
        if !('0' <= c && c <= '9') {
            assert(d[i - first] == s@[i as int]);
            assert(!is_digit(d[i - first]));
            assert(parse_u64_spec(t) is None);
            return None;
        }
        let dv = (c as u32 - '0' as u32) as u64;
        assert(d.take(i - first + 1).drop_last() =~= d.take(i - first));
        let m = v.checked_mul(10);
        match m {
            None => {
                proof {
                    assert(d[i - first] == s@[i as int]);
                    assert(digit_value(d[i - first]) >= 0);
                    assert(d.take(i - first + 1).last() == d[i - first]);
                    assert(digits_value(d.take(i - first + 1)) == v * 10 + digit_value(d[i - first]));
                    assert(digits_value(d.take(i - first + 1)) > u64::MAX);
                    if all_digits(d) {
                        lemma_digits_value_prefix(d, i - first + 1);
                    }
                    assert(parse_u64_spec(t) is None);
                }
                return None;
            }
            Some(m) => {
                match m.checked_add(dv) {
                    None => {
                        proof {
                            assert(d[i - first] == s@[i as int]);
                            assert(d.take(i - first + 1).last() == d[i - first]);
                            assert(digits_value(d.take(i - first + 1)) == v * 10 + digit_value(d[i - first]));
                            assert(digits_value(d.take(i - first + 1)) > u64::MAX);
                            if all_digits(d) {
                                lemma_digits_value_prefix(d, i - first + 1);
                            }
                        }
                        assert(parse_u64_spec(t) is None);
                        return None;
                    }
                    Some(n) => {
                        assert(d[i - first] == s@[i as int]);
                        assert(d.take(i - first + 1).last() == d[i - first]);
                        v = n;
                    }
                }
            }
        }
        i = i + 1;
    }
    assert(d.take(d.len() as int) =~= d);
    Some(v)
}

/// Decimal rendering of `n`, as `Display` writes it.
pub open spec fn decimal(n: nat) -> Seq<char>
    decreases n,
{
    if n < 10 {
        seq![((n + 48) as u32) as char]
    } else {
        decimal(n / 10).push((((n % 10) + 48) as u32) as char)
    }
}

/// Appends the decimal rendering of `n` to `out`.
pub fn push_decimal(out: &mut String, n: usize)
    ensures
        final(out)@ == old(out)@ + decimal(n as nat),
    decreases n,
{
    if n >= 10 {
        push_decimal(out, n / 10);
    }
    let d = (n % 10) as u8;
    let c = (d + 48) as char;
    crate::text::push_char(out, c);
    assert(final(out)@ =~= old(out)@ + decimal(n as nat));
}

} // verus!
