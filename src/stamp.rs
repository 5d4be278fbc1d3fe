//! Unix timestamps (whole seconds) and their decimal text in the ledger file.
use vstd::prelude::*;

verus! {

/// Is `c` one of the ASCII digits `0` to `9`?
pub open spec fn is_digit(c: char) -> bool {
    '0' <= c && c <= '9'
}

/// The value of a digit character.
pub open spec fn digit_value(c: char) -> int {
    c as int - '0' as int
}

/// The character of a digit `0 <= d < 10`.
pub open spec fn digit_char(d: int) -> char
    recommends
        0 <= d < 10,
{
    if d == 0 { '0' }
    else if d == 1 { '1' }
    else if d == 2 { '2' }
    else if d == 3 { '3' }
    else if d == 4 { '4' }
    else if d == 5 { '5' }
    else if d == 6 { '6' }
    else if d == 7 { '7' }
    else if d == 8 { '8' }
    else { '9' }
}

/// A non-empty run of digits.
pub open spec fn all_digits(s: Seq<char>) -> bool {
    s.len() > 0 && forall|i: int| 0 <= i < s.len() ==> is_digit(#[trigger] s[i])
}

/// The value of a run of digits, most significant first.
pub open spec fn digits_value(s: Seq<char>) -> int
    decreases s.len(),
{
    if s.len() == 0 {
        0
    } else {
        digits_value(s.drop_last()) * 10 + digit_value(s.last())
    }
}

/// The shortest decimal digits of `n`, most significant first.
pub open spec fn decimal_digits(n: nat) -> Seq<char>
    decreases n,
{
    if n < 10 {
        seq![digit_char(n as int)]
    } else {
        decimal_digits(n / 10).push(digit_char((n % 10) as int))
    }
}

/// The decimal text of an integer: an optional `-`, then its digits.
pub open spec fn int_text(v: int) -> Seq<char> {
    if v < 0 {
        seq!['-'] + decimal_digits((-v) as nat)
    } else {
        decimal_digits(v as nat)
    }
}

/// The integer that `s` spells: digits, with an optional leading `-`.
pub open spec fn text_int(s: Seq<char>) -> Option<int> {
    if s.len() > 0 && s[0] == '-' {
        if all_digits(s.drop_first()) {
            Some(-digits_value(s.drop_first()))
        } else {
            None
        }
    } else if all_digits(s) {
        Some(digits_value(s))
    } else {
        None
    }
}

/// Does `v` fit in an `i64`?
pub open spec fn fits_i64(v: int) -> bool {
    i64::MIN <= v <= i64::MAX
}

/// The timestamp that `s` spells, if it spells one that fits in an `i64`.
pub open spec fn parse_stamp_spec(s: Seq<char>) -> Option<i64> {
    match text_int(s) {
        Some(v) => if fits_i64(v) { Some(v as i64) } else { None },
        None => None,
    }
}

proof fn lemma_digit_char(d: int)
    requires
        0 <= d < 10,
    ensures
        is_digit(digit_char(d)),
        digit_value(digit_char(d)) == d,
{
}

proof fn lemma_decimal_digits(n: nat)
    ensures
        all_digits(decimal_digits(n)),
        digits_value(decimal_digits(n)) == n,
        decimal_digits(n)[0] != '-',
    decreases n,
{
    if n < 10 {
        lemma_digit_char(n as int);
        assert(decimal_digits(n).drop_last() =~= Seq::<char>::empty());
        assert(digits_value(decimal_digits(n).drop_last()) == 0);
    } else {
        lemma_decimal_digits(n / 10);
        lemma_digit_char((n % 10) as int);
        let s = decimal_digits(n);
        assert(s.drop_last() =~= decimal_digits(n / 10));
        assert forall|i: int| 0 <= i < s.len() implies is_digit(#[trigger] s[i]) by {
            if i < s.len() - 1 {
                assert(s[i] == decimal_digits(n / 10)[i]);
            }
        }
    }
}

/// Reading back the text of an integer gives the integer.
pub proof fn lemma_int_text_round_trip(v: int)
    ensures
        text_int(int_text(v)) == Some(v),
{
    if v < 0 {
        let n = (-v) as nat;
        lemma_decimal_digits(n);
        assert(int_text(v).drop_first() =~= decimal_digits(n));
    } else {
        lemma_decimal_digits(v as nat);
    }
}

proof fn lemma_digits_value_prefix(s: Seq<char>, i: int)
    requires
        all_digits(s),
        0 <= i <= s.len(),
    ensures
        digits_value(s.subrange(0, i)) <= digits_value(s),
        digits_value(s) >= 0,
    decreases s.len(),
{
    if s.len() == 1 {
        assert(s.drop_last() =~= Seq::<char>::empty());
        assert(digits_value(s.drop_last()) == 0);
        if i == 0 {
            assert(s.subrange(0, 0).len() == 0);
        } else {
            assert(s.subrange(0, i) =~= s);
        }
        assert(s.drop_last().len() == 0);
        assert(is_digit(s[0]));
    } else if i == s.len() {
        assert(s.subrange(0, i) =~= s);
        let t = s.drop_last();
        assert(all_digits(t));
        lemma_digits_value_prefix(t, 0);
        assert(is_digit(s[s.len() - 1]));
    } else {
        let t = s.drop_last();
        assert(all_digits(t));
        lemma_digits_value_prefix(t, i);
        assert(t.subrange(0, i) =~= s.subrange(0, i));
        assert(is_digit(s[s.len() - 1]));
    }
}

fn digit_of(d: u64) -> (c: char)
    requires
        d < 10,
    ensures
        c == digit_char(d as int),
{
    if d == 0 { '0' }
    else if d == 1 { '1' }
    else if d == 2 { '2' }
    else if d == 3 { '3' }
    else if d == 4 { '4' }
    else if d == 5 { '5' }
    else if d == 6 { '6' }
    else if d == 7 { '7' }
    else if d == 8 { '8' }
    else { '9' }
}

fn push_decimal(n: u64, out: &mut Vec<char>)
    ensures
        final(out)@ == old(out)@ + decimal_digits(n as nat),
    decreases n,
{
    if n >= 10 {
        push_decimal(n / 10, out);
    }
    out.push(digit_of(n % 10));
    assert(final(out)@ =~= old(out)@ + decimal_digits(n as nat));
}

/// Appends the decimal text of `t` to `out`.
pub fn push_stamp(t: i64, out: &mut Vec<char>)
    ensures
        final(out)@ == old(out)@ + int_text(t as int),
{
    if t < 0 {
        out.push('-');
        let m: u64 = if t == i64::MIN {
            9223372036854775808u64
        } else {
            (-t) as u64
        };
        push_decimal(m, out);
        assert(final(out)@ =~= old(out)@ + int_text(t as int));
    } else {
        push_decimal(t as u64, out);
    }
}

/// The timestamp spelled by `s[start..end]`: digits with an optional leading
/// `-`, within the range of an `i64`.
pub fn parse_stamp(s: &[char], start: usize, end: usize) -> (r: Option<i64>)
    requires
        start <= end <= s@.len(),
    ensures
        r == parse_stamp_spec(s@.subrange(start as int, end as int)),
{
    let ghost t = s@.subrange(start as int, end as int);
    let neg = start < end && s[start] == '-';
    let first: usize = if neg { start + 1 } else { start };
    let ghost body = s@.subrange(first as int, end as int);
    proof {
        if neg {
            assert(body =~= t.drop_first());
        } else {
            assert(body =~= t);
        }
    }
    if first == end {
        return None;
    }
    let limit: u64 = 9223372036854775808u64;
    let mut acc: u64 = 0;
    let mut i: usize = first;
    while i < end
        invariant
            first <= i <= end <= s@.len(),
            body == s@.subrange(first as int, end as int),
            t == s@.subrange(start as int, end as int),
            first < end,
            neg ==> body == t.drop_first() && t.len() > 0 && t[0] == '-',
            !neg ==> body == t && t[0] != '-',
            acc as int == digits_value(s@.subrange(first as int, i as int)),
            limit == 9223372036854775808u64,
            acc <= limit,
            forall|j: int| first <= j < i ==> is_digit(#[trigger] s@[j]),
        decreases end - i,
    {
        let c = s[i];
        if !('0' <= c && c <= '9') {
            assert(!is_digit(body[i - first]));
            assert(!all_digits(body));
            return None;
        }
        let d = (c as u32 - '0' as u32) as u64;
        assert(d as int == digit_value(c));
        proof {
            let p = s@.subrange(first as int, i + 1);
            assert(p.drop_last() =~= s@.subrange(first as int, i as int));
        }
        if acc > 922337203685477580u64 || acc * 10 + d > limit {
            proof {
                let p = s@.subrange(first as int, i + 1);
                assert(p =~= body.subrange(0, i + 1 - first));
                assert(p.last() == c);
                assert(digits_value(p) > limit);
                if all_digits(body) {
                    lemma_digits_value_prefix(body, i + 1 - first);
                }
            }
            return None;
        }
        acc = acc * 10 + d;
        i = i + 1;
    }
    proof {
        assert(s@.subrange(first as int, i as int) =~= body);
    }
    if neg {
        Some(if acc == limit { i64::MIN } else { -(acc as i64) })
    } else if acc == limit {
        None
    } else {
        Some(acc as i64)
    }
}

/// The text of an integer holds only digits and `-`.
pub proof fn lemma_int_text_chars(v: int)
    ensures
        forall|i: int| 0 <= i < int_text(v).len() ==> (#[trigger] int_text(v)[i] == '-' || is_digit(
            int_text(v)[i],
        )),
{
    if v < 0 {
        let n = (-v) as nat;
        lemma_decimal_digits(n);
        assert forall|i: int| 0 <= i < int_text(v).len() implies (#[trigger] int_text(v)[i] == '-'
            || is_digit(int_text(v)[i])) by {
            if i > 0 {
                assert(int_text(v)[i] == decimal_digits(n)[i - 1]);
            }
        }
    } else {
        lemma_decimal_digits(v as nat);
    }
}

} // verus!
