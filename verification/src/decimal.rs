//! Decimal numerals: reading them the way Rust's integer `FromStr` does, and
//! writing them the way integer `Display` does.
use vstd::prelude::*;

use crate::text::char_vec;

verus! {

/// An ASCII decimal digit.
pub open spec fn is_digit(c: char) -> bool {
    '0' <= c && c <= '9'
}

/// The value of a decimal digit character.
pub open spec fn digit_value(c: char) -> int {
    (c as int) - ('0' as int)
}

/// Every character of `s` is a decimal digit.
pub open spec fn all_digits(s: Seq<char>) -> bool {
    forall|i: int| 0 <= i < s.len() ==> is_digit(#[trigger] s[i])
}

/// The number that a string of digits denotes, most significant digit first.
pub open spec fn digits_value(s: Seq<char>) -> int
    decreases s.len(),
{
    if s.len() == 0 {
        0
    } else {
        digits_value(s.drop_last()) * 10 + digit_value(s.last())
    }
}

/// What an unsigned integer numeral denotes: an optional `+` followed by one
/// or more decimal digits. `None` when the text is not such a numeral.
pub open spec fn unsigned_numeral(s: Seq<char>) -> Option<int> {
    let body = if s.len() > 0 && s[0] == '+' { s.drop_first() } else { s };
    if body.len() > 0 && all_digits(body) {
        Some(digits_value(body))
    } else {
        None
    }
}

/// What a signed integer numeral denotes: an optional `+` or `-` followed by
/// one or more decimal digits.
pub open spec fn signed_numeral(s: Seq<char>) -> Option<int> {
    if s.len() > 0 && s[0] == '-' {
        let body = s.drop_first();
        if body.len() > 0 && all_digits(body) {
            Some(-digits_value(body))
        } else {
            None
        }
    } else {
        unsigned_numeral(s)
    }
}

/// The result of reading `s` as a `u64`: the numeral's value when it fits.
pub open spec fn u64_of(s: Seq<char>) -> Option<u64> {
    match unsigned_numeral(s) {
        Some(v) => if v <= u64::MAX { Some(v as u64) } else { None },
        None => None,
    }
}

/// The result of reading `s` as an `i64`: the numeral's value when it fits.
pub open spec fn i64_of(s: Seq<char>) -> Option<i64> {
    match signed_numeral(s) {
        Some(v) => if i64::MIN <= v <= i64::MAX { Some(v as i64) } else { None },
        None => None,
    }
}

/// The result of reading `s` as a `usize`.
pub open spec fn usize_of(s: Seq<char>) -> Option<usize> {
    match unsigned_numeral(s) {
        Some(v) => if v <= usize::MAX { Some(v as usize) } else { None },
        None => None,
    }
}

/// The character of a digit value below ten.
pub open spec fn digit_char(d: nat) -> char {
    if d == 0 { '0' }
    else if d == 1 { '1' }
    else if d == 2 { '2' }
    else if d == 3 { '3' }
    else if d == 4 { '4' }
    else if d == 5 { '5' }
    else if d == 6 { '6' }
    else if d == 7 { '7' }
    else if d == 8 { '8' }
    else { '9' }
}

/// The decimal representation of `n`, without sign or leading zeros.
pub open spec fn decimal(n: nat) -> Seq<char>
    decreases n,
{
    if n < 10 {
        seq![digit_char(n)]
    } else {
        decimal(n / 10).push(digit_char(n % 10))
    }
}

proof fn lemma_digits_value_nonneg(s: Seq<char>)
    requires
        all_digits(s),
    ensures
        digits_value(s) >= 0,
    decreases s.len(),
{
    if s.len() > 0 {
        assert(all_digits(s.drop_last())) by {
            assert forall|i: int| 0 <= i < s.drop_last().len() implies is_digit(
                #[trigger] s.drop_last()[i],
            ) by {
                assert(is_digit(s[i]));
            }
        }
        lemma_digits_value_nonneg(s.drop_last());
        assert(is_digit(s[s.len() - 1]));
    }
}

/// A prefix of a digit string never denotes more than the whole string.
proof fn lemma_digits_prefix_le(s: Seq<char>, k: int)
    requires
        all_digits(s),
        0 <= k <= s.len(),
    ensures
        digits_value(s.take(k)) <= digits_value(s),
    decreases s.len() - k,
{
    if k < s.len() {
        lemma_digits_prefix_le(s, k + 1);
        let t = s.take(k + 1);
        assert(t.drop_last() =~= s.take(k));
        assert(all_digits(s.take(k))) by {
            assert forall|i: int| 0 <= i < s.take(k).len() implies is_digit(
                #[trigger] s.take(k)[i],
            ) by {
                assert(is_digit(s[i]));
            }
        }
        lemma_digits_value_nonneg(s.take(k));
        assert(is_digit(s[k]));
    } else {
        assert(s.take(k) =~= s);
    }
}

/// Reads the digits `cs[start..]` as an unsigned number that fits a `u64`.
fn digits_to_u64(cs: &Vec<char>, start: usize) -> (r: Option<u64>)
    requires
        start <= cs.len(),
    ensures
        r == (if start < cs.len() && all_digits(cs@.skip(start as int)) && digits_value(
            cs@.skip(start as int),
        ) <= u64::MAX {
            Some(digits_value(cs@.skip(start as int)) as u64)
        } else {
            None::<u64>
        }),
{
    let ghost body = cs@.skip(start as int);
    if start == cs.len() {
        return None;
    }
    let mut acc: u64 = 0;
    let mut i: usize = start;
    while i < cs.len()
        invariant
            start <= i <= cs.len(),
            body == cs@.skip(start as int),
            all_digits(body.take(i - start)),
            acc == digits_value(body.take(i - start)),
        decreases cs.len() - i,
    {
        let c = cs[i];
        if !('0' <= c && c <= '9') {
            assert(!is_digit(body[i - start]));
            return None;
        }
        let d: u64 = (c as u32 - '0' as u32) as u64;
        let ghost next = body.take(i - start + 1);
        assert(next.drop_last() =~= body.take(i - start));
        assert(all_digits(next)) by {
            assert forall|j: int| 0 <= j < next.len() implies is_digit(#[trigger] next[j]) by {
                if j < next.len() - 1 {
                    assert(next[j] == body.take(i - start)[j]);
                }
            }
        }
        if acc > (u64::MAX - d) / 10 {
            proof {
                assert(digits_value(next) > u64::MAX);
                if all_digits(body) {
                    lemma_digits_prefix_le(body, i - start + 1);
                }
            }
            return None;
        }
        acc = acc * 10 + d;
        i = i + 1;
    }
    assert(body.take(i - start) =~= body);
    Some(acc)
}

/// Reads a `u64` from decimal text as `u64::from_str` does: an optional `+`,
/// then digits, with a value that fits. `None` where `from_str` fails.
pub fn parse_u64(s: &str) -> (r: Option<u64>)
    ensures
        r == u64_of(s@),
{
    let cs = char_vec(s);
    parse_u64_chars(&cs)
}

/// `parse_u64` on text given as its characters.
pub fn parse_u64_chars(cs: &Vec<char>) -> (r: Option<u64>)
    ensures
        r == u64_of(cs@),
{
    let ghost s = cs@;
    let start: usize = if cs.len() > 0 && cs[0] == '+' { 1 } else { 0 };
    let r = digits_to_u64(cs, start);
    proof {
        let body = if s.len() > 0 && s[0] == '+' { s.drop_first() } else { s };
        assert(cs@.skip(start as int) =~= body);
        if body.len() > 0 && all_digits(body) {
            lemma_digits_value_nonneg(body);
        }
    }
    r
}

/// Reads an `i64` from decimal text as `i64::from_str` does: an optional `+`
/// or `-`, then digits, with a value in range. `None` where `from_str` fails.
pub fn parse_i64(s: &str) -> (r: Option<i64>)
    ensures
        r == i64_of(s@),
{
    let cs = char_vec(s);
    if cs.len() > 0 && cs[0] == '-' {
        let m = digits_to_u64(&cs, 1);
        proof {
            assert(cs@.skip(1) =~= s@.drop_first());
            if s@.drop_first().len() > 0 && all_digits(s@.drop_first()) {
                lemma_digits_value_nonneg(s@.drop_first());
            }
        }
        match m {
            Some(m) => {
                if m <= 9223372036854775807u64 {
                    Some(-(m as i64))
                } else if m == 9223372036854775808u64 {
                    Some(i64::MIN)
                } else {
                    None
                }
            },
            None => None,
        }
    } else {
        let start: usize = if cs.len() > 0 && cs[0] == '+' { 1 } else { 0 };
        let m = digits_to_u64(&cs, start);
        proof {
            let body = if s@.len() > 0 && s@[0] == '+' { s@.drop_first() } else { s@ };
            assert(cs@.skip(start as int) =~= body);
            if body.len() > 0 && all_digits(body) {
                lemma_digits_value_nonneg(body);
            }
        }
        match m {
            Some(m) => if m <= 9223372036854775807u64 { Some(m as i64) } else { None },
            None => None,
        }
    }
}

/// Reads a `usize` from decimal text as `usize::from_str` does.
pub fn parse_usize(s: &str) -> (r: Option<usize>)
    ensures
        r == usize_of(s@),
{
    proof {
        lemma_unsigned_numeral_nonneg(s@);
    }
    match parse_u64(s) {
        Some(m) => if m <= usize::MAX as u64 { Some(m as usize) } else { None },
        None => None,
    }
}

/// The one-character text of a digit value below ten.
fn digit_str(d: u64) -> (r: &'static str)
    requires
        d < 10,
    ensures
        r@ == seq![digit_char(d as nat)],
{
    proof {
        reveal_strlit("0");
        reveal_strlit("1");
        reveal_strlit("2");
        reveal_strlit("3");
        reveal_strlit("4");
        reveal_strlit("5");
        reveal_strlit("6");
        reveal_strlit("7");
        reveal_strlit("8");
        reveal_strlit("9");
    }
    if d == 0 { "0" }
    else if d == 1 { "1" }
    else if d == 2 { "2" }
    else if d == 3 { "3" }
    else if d == 4 { "4" }
    else if d == 5 { "5" }
    else if d == 6 { "6" }
    else if d == 7 { "7" }
    else if d == 8 { "8" }
    else { "9" }
}

/// Appends the decimal representation of `n` to `out`.
pub fn push_decimal(out: &mut String, n: u64)
    ensures
        final(out)@ == old(out)@ + decimal(n as nat),
    decreases n,
{
    if n >= 10 {
        push_decimal(out, n / 10);
    }
    out.append(digit_str(n % 10));
    assert(decimal(n as nat) =~= (if n < 10 { seq![digit_char(n as nat)] } else {
        decimal((n / 10) as nat).push(digit_char((n % 10) as nat))
    }));
}

/// The decimal text of `n`, as `n.to_string()` writes it.
pub fn u64_to_decimal(n: u64) -> (r: String)
    ensures
        r@ == decimal(n as nat),
{
    let mut out = String::new();
    push_decimal(&mut out, n);
    assert(out@ =~= decimal(n as nat));
    out
}

proof fn lemma_digit_char(d: nat)
    requires
        d < 10,
    ensures
        is_digit(digit_char(d)),
        digit_value(digit_char(d)) == d,
{
}

proof fn lemma_unsigned_numeral_nonneg(s: Seq<char>)
    ensures
        unsigned_numeral(s) matches Some(v) ==> v >= 0,
{
    let body = if s.len() > 0 && s[0] == '+' { s.drop_first() } else { s };
    if body.len() > 0 && all_digits(body) {
        lemma_digits_value_nonneg(body);
    }
}

proof fn lemma_decimal_digits(n: nat)
    ensures
        all_digits(decimal(n)),
        decimal(n).len() > 0,
        decimal(n)[0] != '+',
        digits_value(decimal(n)) == n,
    decreases n,
{
    lemma_digit_char(n % 10);
    if n < 10 {
        assert(decimal(n).drop_last() =~= Seq::<char>::empty());
        assert(digits_value(Seq::<char>::empty()) == 0);
        assert(decimal(n).last() == digit_char(n));
    } else {
        lemma_decimal_digits(n / 10);
        let s = decimal(n);
        assert(s.drop_last() =~= decimal(n / 10));
        assert forall|i: int| 0 <= i < s.len() implies is_digit(#[trigger] s[i]) by {
            if i < s.len() - 1 {
                assert(s[i] == decimal(n / 10)[i]);
            }
        }
        assert(s[0] == decimal(n / 10)[0]);
        assert(s.last() == digit_char(n % 10));
        assert(digits_value(s) == digits_value(decimal(n / 10)) * 10 + digit_value(s.last()));
    }
}

/// Reading back what `u64_to_decimal` writes gives the number again.
pub proof fn lemma_decimal_round_trip(n: u64)
    ensures
        u64_of(decimal(n as nat)) == Some(n),
        i64_of(decimal(n as nat)) == (if n <= i64::MAX { Some(n as i64) } else { None::<i64> }),
{
    lemma_decimal_digits(n as nat);
}

} // verus!
