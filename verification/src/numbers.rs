//! Decimal rendering and the integer syntax of `u64::from_str_radix` and
//! `i128::from_str`.
use vstd::prelude::*;

verus! {

pub open spec fn digit_chars() -> Seq<char> {
    seq!['0', '1', '2', '3', '4', '5', '6', '7', '8', '9']
}

pub open spec fn digit_char(d: nat) -> char {
    digit_chars()[d as int]
}

/// `n` written in decimal (`{n}` with `Display`).
pub open spec fn decimal(n: nat) -> Seq<char>
    decreases n,
{
    if n < 10 {
        seq![digit_char(n)]
    } else {
        decimal(n / 10).push(digit_char(n % 10))
    }
}

/// The value of a digit in the given radix (10 or 16).
pub open spec fn digit_value(c: char, radix: nat) -> Option<nat> {
    if '0' <= c <= '9' {
        Some((c as u32 - 48) as nat)
    } else if radix == 16 && 'a' <= c <= 'f' {
        Some((c as u32 - 87) as nat)
    } else if radix == 16 && 'A' <= c <= 'F' {
        Some((c as u32 - 55) as nat)
    } else {
        None
    }
}

pub open spec fn all_digits(s: Seq<char>, radix: nat) -> bool {
    forall|i: int| 0 <= i < s.len() ==> (#[trigger] digit_value(s[i], radix)) is Some
}

pub open spec fn digits_value(s: Seq<char>, radix: nat) -> nat
    decreases s.len(),
{
    if s.len() == 0 {
        0
    } else {
        digits_value(s.drop_last(), radix) * radix + digit_value(s.last(), radix).unwrap_or(0)
    }
}

/// The digits after an optional leading `+` (a lone `+` keeps its sign).
pub open spec fn unsigned_body(s: Seq<char>) -> Seq<char> {
    if s.len() > 1 && s[0] == '+' { s.drop_first() } else { s }
}

/// `u64::from_str_radix(s, radix).ok()`.
pub open spec fn parse_u64(s: Seq<char>, radix: nat) -> Option<u64> {
    let body = unsigned_body(s);
    if body.len() > 0 && all_digits(body, radix) && digits_value(body, radix) <= u64::MAX {
        Some(digits_value(body, radix) as u64)
    } else {
        None
    }
}

/// `s.parse::<i128>().is_ok()`.
pub open spec fn parses_as_i128(s: Seq<char>) -> bool {
    if s.len() > 1 && s[0] == '-' {
        let body = s.drop_first();
        all_digits(body, 10) && digits_value(body, 10) <= 0x8000_0000_0000_0000_0000_0000_0000_0000
    } else {
        let body = unsigned_body(s);
        body.len() > 0 && all_digits(body, 10)
            && digits_value(body, 10) <= 0x7fff_ffff_ffff_ffff_ffff_ffff_ffff_ffff
    }
}

proof fn lemma_digits_value_grows(s: Seq<char>, radix: nat, i: int)
    requires
        0 <= i <= s.len(),
        radix >= 1,
    ensures
        digits_value(s.take(i), radix) <= digits_value(s, radix),
    decreases s.len() - i,
{
    if i < s.len() {
        lemma_digits_value_grows(s, radix, i + 1);
        let a = digits_value(s.take(i), radix);
        assert(s.take(i + 1).drop_last() == s.take(i));
        assert(a * radix >= a) by (nonlinear_arith)
            requires radix >= 1;
    } else {
        assert(s.take(i) == s);
    }
}

/// The value of the digits in `s`, or `None` where one is not a digit or
/// the value exceeds `bound`.
fn digits_value_exec(s: &[char], radix: u32, bound: u128) -> (r: Option<u128>)
    requires
        radix == 10 || radix == 16,
    ensures
        match r {
            Some(v) => all_digits(s@, radix as nat) && digits_value(s@, radix as nat) == v && v <= bound,
            None => !all_digits(s@, radix as nat) || digits_value(s@, radix as nat) > bound,
        },
{
    let mut v: u128 = 0;
    let mut i: usize = 0;
    proof { assert(s@.take(0) == Seq::<char>::empty()); }
    while i < s.len()
        invariant
            radix == 10 || radix == 16,
            i <= s@.len(),
            all_digits(s@.take(i as int), radix as nat),
            v == digits_value(s@.take(i as int), radix as nat),
            v <= bound,
        decreases s@.len() - i,
    {
        let c = s[i];
        let d: u32 = if '0' <= c && c <= '9' {
            (c as u32) - 48
        } else if radix == 16 && 'a' <= c && c <= 'f' {
            (c as u32) - 87
        } else if radix == 16 && 'A' <= c && c <= 'F' {
            (c as u32) - 55
        } else {
            proof { assert(digit_value(s@[i as int], radix as nat) is None); }
            return None;
        };
        proof {
            assert(s@.take(i + 1).drop_last() == s@.take(i as int));
            assert(s@.take(i + 1).last() == c);
            assert forall|j: int| 0 <= j < i + 1 implies (#[trigger] digit_value(s@.take(i + 1)[j], radix as nat)) is Some by {
                if j < i {
                    assert(s@.take(i + 1)[j] == s@.take(i as int)[j]);
                }
            }
        }
        let next = match v.checked_mul(radix as u128) {
            Some(m) => m.checked_add(d as u128),
            None => None,
        };
        match next {
            Some(n) if n <= bound => {
                v = n;
            },
            _ => {
                proof {
                    lemma_digits_value_grows(s@, radix as nat, i + 1);
                }
                return None;
            },
        }
        i += 1;
    }
    proof { assert(s@.take(s@.len() as int) == s@); }
    Some(v)
}

/// `u64::from_str_radix(s, radix).ok()`.
pub fn parse_u64_exec(s: &[char], radix: u32) -> (r: Option<u64>)
    requires
        radix == 10 || radix == 16,
    ensures
        r == parse_u64(s@, radix as nat),
{
    let start: usize = if s.len() > 1 && s[0] == '+' { 1 } else { 0 };
    let body = crate::text::slice_of(s, start, s.len());
    proof { assert(body@ == unsigned_body(s@)); }
    if body.len() == 0 {
        return None;
    }
    match digits_value_exec(&body, radix, 0xffff_ffff_ffff_ffff) {
        Some(v) => Some(v as u64),
        None => None,
    }
}

/// `s.parse::<i128>().is_ok()`.
pub fn parses_as_i128_exec(s: &[char]) -> (r: bool)
    ensures
        r == parses_as_i128(s@),
{
    if s.len() > 1 && s[0] == '-' {
        let body = crate::text::slice_of(s, 1, s.len());
        proof { assert(body@ == s@.drop_first()); }
        if body.len() == 0 {
            return false;
        }
        digits_value_exec(&body, 10, 0x8000_0000_0000_0000_0000_0000_0000_0000).is_some()
    } else {
        let start: usize = if s.len() > 1 && s[0] == '+' { 1 } else { 0 };
        let body = crate::text::slice_of(s, start, s.len());
        proof { assert(body@ == unsigned_body(s@)); }
        if body.len() == 0 {
            return false;
        }
        digits_value_exec(&body, 10, 0x7fff_ffff_ffff_ffff_ffff_ffff_ffff_ffff).is_some()
    }
}

/// `n` written in decimal.
pub fn decimal_exec(n: u128) -> (r: Vec<char>)
    ensures
        r@ == decimal(n as nat),
    decreases n,
{
    let digits: [char; 10] = ['0', '1', '2', '3', '4', '5', '6', '7', '8', '9'];
    proof { assert(digits@ == digit_chars()); }
    if n < 10 {
        let c = digits[n as usize];
        vec![c]
    } else {
        let mut r = decimal_exec(n / 10);
        let c = digits[(n % 10) as usize];
        r.push(c);
        r
    }
}

pub proof fn lemma_decimal_len(n: nat)
    ensures
        decimal(n).len() >= 1,
        n >= 10 ==> decimal(n).len() >= 2,
    decreases n,
{
    if n >= 10 {
        lemma_decimal_len(n / 10);
    }
}

/// Distinct numbers are written differently.
pub proof fn lemma_decimal_injective(a: nat, b: nat)
    requires
        decimal(a) == decimal(b),
    ensures
        a == b,
    decreases a,
{
    lemma_decimal_len(a);
    lemma_decimal_len(b);
    if a < 10 && b < 10 {
        assert(decimal(a)[0] == digit_char(a));
        assert(decimal(b)[0] == digit_char(b));
    } else if a >= 10 && b >= 10 {
        let da = decimal(a / 10);
        let db = decimal(b / 10);
        assert(decimal(a) == da.push(digit_char(a % 10)));
        assert(decimal(b) == db.push(digit_char(b % 10)));
        assert(decimal(a).last() == digit_char(a % 10));
        assert(decimal(b).last() == digit_char(b % 10));
        assert(decimal(a).drop_last() == da);
        assert(decimal(b).drop_last() == db);
        lemma_decimal_injective(a / 10, b / 10);
        assert(a % 10 == b % 10);
    } else if a < 10 {
        assert(decimal(a).len() == 1);
    } else {
        assert(decimal(b).len() == 1);
    }
}

} // verus!
