//! The numbers, ranges and allocation statuses written in registry records.
use vstd::prelude::*;
use crate::numbers::{parse_u64, parse_u64_exec};
use crate::text::{chars_of, contains, lower, split, split_once, starts_with, trim};

verus! {

// ---------------------------------------------------------------------------
// Status
// ---------------------------------------------------------------------------

/// The allocation status of a record, by the start of its label (in ASCII
/// lower case); `Assigned` where no prefix matches.
pub open spec fn status_of(label: Seq<char>) -> Seq<char> {
    let l = lower(label);
    if starts_with(l, "unassigned"@) {
        "Unassigned"@
    } else if starts_with(l, "reserved for private"@) {
        "PrivateUse"@
    } else if starts_with(l, "reserved for experimental"@) {
        "Experimental"@
    } else if starts_with(l, "reserved"@) {
        "Reserved"@
    } else if starts_with(l, "private use"@) {
        "PrivateUse"@
    } else if starts_with(l, "experimental"@) {
        "Experimental"@
    } else {
        "Assigned"@
    }
}

/// The allocation status of a record with this label (see `status_of`).
pub fn status(label: &str) -> (r: &'static str)
    ensures
        r@ == status_of(label@),
{
    let chars = chars_of(label);
    let l = crate::text::lower_exec(&chars);
    if crate::text::starts_with_exec(&l, &chars_of("unassigned")) {
        "Unassigned"
    } else if crate::text::starts_with_exec(&l, &chars_of("reserved for private")) {
        "PrivateUse"
    } else if crate::text::starts_with_exec(&l, &chars_of("reserved for experimental")) {
        "Experimental"
    } else if crate::text::starts_with_exec(&l, &chars_of("reserved")) {
        "Reserved"
    } else if crate::text::starts_with_exec(&l, &chars_of("private use")) {
        "PrivateUse"
    } else if crate::text::starts_with_exec(&l, &chars_of("experimental")) {
        "Experimental"
    } else {
        "Assigned"
    }
}

// ---------------------------------------------------------------------------
// Numbers
// ---------------------------------------------------------------------------

/// A single number: `0x`/`0X` and hexadecimal digits, or decimal digits
/// (each after an optional `+`).
pub open spec fn number_plain(t: Seq<char>) -> Option<u64> {
    if starts_with(t, "0x"@) || starts_with(t, "0X"@) {
        parse_u64(t.skip(2), 16)
    } else {
        parse_u64(t, 10)
    }
}

/// Bytes written `a,b,c`, most significant first, each at most 255, after
/// the value `acc`.
pub open spec fn bytes_value(parts: Seq<Seq<char>>, acc: u64) -> Option<u64>
    decreases parts.len(),
{
    if parts.len() == 0 {
        Some(acc)
    } else {
        match number_plain(trim(parts[0])) {
            None => None,
            Some(b) => if b > 255 || acc * 256 + b > u64::MAX {
                None
            } else {
                bytes_value(parts.drop_first(), (acc * 256 + b) as u64)
            },
        }
    }
}

/// The number a value writes, trimmed: a single number, or comma-separated
/// bytes.
pub open spec fn number_of(value: Seq<char>) -> Option<u64> {
    let t = trim(value);
    if contains(t, ","@) { bytes_value(split(t, ","@), 0) } else { number_plain(t) }
}

fn number_plain_exec(t: &[char]) -> (r: Option<u64>)
    ensures
        r == number_plain(t@),
{
    if crate::text::starts_with_exec(t, &chars_of("0x")) || crate::text::starts_with_exec(t, &chars_of("0X")) {
        proof { reveal_strlit("0x"); reveal_strlit("0X"); }
        let hex = crate::text::slice_of(t, 2, t.len());
        proof { assert(hex@ == t@.skip(2)); }
        parse_u64_exec(&hex, 16)
    } else {
        parse_u64_exec(t, 10)
    }
}

/// The number a value writes (see `number_of`).
pub fn number(value: &str) -> (r: Option<u64>)
    ensures
        r == number_of(value@),
{
    let chars = chars_of(value);
    number_chars(&chars)
}

pub fn number_chars(value: &[char]) -> (r: Option<u64>)
    ensures
        r == number_of(value@),
{
    let t = crate::text::trim_exec(value);
    let comma = chars_of(",");
    proof { reveal_strlit(","); }
    if crate::text::find_exec(&t, &comma).is_some() {
        proof { crate::text::lemma_find_some(t@, comma@); }
        let parts = crate::text::split_exec(&t, &comma);
        let ghost pv = parts@.map_values(|v: Vec<char>| v@);
        let mut acc: u64 = 0;
        let mut i: usize = 0;
        proof { assert(pv.skip(0) == pv); }
        assert(bytes_value(pv, 0) == number_of(value@));
        while i < parts.len()
            invariant
                i <= parts@.len(),
                pv == parts@.map_values(|v: Vec<char>| v@),
                bytes_value(pv, 0) == number_of(value@),
                bytes_value(pv, 0) == bytes_value(pv.skip(i as int), acc),
            decreases parts@.len() - i,
        {
            proof {
                assert(pv.skip(i as int)[0] == parts@[i as int]@);
                assert(pv.skip(i as int).drop_first() == pv.skip(i + 1));
            }
            let piece = crate::text::trim_exec(&parts[i]);
            match number_plain_exec(&piece) {
                None => {
                    return None;
                },
                Some(b) => {
                    if b > 255 {
                        return None;
                    }
                    match acc.checked_mul(256) {
                        None => {
                            return None;
                        },
                        Some(m) => match m.checked_add(b) {
                            None => {
                                return None;
                            },
                            Some(n) => {
                                acc = n;
                            },
                        },
                    }
                },
            }
            i += 1;
        }
        Some(acc)
    } else {
        proof { crate::text::lemma_find_some(t@, comma@); }
        number_plain_exec(&t)
    }
}

// ---------------------------------------------------------------------------
// Ranges
// ---------------------------------------------------------------------------

/// A range without commas: a single number `n` (as `n..=n`), or `a-b`
/// with `a <= b`, where `b` is read as hexadecimal when only `a` has the
/// `0x` prefix.
pub open spec fn range_plain(value: Seq<char>) -> Option<(u64, u64)> {
    match number_of(value) {
        Some(n) => Some((n, n)),
        None => match split_once(value, "-"@) {
            None => None,
            Some((start, end)) => {
                let e = if starts_with(start, "0x"@) && !starts_with(end, "0x"@) {
                    parse_u64(trim(end), 16)
                } else {
                    number_of(end)
                };
                match (number_of(start), e) {
                    (Some(a), Some(b)) => if a <= b { Some((a, b)) } else { None },
                    _ => None,
                }
            },
        },
    }
}

/// Byte ranges `a,b,..` (each part a range, or `*` for 0..=255) after the
/// interval `lo..=hi`: once a part varies, every later part must cover a
/// whole byte.
#[verifier::opaque]
pub open spec fn range_bytes(parts: Seq<Seq<char>>, lo: u64, hi: u64) -> Option<(u64, u64)>
    decreases parts.len(),
{
    if parts.len() == 0 {
        Some((lo, hi))
    } else {
        let p = trim(parts[0]);
        match if p == "*"@ { Some((0u64, 255u64)) } else { range_plain(p) } {
            None => None,
            Some((a, b)) => if b > 255 || (lo != hi && (a != 0 || b != 255)) {
                None
            } else if lo * 256 + a > u64::MAX || hi * 256 + b > u64::MAX {
                None
            } else {
                range_bytes(parts.drop_first(), (lo * 256 + a) as u64, (hi * 256 + b) as u64)
            },
        }
    }
}

/// The interval of values that a record's value covers.
pub open spec fn range_of(value: Seq<char>) -> Option<(u64, u64)> {
    if contains(value, ","@) { range_bytes(split(value, ","@), 0, 0) } else { range_plain(value) }
}

proof fn lemma_range_plain_ordered(value: Seq<char>)
    ensures
        range_plain(value) matches Some((a, b)) ==> a <= b,
{
}

proof fn lemma_range_bytes_ordered(parts: Seq<Seq<char>>, lo: u64, hi: u64)
    requires
        lo <= hi,
    ensures
        range_bytes(parts, lo, hi) matches Some((a, b)) ==> a <= b,
    decreases parts.len(),
{
    reveal(range_bytes);
    if parts.len() > 0 {
        let p = trim(parts[0]);
        lemma_range_plain_ordered(p);
        match if p == "*"@ { Some((0u64, 255u64)) } else { range_plain(p) } {
            None => {},
            Some((a, b)) => {
                if !(b > 255 || (lo != hi && (a != 0 || b != 255))) && !(lo * 256 + a > u64::MAX || hi * 256 + b > u64::MAX) {
                    assert(lo * 256 <= hi * 256) by (nonlinear_arith)
                        requires lo <= hi;
                    lemma_range_bytes_ordered(parts.drop_first(), (lo * 256 + a) as u64, (hi * 256 + b) as u64);
                }
            },
        }
    }
}

proof fn lemma_range_bytes_step(parts: Seq<Seq<char>>, lo: u64, hi: u64)
    ensures
        parts.len() == 0 ==> range_bytes(parts, lo, hi) == Some((lo, hi)),
        parts.len() > 0 ==> range_bytes(parts, lo, hi) == {
            let p = trim(parts[0]);
            match if p == "*"@ { Some((0u64, 255u64)) } else { range_plain(p) } {
                None => None,
                Some((a, b)) => if b > 255 || (lo != hi && (a != 0 || b != 255)) {
                    None
                } else if lo * 256 + a > u64::MAX || hi * 256 + b > u64::MAX {
                    None
                } else {
                    range_bytes(parts.drop_first(), (lo * 256 + a) as u64, (hi * 256 + b) as u64)
                },
            }
        },
{
    reveal(range_bytes);
}

proof fn lemma_star_not_number()
    ensures
        number_plain("*"@) is None,
{
    reveal_strlit("*");
    reveal_strlit("0x");
    reveal_strlit("0X");
    assert(crate::numbers::digit_value('*', 10) is None);
}

/// A piece without a comma that is a single number is that one-point range.
proof fn lemma_plain_number_range(piece: Seq<char>)
    requires
        !piece.contains(','),
        number_plain(trim(piece)) is Some,
    ensures
        trim(piece) != "*"@,
        range_plain(trim(piece)) == Some((number_plain(trim(piece))->0, number_plain(trim(piece))->0)),
{
    let p = trim(piece);
    lemma_star_not_number();
    crate::text::lemma_trim_idempotent(piece);
    let w = crate::text::lemma_trim_split(piece);
    reveal_strlit(",");
    if contains(p, ","@) {
        let k = choose|k: int| crate::text::occurs_at(p, ","@, k);
        assert(p.subrange(k, k + 1)[0] == p[k]);
        assert(piece[w.0.len() + k] == p[k]);
    }
    assert(number_of(p) == number_plain(p));
}

/// Comma-separated bytes that form a number form the one-point byte range
/// of it, where the pieces read as ranges trim to the same text.
proof fn lemma_bytes_point_range(a: Seq<Seq<char>>, b: Seq<Seq<char>>, acc: u64)
    requires
        a.len() == b.len(),
        forall|i: int| 0 <= i < a.len() ==> trim(#[trigger] a[i]) == trim(b[i]),
        forall|i: int| 0 <= i < a.len() ==> !(#[trigger] a[i]).contains(','),
        bytes_value(a, acc) is Some,
    ensures
        range_bytes(b, acc, acc) == Some((bytes_value(a, acc)->0, bytes_value(a, acc)->0)),
    decreases a.len(),
{
    lemma_range_bytes_step(b, acc, acc);
    if a.len() > 0 {
        assert(trim(a[0]) == trim(b[0]));
        assert(!a[0].contains(','));
        lemma_plain_number_range(a[0]);
        let n = number_plain(trim(a[0]))->0;
        let next = (acc * 256 + n) as u64;
        assert forall|i: int| 0 <= i < a.drop_first().len() implies trim(#[trigger] a.drop_first()[i]) == trim(b.drop_first()[i]) by {
            assert(a.drop_first()[i] == a[i + 1]);
            assert(b.drop_first()[i] == b[i + 1]);
        }
        assert forall|i: int| 0 <= i < a.drop_first().len() implies !(#[trigger] a.drop_first()[i]).contains(',') by {
            assert(a.drop_first()[i] == a[i + 1]);
        }
        lemma_bytes_point_range(a.drop_first(), b.drop_first(), next);
    }
}

/// A value that writes a single number covers exactly that number: its
/// range is the one-point interval of it.
pub proof fn lemma_number_is_point_range(value: Seq<char>)
    requires
        number_of(value) is Some,
    ensures
        range_of(value) == Some((number_of(value)->0, number_of(value)->0)),
{
    reveal_strlit(",");
    let comma = ","@;
    assert(comma =~= seq![',']);
    if contains(value, comma) {
        let t = trim(value);
        let w = crate::text::lemma_trim_split(value);
        let k = choose|k: int| crate::text::occurs_at(value, comma, k);
        assert(value.subrange(k, k + 1)[0] == value[k]);
        let ww0 = w.0;
        let ww1 = w.1;
        assert(value[k] == ',');
        // The comma is not white space, so it lies in the trimmed text.
        if k < ww0.len() {
            assert(value[k] == ww0[k]);
            assert(crate::text::is_white(ww0[k]));
        } else if k >= ww0.len() + t.len() {
            assert(value[k] == ww1[k - ww0.len() - t.len()]);
            assert(crate::text::is_white(ww1[k - ww0.len() - t.len()]));
        }
        assert(t[k - ww0.len()] == ',');
        assert(crate::text::occurs_at(t, comma, k - ww0.len())) by {
            assert(t.subrange(k - ww0.len(), k - ww0.len() + 1) =~= comma);
        }
        assert(contains(t, comma));
        assert(number_of(value) == bytes_value(split(t, comma), 0));
        assert(!ww0.contains(',')) by {
            if ww0.contains(',') {
                let j = choose|j: int| 0 <= j < ww0.len() && ww0[j] == ',';
                assert(crate::text::is_white(ww0[j]));
            }
        }
        assert(!ww1.contains(',')) by {
            if ww1.contains(',') {
                let j = choose|j: int| 0 <= j < ww1.len() && ww1[j] == ',';
                assert(crate::text::is_white(ww1[j]));
            }
        }
        let a = split(t, comma);
        crate::text::lemma_split_pieces(t, ',');
        crate::text::lemma_split_suffix(t, ww1, ',');
        let x = split(t + ww1, comma);
        crate::text::lemma_split_prefix(ww0, t + ww1, ',');
        assert(value =~= ww0 + (t + ww1));
        let b = split(value, comma);
        assert(b == seq![ww0 + x[0]] + x.drop_first());
        let e = Seq::<char>::empty();
        assert(crate::text::all_white(e));
        assert forall|i: int| 0 <= i < a.len() implies trim(#[trigger] a[i]) == trim(b[i]) by {
            if i == 0 && a.len() == 1 {
                assert(b[0] == ww0 + (a[0] + ww1));
                assert(ww0 + (a[0] + ww1) =~= ww0 + a[0] + ww1);
                crate::text::lemma_trim_pad(ww0, a[0], ww1);
            } else if i == 0 {
                assert(x[0] == a[0]);
                assert(b[0] == ww0 + a[0]);
                assert(ww0 + a[0] =~= ww0 + a[0] + e);
                crate::text::lemma_trim_pad(ww0, a[0], e);
            } else if i == a.len() - 1 {
                assert(b[i] == x[i]);
                assert(x[i] == x.last());
                assert(a[i] == a.last());
                assert(x[i] =~= e + a[i] + ww1);
                crate::text::lemma_trim_pad(e, a[i], ww1);
            } else {
                assert(b[i] == x[i]);
                assert(x[i] == a[i]);
            }
        }
        assert forall|i: int| 0 <= i < a.len() implies !(#[trigger] a[i]).contains(',') by {}
        lemma_bytes_point_range(a, b, 0);
    }
}

fn range_plain_exec(value: &[char]) -> (r: Option<(u64, u64)>)
    ensures
        r == range_plain(value@),
{
    if let Some(n) = number_chars(value) {
        return Some((n, n));
    }
    let dash = chars_of("-");
    match crate::text::split_once_exec(value, &dash) {
        None => None,
        Some((start, end)) => {
            let x = chars_of("0x");
            let e = if crate::text::starts_with_exec(&start, &x) && !crate::text::starts_with_exec(&end, &x) {
                let t = crate::text::trim_exec(&end);
                parse_u64_exec(&t, 16)
            } else {
                number_chars(&end)
            };
            let e = match e {
                None => {
                    return None;
                },
                Some(e) => e,
            };
            match number_chars(&start) {
                None => None,
                Some(a) => if a <= e { Some((a, e)) } else { None },
            }
        },
    }
}

/// The interval of values that a record's value covers (see `range_of`);
/// its start is never above its end.
pub fn range(value: &str) -> (r: Option<(u64, u64)>)
    ensures
        r == range_of(value@),
        r matches Some((a, b)) ==> a <= b,
        // A single number is its own one-point range.
        number_of(value@) matches Some(n) ==> r == Some((n, n)),
{
    proof {
        if number_of(value@) is Some {
            lemma_number_is_point_range(value@);
        }
    }
    let chars = chars_of(value);
    range_chars(&chars)
}

pub fn range_chars(value: &[char]) -> (r: Option<(u64, u64)>)
    ensures
        r == range_of(value@),
        r matches Some((a, b)) ==> a <= b,
{
    let comma = chars_of(",");
    proof { reveal_strlit(","); }
    if crate::text::find_exec(value, &comma).is_none() {
        proof {
            crate::text::lemma_find_some(value@, comma@);
            lemma_range_plain_ordered(value@);
        }
        return range_plain_exec(value);
    }
    proof {
        crate::text::lemma_find_some(value@, comma@);
        lemma_range_bytes_ordered(split(value@, comma@), 0, 0);
    }
    let star = chars_of("*");
    let parts = crate::text::split_exec(value, &comma);
    let ghost pv = parts@.map_values(|v: Vec<char>| v@);
    let mut lo: u64 = 0;
    let mut hi: u64 = 0;
    let mut i: usize = 0;
    proof { assert(pv.skip(0) == pv); }
    assert(range_bytes(pv, 0, 0) == range_of(value@));
    while i < parts.len()
        invariant
            i <= parts@.len(),
            range_bytes(pv, 0, 0) == range_of(value@),
            star@ == "*"@,
            pv == parts@.map_values(|v: Vec<char>| v@),
            range_bytes(pv, 0, 0) == range_bytes(pv.skip(i as int), lo, hi),
        decreases parts@.len() - i,
    {
        proof {
            assert(pv.skip(i as int)[0] == parts@[i as int]@);
            assert(pv.skip(i as int).drop_first() == pv.skip(i + 1));
            lemma_range_bytes_step(pv.skip(i as int), lo, hi);
        }
        let p = crate::text::trim_exec(&parts[i]);
        let part = if crate::text::chars_eq(&p, &star) { Some((0u64, 255u64)) } else { range_plain_exec(&p) };
        let (a, b) = match part {
            None => {
                return None;
            },
            Some(ab) => ab,
        };
        if b > 255 || (lo != hi && (a != 0 || b != 255)) {
            return None;
        }
        let nlo = match lo.checked_mul(256) {
            Some(m) => m.checked_add(a),
            None => None,
        };
        let nhi = match hi.checked_mul(256) {
            Some(m) => m.checked_add(b),
            None => None,
        };
        match (nlo, nhi) {
            (Some(x), Some(y)) => {
                lo = x;
                hi = y;
            },
            _ => {
                return None;
            },
        }
        i += 1;
    }
    proof { lemma_range_bytes_step(pv.skip(i as int), lo, hi); }
    Some((lo, hi))
}

} // verus!
