//! Character-level text operations over `Seq<char>`, with executable
//! counterparts on character vectors.
use vstd::prelude::*;

verus! {

// ---------------------------------------------------------------------------
// Specifications
// ---------------------------------------------------------------------------

pub open spec fn is_ascii_digit(c: char) -> bool {
    '0' <= c <= '9'
}

pub open spec fn is_ascii_upper(c: char) -> bool {
    'A' <= c <= 'Z'
}

pub open spec fn is_ascii_lower(c: char) -> bool {
    'a' <= c <= 'z'
}

pub open spec fn is_ascii_alnum(c: char) -> bool {
    is_ascii_digit(c) || is_ascii_upper(c) || is_ascii_lower(c)
}

/// `char::is_whitespace`: the Unicode `White_Space` property.
pub open spec fn is_white(c: char) -> bool {
    ||| '\t' <= c <= '\r'
    ||| c == ' '
    ||| c == '\u{85}'
    ||| c == '\u{a0}'
    ||| c == '\u{1680}'
    ||| '\u{2000}' <= c <= '\u{200a}'
    ||| c == '\u{2028}'
    ||| c == '\u{2029}'
    ||| c == '\u{202f}'
    ||| c == '\u{205f}'
    ||| c == '\u{3000}'
}

pub open spec fn lower_char(c: char) -> char {
    if is_ascii_upper(c) { ((c as u32) + 32) as char } else { c }
}

pub open spec fn upper_char(c: char) -> char {
    if is_ascii_lower(c) { ((c as u32) - 32) as char } else { c }
}

/// `str::to_ascii_lowercase`.
pub open spec fn lower(s: Seq<char>) -> Seq<char> {
    s.map_values(|c: char| lower_char(c))
}

/// `str::to_ascii_uppercase`.
pub open spec fn upper(s: Seq<char>) -> Seq<char> {
    s.map_values(|c: char| upper_char(c))
}

pub open spec fn trim_start(s: Seq<char>) -> Seq<char>
    decreases s.len(),
{
    if s.len() > 0 && is_white(s[0]) { trim_start(s.drop_first()) } else { s }
}

pub open spec fn trim_end(s: Seq<char>) -> Seq<char>
    decreases s.len(),
{
    if s.len() > 0 && is_white(s.last()) { trim_end(s.drop_last()) } else { s }
}

/// `str::trim`.
pub open spec fn trim(s: Seq<char>) -> Seq<char> {
    trim_end(trim_start(s))
}

pub open spec fn starts_with(s: Seq<char>, p: Seq<char>) -> bool {
    p.len() <= s.len() && s.take(p.len() as int) == p
}

/// `p` occurs in `s` at position `i`.
pub open spec fn occurs_at(s: Seq<char>, p: Seq<char>, i: int) -> bool {
    0 <= i && i + p.len() <= s.len() && s.subrange(i, i + p.len()) == p
}

/// The position of the first occurrence of `p` in `s`.
#[verifier::opaque]
pub open spec fn find(s: Seq<char>, p: Seq<char>) -> Option<int> {
    if exists|i: int| occurs_at(s, p, i) {
        Some(choose|i: int| occurs_at(s, p, i) && forall|j: int| 0 <= j < i ==> !occurs_at(s, p, j))
    } else {
        None
    }
}

pub open spec fn contains(s: Seq<char>, p: Seq<char>) -> bool {
    exists|i: int| occurs_at(s, p, i)
}

/// The position of the first character of `s` that is one of `set`.
#[verifier::opaque]
pub open spec fn find_any(s: Seq<char>, set: Seq<char>) -> Option<int> {
    if exists|i: int| 0 <= i < s.len() && set.contains(s[i]) {
        Some(choose|i: int| 0 <= i < s.len() && set.contains(s[i])
            && forall|j: int| 0 <= j < i ==> !set.contains(#[trigger] s[j]))
    } else {
        None
    }
}

/// `str::split_once` with a string pattern.
pub open spec fn split_once(s: Seq<char>, p: Seq<char>) -> Option<(Seq<char>, Seq<char>)> {
    match find(s, p) {
        Some(i) => Some((s.take(i), s.skip(i + p.len()))),
        None => None,
    }
}

/// The text before the first character that is one of `set`
/// (`s.split(set).next()`).
pub open spec fn before_any(s: Seq<char>, set: Seq<char>) -> Seq<char> {
    match find_any(s, set) {
        Some(i) => s.take(i),
        None => s,
    }
}

/// `str::split` with a non-empty string pattern.
pub open spec fn split(s: Seq<char>, p: Seq<char>) -> Seq<Seq<char>>
    decreases s.len(),
{
    match find(s, p) {
        Some(i) => if p.len() > 0 {
            proof { lemma_find_some(s, p); }
            seq![s.take(i)] + split(s.skip(i + p.len()), p)
        } else {
            seq![s]
        },
        None => seq![s],
    }
}

/// `str::lines`: pieces ended by `\n`, a `\r` before the `\n` removed,
/// and no empty piece after a final `\n`.
pub open spec fn lines(s: Seq<char>) -> Seq<Seq<char>>
    decreases s.len(),
{
    if s.len() == 0 {
        seq![]
    } else {
        match find(s, seq!['\n']) {
            Some(i) => {
                proof { lemma_find_some(s, seq!['\n']); }
                let line = s.take(i);
                let line = if line.len() > 0 && line.last() == '\r' { line.drop_last() } else { line };
                seq![line] + lines(s.skip(i + 1))
            },
            None => seq![s],
        }
    }
}

// ---------------------------------------------------------------------------
// Facts
// ---------------------------------------------------------------------------

proof fn lemma_first_occurrence(s: Seq<char>, p: Seq<char>, k: int)
    requires
        occurs_at(s, p, k),
    ensures
        exists|i: int| occurs_at(s, p, i) && forall|j: int| 0 <= j < i ==> !occurs_at(s, p, j),
    decreases k,
{
    if exists|j: int| 0 <= j < k && occurs_at(s, p, j) {
        let j = choose|j: int| 0 <= j < k && occurs_at(s, p, j);
        lemma_first_occurrence(s, p, j);
    } else {
        assert(forall|j: int| 0 <= j < k ==> !occurs_at(s, p, j));
    }
}

/// `find` gives the first occurrence, where there is one.
pub proof fn lemma_find_some(s: Seq<char>, p: Seq<char>)
    ensures
        match find(s, p) {
            Some(i) => occurs_at(s, p, i) && (forall|j: int| 0 <= j < i ==> !occurs_at(s, p, j))
                && 0 <= i && i + p.len() <= s.len(),
            None => !contains(s, p),
        },
{
    reveal(find);
    if exists|i: int| occurs_at(s, p, i) {
        let k = choose|i: int| occurs_at(s, p, i);
        lemma_first_occurrence(s, p, k);
    }
}

proof fn lemma_first_in_set(s: Seq<char>, set: Seq<char>, k: int)
    requires
        0 <= k < s.len(),
        set.contains(s[k]),
    ensures
        exists|i: int| 0 <= i < s.len() && set.contains(s[i])
            && forall|j: int| 0 <= j < i ==> !set.contains(#[trigger] s[j]),
    decreases k,
{
    if exists|j: int| 0 <= j < k && set.contains(s[j]) {
        let j = choose|j: int| 0 <= j < k && set.contains(s[j]);
        lemma_first_in_set(s, set, j);
    } else {
        assert(forall|j: int| 0 <= j < k ==> !set.contains(#[trigger] s[j]));
    }
}

/// `find_any` gives the first character in the set, where there is one.
pub proof fn lemma_find_any_some(s: Seq<char>, set: Seq<char>)
    ensures
        match find_any(s, set) {
            Some(i) => 0 <= i < s.len() && set.contains(s[i])
                && forall|j: int| 0 <= j < i ==> !set.contains(#[trigger] s[j]),
            None => forall|j: int| 0 <= j < s.len() ==> !set.contains(#[trigger] s[j]),
        },
{
    reveal(find_any);
    if exists|i: int| 0 <= i < s.len() && set.contains(s[i]) {
        let k = choose|i: int| 0 <= i < s.len() && set.contains(s[i]);
        lemma_first_in_set(s, set, k);
    }
}

pub proof fn lemma_find_is(s: Seq<char>, p: Seq<char>, k: int)
    requires
        occurs_at(s, p, k),
        forall|j: int| 0 <= j < k ==> !occurs_at(s, p, j),
    ensures
        find(s, p) == Some(k),
{
    reveal(find);
    let i = choose|i: int| occurs_at(s, p, i) && forall|j: int| 0 <= j < i ==> !occurs_at(s, p, j);
    assert(occurs_at(s, p, i));
    if i < k {
        assert(!occurs_at(s, p, i));
    }
    if k < i {
        assert(!occurs_at(s, p, k));
    }
}

pub proof fn lemma_find_any_is(s: Seq<char>, set: Seq<char>, k: int)
    requires
        0 <= k < s.len(),
        set.contains(s[k]),
        forall|j: int| 0 <= j < k ==> !set.contains(#[trigger] s[j]),
    ensures
        find_any(s, set) == Some(k),
{
    reveal(find_any);
    let i = choose|i: int| 0 <= i < s.len() && set.contains(s[i])
        && forall|j: int| 0 <= j < i ==> !set.contains(#[trigger] s[j]);
    assert(set.contains(s[i]));
    if i < k {
        assert(!set.contains(s[i]));
    }
    if k < i {
        assert(!set.contains(s[k]));
    }
}

/// Text that is empty or ends a line.
pub open spec fn ends_line(p: Seq<char>) -> bool {
    p.len() == 0 || p.last() == '\n'
}

/// One more line, with no line break in it and no `\r` at its end, adds
/// itself to the lines of text that is empty or ends a line.
pub proof fn lemma_lines_push(p: Seq<char>, l: Seq<char>)
    requires
        ends_line(p),
        !l.contains('\n'),
        l.len() == 0 || l.last() != '\r',
    ensures
        lines(p + l + seq!['\n']) == lines(p).push(l),
    decreases p.len(),
{
    let nl = seq!['\n'];
    let big = p + l + nl;
    if p.len() == 0 {
        assert(big =~= l + nl);
        assert(occurs_at(big, nl, l.len() as int)) by {
            assert(big.subrange(l.len() as int, l.len() + 1int) =~= nl);
        }
        assert forall|j: int| 0 <= j < l.len() implies !occurs_at(big, nl, j) by {
            if occurs_at(big, nl, j) {
                assert(big.subrange(j, j + 1)[0] == big[j]);
                assert(l[j] == '\n');
            }
        }
        lemma_find_is(big, nl, l.len() as int);
        assert(big.take(l.len() as int) =~= l);
        assert(big.skip(l.len() + 1int) =~= Seq::<char>::empty());
        assert(lines(Seq::<char>::empty()) == Seq::<Seq<char>>::empty());
        assert(lines(p) == Seq::<Seq<char>>::empty());
    } else {
        assert(occurs_at(p, nl, p.len() - 1)) by {
            assert(p.subrange(p.len() - 1, p.len() as int) =~= nl);
        }
        lemma_find_some(p, nl);
        let i = find(p, nl)->0;
        assert(occurs_at(big, nl, i)) by {
            assert(big.subrange(i, i + 1) =~= p.subrange(i, i + 1));
        }
        assert forall|j: int| 0 <= j < i implies !occurs_at(big, nl, j) by {
            if occurs_at(big, nl, j) {
                assert(big.subrange(j, j + 1) =~= p.subrange(j, j + 1));
                assert(occurs_at(p, nl, j));
            }
        }
        lemma_find_is(big, nl, i);
        let q = p.skip(i + 1);
        assert(big.take(i) =~= p.take(i));
        assert(big.skip(i + 1) =~= q + l + nl);
        if q.len() > 0 {
            assert(q.last() == p.last());
        }
        lemma_lines_push(q, l);
        assert(lines(big) == seq![lines(big)[0]] + lines(q + l + nl));
        assert(lines(p) == seq![lines(p)[0]] + lines(q));
        assert(lines(big) =~= lines(p).push(l));
    }
}

/// Text made of white space only.
pub open spec fn all_white(s: Seq<char>) -> bool {
    forall|i: int| 0 <= i < s.len() ==> is_white(#[trigger] s[i])
}

proof fn lemma_trim_start_white_prefix(w: Seq<char>, x: Seq<char>)
    requires
        all_white(w),
    ensures
        trim_start(w + x) == trim_start(x),
    decreases w.len(),
{
    if w.len() == 0 {
        assert(w + x =~= x);
    } else {
        assert((w + x)[0] == w[0]);
        assert((w + x).drop_first() =~= w.drop_first() + x);
        assert forall|i: int| 0 <= i < w.drop_first().len() implies is_white(#[trigger] w.drop_first()[i]) by {
            assert(w.drop_first()[i] == w[i + 1]);
        }
        lemma_trim_start_white_prefix(w.drop_first(), x);
    }
}

proof fn lemma_trim_end_white_suffix(x: Seq<char>, w: Seq<char>)
    requires
        all_white(w),
    ensures
        trim_end(x + w) == trim_end(x),
    decreases w.len(),
{
    if w.len() == 0 {
        assert(x + w =~= x);
    } else {
        assert((x + w).last() == w.last());
        assert(is_white(w[w.len() - 1]));
        assert((x + w).drop_last() =~= x + w.drop_last());
        assert forall|i: int| 0 <= i < w.drop_last().len() implies is_white(#[trigger] w.drop_last()[i]) by {
            assert(w.drop_last()[i] == w[i]);
        }
        lemma_trim_end_white_suffix(x, w.drop_last());
    }
}

proof fn lemma_trim_start_all_white(w: Seq<char>)
    requires
        all_white(w),
    ensures
        trim_start(w).len() == 0,
{
    lemma_trim_start_white_prefix(w, Seq::<char>::empty());
    assert(w + Seq::<char>::empty() =~= w);
}

proof fn lemma_trim_start_then_end(x: Seq<char>, w: Seq<char>)
    requires
        all_white(w),
    ensures
        trim_end(trim_start(x + w)) == trim_end(trim_start(x)),
    decreases x.len(),
{
    if x.len() == 0 {
        assert(x + w =~= w);
        lemma_trim_start_all_white(w);
    } else if is_white(x[0]) {
        assert((x + w)[0] == x[0]);
        assert((x + w).drop_first() =~= x.drop_first() + w);
        lemma_trim_start_then_end(x.drop_first(), w);
    } else {
        assert((x + w)[0] == x[0]);
        lemma_trim_end_white_suffix(x, w);
    }
}

/// White space around text does not change its trimmed form.
pub proof fn lemma_trim_pad(w1: Seq<char>, x: Seq<char>, w2: Seq<char>)
    requires
        all_white(w1),
        all_white(w2),
    ensures
        trim(w1 + x + w2) == trim(x),
{
    assert(w1 + x + w2 =~= w1 + (x + w2));
    lemma_trim_start_white_prefix(w1, x + w2);
    lemma_trim_start_then_end(x, w2);
}

proof fn lemma_trim_start_shape(s: Seq<char>) -> (k: int)
    ensures
        0 <= k <= s.len(),
        all_white(s.take(k)),
        trim_start(s) == s.skip(k),
    decreases s.len(),
{
    if s.len() > 0 && is_white(s[0]) {
        let k1 = lemma_trim_start_shape(s.drop_first());
        assert forall|i: int| 0 <= i < s.take(k1 + 1).len() implies is_white(#[trigger] s.take(k1 + 1)[i]) by {
            if i > 0 {
                assert(s.take(k1 + 1)[i] == s.drop_first().take(k1)[i - 1]);
            }
        }
        assert(s.drop_first().skip(k1) =~= s.skip(k1 + 1));
        k1 + 1
    } else {
        assert(s.skip(0) =~= s);
        0
    }
}

proof fn lemma_trim_end_shape(s: Seq<char>) -> (k: int)
    ensures
        0 <= k <= s.len(),
        all_white(s.skip(k)),
        trim_end(s) == s.take(k),
    decreases s.len(),
{
    if s.len() > 0 && is_white(s.last()) {
        let k1 = lemma_trim_end_shape(s.drop_last());
        assert forall|i: int| 0 <= i < s.skip(k1).len() implies is_white(#[trigger] s.skip(k1)[i]) by {
            if k1 + i < s.len() - 1 {
                assert(s.skip(k1)[i] == s.drop_last().skip(k1)[i]);
            }
        }
        assert(s.drop_last().take(k1) =~= s.take(k1));
        k1
    } else {
        assert(s.take(s.len() as int) =~= s);
        s.len() as int
    }
}

/// Text is its trimmed form with white space around it.
pub proof fn lemma_trim_split(s: Seq<char>) -> (w: (Seq<char>, Seq<char>))
    ensures
        all_white(w.0),
        all_white(w.1),
        s == w.0 + trim(s) + w.1,
{
    let a = lemma_trim_start_shape(s);
    let ts = s.skip(a);
    let b = lemma_trim_end_shape(ts);
    assert(s =~= s.take(a) + ts.take(b) + ts.skip(b));
    (s.take(a), ts.skip(b))
}

/// Trimming twice is trimming once.
pub proof fn lemma_trim_idempotent(s: Seq<char>)
    ensures
        trim(trim(s)) == trim(s),
{
    let w = lemma_trim_split(s);
    lemma_trim_pad(w.0, trim(s), w.1);
}

/// Text before a piece without the separator joins the first piece.
pub proof fn lemma_split_prefix(w: Seq<char>, s: Seq<char>, c: char)
    requires
        !w.contains(c),
    ensures
        split(w + s, seq![c]) == seq![w + split(s, seq![c])[0]] + split(s, seq![c]).drop_first(),
{
    let p = seq![c];
    let ws = w + s;
    lemma_find_some(s, p);
    match find(s, p) {
        Some(i) => {
            assert(occurs_at(ws, p, w.len() + i)) by {
                assert(ws.subrange(w.len() + i, w.len() + i + 1) =~= s.subrange(i, i + 1));
            }
            assert forall|j: int| 0 <= j < w.len() + i implies !occurs_at(ws, p, j) by {
                if occurs_at(ws, p, j) {
                    assert(ws.subrange(j, j + 1)[0] == ws[j]);
                    if j < w.len() {
                        assert(ws[j] == w[j]);
                    } else {
                        assert(s.subrange(j - w.len(), j - w.len() + 1) =~= ws.subrange(j, j + 1));
                        assert(occurs_at(s, p, j - w.len()));
                    }
                }
            }
            lemma_find_is(ws, p, w.len() + i);
            assert(ws.take(w.len() + i) =~= w + s.take(i));
            assert(ws.skip(w.len() + i + 1) =~= s.skip(i + 1));
            assert(split(s, p) == seq![s.take(i)] + split(s.skip(i + 1), p));
            assert(split(ws, p) == seq![ws.take(w.len() + i)] + split(ws.skip(w.len() + i + 1), p));
            assert(split(s, p).drop_first() =~= split(s.skip(i + 1), p));
            assert(split(ws, p) =~= seq![w + split(s, p)[0]] + split(s, p).drop_first());
        },
        None => {
            assert forall|j: int| 0 <= j implies !occurs_at(ws, p, j) by {
                if occurs_at(ws, p, j) {
                    assert(ws.subrange(j, j + 1)[0] == ws[j]);
                    if j < w.len() {
                        assert(ws[j] == w[j]);
                    } else {
                        assert(s.subrange(j - w.len(), j - w.len() + 1) =~= ws.subrange(j, j + 1));
                        assert(occurs_at(s, p, j - w.len()));
                    }
                }
            }
            lemma_find_some(ws, p);
            assert(split(ws, p) =~= seq![w + split(s, p)[0]] + split(s, p).drop_first());
        },
    }
}

/// Text after a piece without the separator joins the last piece.
pub proof fn lemma_split_suffix(s: Seq<char>, w: Seq<char>, c: char)
    requires
        !w.contains(c),
    ensures
        split(s + w, seq![c]).len() == split(s, seq![c]).len(),
        split(s, seq![c]).len() > 0,
        forall|i: int| 0 <= i < split(s, seq![c]).len() - 1 ==> #[trigger] split(s + w, seq![c])[i] == split(s, seq![c])[i],
        split(s + w, seq![c]).last() == split(s, seq![c]).last() + w,
    decreases s.len(),
{
    let p = seq![c];
    let sw = s + w;
    lemma_find_some(s, p);
    match find(s, p) {
        Some(i) => {
            assert(occurs_at(sw, p, i)) by {
                assert(sw.subrange(i, i + 1) =~= s.subrange(i, i + 1));
            }
            assert forall|j: int| 0 <= j < i implies !occurs_at(sw, p, j) by {
                if occurs_at(sw, p, j) {
                    assert(sw.subrange(j, j + 1) =~= s.subrange(j, j + 1));
                    assert(occurs_at(s, p, j));
                }
            }
            lemma_find_is(sw, p, i);
            assert(sw.take(i) =~= s.take(i));
            assert(sw.skip(i + 1) =~= s.skip(i + 1) + w);
            lemma_split_suffix(s.skip(i + 1), w, c);
            let a = split(s, p);
            let b = split(sw, p);
            let ra = split(s.skip(i + 1), p);
            let rb = split(s.skip(i + 1) + w, p);
            assert(a == seq![s.take(i)] + ra);
            assert(b == seq![s.take(i)] + rb);
            assert forall|k: int| 0 <= k < a.len() - 1 implies #[trigger] b[k] == a[k] by {
                if k > 0 {
                    assert(b[k] == rb[k - 1]);
                    assert(a[k] == ra[k - 1]);
                }
            }
            assert(b.last() == rb.last());
            assert(a.last() == ra.last());
        },
        None => {
            assert forall|j: int| 0 <= j implies !occurs_at(sw, p, j) by {
                if occurs_at(sw, p, j) {
                    assert(sw.subrange(j, j + 1)[0] == sw[j]);
                    if j < s.len() {
                        assert(s.subrange(j, j + 1) =~= sw.subrange(j, j + 1));
                        assert(occurs_at(s, p, j));
                    } else {
                        assert(sw[j] == w[j - s.len()]);
                    }
                }
            }
            lemma_find_some(sw, p);
        },
    }
}

/// No piece of a split holds the separator.
pub proof fn lemma_split_pieces(s: Seq<char>, c: char)
    ensures
        forall|i: int| 0 <= i < split(s, seq![c]).len() ==> !(#[trigger] split(s, seq![c])[i]).contains(c),
    decreases s.len(),
{
    let p = seq![c];
    lemma_find_some(s, p);
    match find(s, p) {
        Some(i) => {
            lemma_split_pieces(s.skip(i + 1), c);
            let a = split(s, p);
            let ra = split(s.skip(i + 1), p);
            assert(a == seq![s.take(i)] + ra);
            assert forall|k: int| 0 <= k < a.len() implies !(#[trigger] a[k]).contains(c) by {
                if k == 0 {
                    if s.take(i).contains(c) {
                        let j = choose|j: int| 0 <= j < s.take(i).len() && s.take(i)[j] == c;
                        assert(s.subrange(j, j + 1) =~= p);
                        assert(occurs_at(s, p, j));
                    }
                } else {
                    assert(a[k] == ra[k - 1]);
                }
            }
        },
        None => {
            if s.contains(c) {
                let j = choose|j: int| 0 <= j < s.len() && s[j] == c;
                assert(s.subrange(j, j + 1) =~= p);
                assert(occurs_at(s, p, j));
            }
        },
    }
}

// ---------------------------------------------------------------------------
// Executable operations
// ---------------------------------------------------------------------------

/// The characters of a string slice, in order.
pub fn chars_of(s: &str) -> (v: Vec<char>)
    ensures
        v@ == s@,
{
    let mut v: Vec<char> = Vec::new();
    for c in it: s.chars()
        invariant
            v@ == it.seq().take(it.index() as int),
            it.seq() == s@,
    {
        v.push(c);
    }
    v
}

/// Appends one character to a string (`String::push`).
#[verifier::external_body]
pub(crate) fn push_char(s: &mut String, c: char)
    ensures
        final(s)@ == old(s)@.push(c),
{
    s.push(c);
}

/// Builds a string holding the given characters.
pub fn string_of(v: &[char]) -> (s: String)
    ensures
        s@ == v@,
{
    let mut s = String::new();
    let mut i: usize = 0;
    while i < v.len()
        invariant
            i <= v@.len(),
            s@ == v@.take(i as int),
        decreases v@.len() - i,
    {
        push_char(&mut s, v[i]);
        proof { assert(v@.take(i + 1) == v@.take(i as int).push(v@[i as int])); }
        i += 1;
    }
    proof { assert(v@.take(v@.len() as int) == v@); }
    s
}

/// The characters `v[from..to]`.
pub fn slice_of(v: &[char], from: usize, to: usize) -> (r: Vec<char>)
    requires
        from <= to <= v@.len(),
    ensures
        r@ == v@.subrange(from as int, to as int),
{
    let mut r: Vec<char> = Vec::new();
    let mut i = from;
    while i < to
        invariant
            from <= i <= to <= v@.len(),
            r@ == v@.subrange(from as int, i as int),
        decreases to - i,
    {
        r.push(v[i]);
        proof { assert(v@.subrange(from as int, i + 1) == v@.subrange(from as int, i as int).push(v@[i as int])); }
        i += 1;
    }
    r
}

/// Appends `b` to `a`.
pub fn extend(a: &mut Vec<char>, b: &[char])
    ensures
        final(a)@ == old(a)@ + b@,
{
    let mut i: usize = 0;
    while i < b.len()
        invariant
            i <= b@.len(),
            a@ == old(a)@ + b@.take(i as int),
        decreases b@.len() - i,
    {
        a.push(b[i]);
        proof { assert(b@.take(i + 1) == b@.take(i as int).push(b@[i as int])); }
        i += 1;
    }
    proof { assert(b@.take(b@.len() as int) == b@); }
}

/// Character-wise equality.
pub fn chars_eq(a: &[char], b: &[char]) -> (r: bool)
    ensures
        r == (a@ == b@),
{
    if a.len() != b.len() {
        return false;
    }
    let mut i: usize = 0;
    while i < a.len()
        invariant
            a@.len() == b@.len(),
            i <= a@.len(),
            forall|j: int| 0 <= j < i ==> a@[j] == b@[j],
        decreases a@.len() - i,
    {
        if a[i] != b[i] {
            return false;
        }
        i += 1;
    }
    proof { assert(a@ =~= b@); }
    true
}

/// Whether `p` occurs in `s` at position `i`.
pub fn occurs_at_exec(s: &[char], p: &[char], i: usize) -> (r: bool)
    ensures
        r == occurs_at(s@, p@, i as int),
{
    if i > s.len() || p.len() > s.len() - i {
        return false;
    }
    let mut k: usize = 0;
    while k < p.len()
        invariant
            i + p@.len() <= s@.len(),
            s@.len() <= usize::MAX,
            k <= p@.len(),
            forall|j: int| 0 <= j < k ==> s@[i + j] == p@[j],
        decreases p@.len() - k,
    {
        assert(i + k < s@.len());
        if s[i + k] != p[k] {
            proof { assert(s@.subrange(i as int, i + p@.len())[k as int] != p@[k as int]); }
            return false;
        }
        k += 1;
    }
    proof { assert(s@.subrange(i as int, i + p@.len()) =~= p@); }
    true
}

/// The position of the first occurrence of `p` in `s`.
pub fn find_exec(s: &[char], p: &[char]) -> (r: Option<usize>)
    ensures
        match r {
            Some(i) => find(s@, p@) == Some(i as int),
            None => find(s@, p@) is None,
        },
{
    if p.len() > s.len() {
        proof { lemma_find_some(s@, p@); }
        return None;
    }
    let last = s.len() - p.len();
    let mut i: usize = 0;
    while i < last
        invariant
            i <= last,
            last + p@.len() == s@.len(),
            forall|j: int| 0 <= j < i ==> !occurs_at(s@, p@, j),
        decreases last - i,
    {
        if occurs_at_exec(s, p, i) {
            proof { lemma_find_is(s@, p@, i as int); }
            return Some(i);
        }
        i += 1;
    }
    if occurs_at_exec(s, p, last) {
        proof { lemma_find_is(s@, p@, last as int); }
        return Some(last);
    }
    proof {
        lemma_find_some(s@, p@);
        if find(s@, p@) is Some {
            let k = find(s@, p@)->0;
            assert(occurs_at(s@, p@, k));
        }
    }
    None
}

/// The position of the first character of `s` that is one of `set`.
pub fn find_any_exec(s: &[char], set: &[char]) -> (r: Option<usize>)
    ensures
        match r {
            Some(i) => find_any(s@, set@) == Some(i as int),
            None => find_any(s@, set@) is None,
        },
{
    let mut i: usize = 0;
    while i < s.len()
        invariant
            i <= s@.len(),
            forall|j: int| 0 <= j < i ==> !set@.contains(#[trigger] s@[j]),
        decreases s@.len() - i,
    {
        if contains_char(set, s[i]) {
            proof { lemma_find_any_is(s@, set@, i as int); }
            return Some(i);
        }
        i += 1;
    }
    proof { lemma_find_any_some(s@, set@); }
    None
}

/// Whether `c` is one of `set`.
pub fn contains_char(set: &[char], c: char) -> (r: bool)
    ensures
        r == set@.contains(c),
{
    let mut i: usize = 0;
    while i < set.len()
        invariant
            i <= set@.len(),
            forall|j: int| 0 <= j < i ==> set@[j] != c,
        decreases set@.len() - i,
    {
        if set[i] == c {
            proof { assert(set@[i as int] == c); }
            return true;
        }
        i += 1;
    }
    false
}

/// `char::is_whitespace`.
pub fn is_white_exec(c: char) -> (r: bool)
    ensures
        r == is_white(c),
{
    ('\t' <= c && c <= '\r') || c == ' ' || c == '\u{85}' || c == '\u{a0}' || c == '\u{1680}'
        || ('\u{2000}' <= c && c <= '\u{200a}') || c == '\u{2028}' || c == '\u{2029}'
        || c == '\u{202f}' || c == '\u{205f}' || c == '\u{3000}'
}

pub fn is_ascii_alnum_exec(c: char) -> (r: bool)
    ensures
        r == is_ascii_alnum(c),
{
    ('0' <= c && c <= '9') || ('A' <= c && c <= 'Z') || ('a' <= c && c <= 'z')
}

pub fn lower_char_exec(c: char) -> (r: char)
    ensures
        r == lower_char(c),
{
    if 'A' <= c && c <= 'Z' {
        ((c as u8) + 32) as char
    } else {
        c
    }
}

pub fn upper_char_exec(c: char) -> (r: char)
    ensures
        r == upper_char(c),
{
    if 'a' <= c && c <= 'z' {
        ((c as u8) - 32) as char
    } else {
        c
    }
}

/// `to_ascii_lowercase`.
pub fn lower_exec(s: &[char]) -> (r: Vec<char>)
    ensures
        r@ == lower(s@),
{
    let mut r: Vec<char> = Vec::new();
    let mut i: usize = 0;
    while i < s.len()
        invariant
            i <= s@.len(),
            r@ == lower(s@.take(i as int)),
        decreases s@.len() - i,
    {
        r.push(lower_char_exec(s[i]));
        proof { assert(s@.take(i + 1) == s@.take(i as int).push(s@[i as int])); }
        i += 1;
        proof { assert(r@ =~= lower(s@.take(i as int))); }
    }
    proof { assert(s@.take(s@.len() as int) == s@); }
    r
}

/// `to_ascii_uppercase`.
pub fn upper_exec(s: &[char]) -> (r: Vec<char>)
    ensures
        r@ == upper(s@),
{
    let mut r: Vec<char> = Vec::new();
    let mut i: usize = 0;
    while i < s.len()
        invariant
            i <= s@.len(),
            r@ == upper(s@.take(i as int)),
        decreases s@.len() - i,
    {
        r.push(upper_char_exec(s[i]));
        proof { assert(s@.take(i + 1) == s@.take(i as int).push(s@[i as int])); }
        i += 1;
        proof { assert(r@ =~= upper(s@.take(i as int))); }
    }
    proof { assert(s@.take(s@.len() as int) == s@); }
    r
}

/// `str::trim`.
pub fn trim_exec(s: &[char]) -> (r: Vec<char>)
    ensures
        r@ == trim(s@),
{
    let mut a: usize = 0;
    proof { assert(s@.skip(0) == s@); }
    while a < s.len() && is_white_exec(s[a])
        invariant
            a <= s@.len(),
            trim_start(s@) == trim_start(s@.skip(a as int)),
        decreases s@.len() - a,
    {
        proof { assert(s@.skip(a as int).drop_first() == s@.skip(a + 1)); }
        a += 1;
    }
    let ghost t = s@.skip(a as int);
    assert(trim_start(t) == t);
    let mut b: usize = s.len();
    while b > a && is_white_exec(s[b - 1])
        invariant
            a <= b <= s@.len(),
            trim_end(t) == trim_end(s@.subrange(a as int, b as int)),
        decreases b,
    {
        proof { assert(s@.subrange(a as int, b as int).drop_last() == s@.subrange(a as int, b - 1)); }
        b -= 1;
    }
    proof { assert(s@.skip(a as int) == s@.subrange(a as int, s@.len() as int)); }
    slice_of(s, a, b)
}

/// `str::split_once`.
pub fn split_once_exec(s: &[char], p: &[char]) -> (r: Option<(Vec<char>, Vec<char>)>)
    ensures
        match r {
            Some((a, b)) => split_once(s@, p@) == Some((a@, b@)),
            None => split_once(s@, p@) is None,
        },
{
    let n = s.len();
    match find_exec(s, p) {
        Some(i) => {
            proof { lemma_find_some(s@, p@); }
            let a = slice_of(s, 0, i);
            let b = slice_of(s, i + p.len(), n);
            proof {
                assert(a@ == s@.take(i as int));
                assert(b@ == s@.skip(i + p@.len()));
            }
            Some((a, b))
        },
        None => None,
    }
}

/// `str::starts_with`.
pub fn starts_with_exec(s: &[char], p: &[char]) -> (r: bool)
    ensures
        r == starts_with(s@, p@),
{
    let r = occurs_at_exec(s, p, 0);
    proof {
        if p@.len() <= s@.len() {
            assert(s@.subrange(0, p@.len() as int) == s@.take(p@.len() as int));
        }
    }
    r
}

/// The text before the first character that is one of `set`.
pub fn before_any_exec(s: &[char], set: &[char]) -> (r: Vec<char>)
    ensures
        r@ == before_any(s@, set@),
{
    match find_any_exec(s, set) {
        Some(i) => {
            proof { lemma_find_any_some(s@, set@); }
            slice_of(s, 0, i)
        },
        None => {
            proof { assert(s@.subrange(0, s@.len() as int) == s@); }
            slice_of(s, 0, s.len())
        },
    }
}

/// `str::split` with a non-empty pattern.
pub fn split_exec(s: &[char], p: &[char]) -> (r: Vec<Vec<char>>)
    requires
        p@.len() > 0,
    ensures
        r@.map_values(|v: Vec<char>| v@) == split(s@, p@),
{
    let mut r: Vec<Vec<char>> = Vec::new();
    let mut rest: Vec<char> = slice_of(s, 0, s.len());
    proof { assert(rest@ == s@); }
    loop
        invariant
            p@.len() > 0,
            split(s@, p@) == r@.map_values(|v: Vec<char>| v@) + split(rest@, p@),
        decreases rest@.len(),
    {
        match find_exec(&rest, p) {
            Some(i) => {
                proof { lemma_find_some(rest@, p@); }
                let n = rest.len();
                let piece = slice_of(&rest, 0, i);
                let next = slice_of(&rest, i + p.len(), n);
                proof {
                    assert(split(rest@, p@) == seq![piece@] + split(next@, p@));
                    assert(r@.push(piece).map_values(|v: Vec<char>| v@)
                        == r@.map_values(|v: Vec<char>| v@).push(piece@));
                }
                r.push(piece);
                rest = next;
            },
            None => {
                proof {
                    assert(split(rest@, p@) == seq![rest@]);
                    assert(r@.push(rest).map_values(|v: Vec<char>| v@)
                        == r@.map_values(|v: Vec<char>| v@).push(rest@));
                }
                r.push(rest);
                return r;
            },
        }
    }
}

/// `str::lines`.
pub fn lines_exec(s: &[char]) -> (r: Vec<Vec<char>>)
    ensures
        r@.map_values(|v: Vec<char>| v@) == lines(s@),
{
    let mut r: Vec<Vec<char>> = Vec::new();
    let mut rest: Vec<char> = slice_of(s, 0, s.len());
    let nl: [char; 1] = ['\n'];
    proof { assert(rest@ == s@); assert(nl@ == seq!['\n']); }
    loop
        invariant
            nl@ == seq!['\n'],
            lines(s@) == r@.map_values(|v: Vec<char>| v@) + lines(rest@),
        decreases rest@.len(),
    {
        if rest.len() == 0 {
            proof { assert(r@.map_values(|v: Vec<char>| v@) + lines(rest@) == r@.map_values(|v: Vec<char>| v@)); }
            return r;
        }
        match find_exec(&rest, &nl) {
            Some(i) => {
                proof { lemma_find_some(rest@, nl@); }
                let mut line = slice_of(&rest, 0, i);
                if line.len() > 0 && line[line.len() - 1] == '\r' {
                    line.pop();
                    proof { assert(line@ == rest@.take(i as int).drop_last()); }
                }
                let next = slice_of(&rest, i + 1, rest.len());
                proof {
                    assert(lines(rest@) == seq![line@] + lines(next@));
                    assert(r@.push(line).map_values(|v: Vec<char>| v@)
                        == r@.map_values(|v: Vec<char>| v@).push(line@));
                }
                r.push(line);
                rest = next;
            },
            None => {
                proof {
                    assert(lines(rest@) == seq![rest@]);
                    assert(r@.push(rest).map_values(|v: Vec<char>| v@)
                        == r@.map_values(|v: Vec<char>| v@).push(rest@));
                }
                r.push(rest);
                return r;
            },
        }
    }
}

} // verus!
