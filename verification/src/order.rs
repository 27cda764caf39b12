//! The order of `String` (code point by code point) and sorted, duplicate
//! free lists of strings, which stand for sets of strings kept in order.
use vstd::prelude::*;

verus! {

/// `a < b` for strings: lexicographic by code point, as `Ord for str`
/// (UTF-8 byte order and code point order agree).
pub open spec fn str_lt(a: Seq<char>, b: Seq<char>) -> bool
    decreases a.len(),
{
    if a.len() == 0 {
        b.len() > 0
    } else if b.len() == 0 {
        false
    } else if a[0] != b[0] {
        (a[0] as int) < (b[0] as int)
    } else {
        str_lt(a.drop_first(), b.drop_first())
    }
}

/// Strictly increasing: sorted and free of duplicates.
pub open spec fn sorted(s: Seq<Seq<char>>) -> bool {
    forall|i: int, j: int| 0 <= i < j < s.len() ==> str_lt(#[trigger] s[i], #[trigger] s[j])
}

pub open spec fn views(v: Seq<Vec<char>>) -> Seq<Seq<char>> {
    v.map_values(|c: Vec<char>| c@)
}

pub open spec fn string_views(v: Seq<String>) -> Seq<Seq<char>> {
    v.map_values(|s: String| s@)
}

pub proof fn lemma_lt_irreflexive(a: Seq<char>)
    ensures
        !str_lt(a, a),
    decreases a.len(),
{
    if a.len() > 0 {
        lemma_lt_irreflexive(a.drop_first());
    }
}

pub proof fn lemma_lt_asymmetric(a: Seq<char>, b: Seq<char>)
    ensures
        !(str_lt(a, b) && str_lt(b, a)),
    decreases a.len(),
{
    if a.len() > 0 && b.len() > 0 && a[0] == b[0] {
        lemma_lt_asymmetric(a.drop_first(), b.drop_first());
    }
}

pub proof fn lemma_lt_transitive(a: Seq<char>, b: Seq<char>, c: Seq<char>)
    requires
        str_lt(a, b),
        str_lt(b, c),
    ensures
        str_lt(a, c),
    decreases a.len(),
{
    if a.len() > 0 && b.len() > 0 && c.len() > 0 && a[0] == b[0] && b[0] == c[0] {
        lemma_lt_transitive(a.drop_first(), b.drop_first(), c.drop_first());
    }
}

pub proof fn lemma_lt_total(a: Seq<char>, b: Seq<char>)
    ensures
        a == b || str_lt(a, b) || str_lt(b, a),
    decreases a.len(),
{
    if a.len() > 0 && b.len() > 0 && a[0] == b[0] {
        lemma_lt_total(a.drop_first(), b.drop_first());
        if a.drop_first() == b.drop_first() {
            assert(a =~= seq![a[0]] + a.drop_first());
            assert(b =~= seq![b[0]] + b.drop_first());
        }
    } else if a.len() == 0 && b.len() == 0 {
        assert(a =~= b);
    } else if a.len() > 0 && b.len() > 0 {
        assert((a[0] as int) != (b[0] as int));
    }
}

/// A sorted list is determined by the set of its elements.
pub proof fn lemma_sorted_unique(a: Seq<Seq<char>>, b: Seq<Seq<char>>)
    requires
        sorted(a),
        sorted(b),
        forall|x: Seq<char>| a.contains(x) <==> b.contains(x),
    ensures
        a == b,
    decreases a.len(),
{
    if a.len() == 0 {
        if b.len() > 0 {
            assert(b.contains(b[0]));
        }
        assert(a =~= b);
    } else if b.len() == 0 {
        assert(a.contains(a[0]));
    } else {
        // The first elements are the least elements of equal sets.
        assert(a.contains(a[0]));
        assert(b.contains(b[0]));
        let i = choose|i: int| 0 <= i < b.len() && b[i] == a[0];
        let j = choose|j: int| 0 <= j < a.len() && a[j] == b[0];
        if i > 0 {
            assert(str_lt(b[0], b[i]));
            if j > 0 {
                assert(str_lt(a[0], a[j]));
                lemma_lt_asymmetric(a[0], b[0]);
            } else {
                lemma_lt_irreflexive(b[0]);
            }
        }
        assert(a[0] == b[0]);
        let a1 = a.drop_first();
        let b1 = b.drop_first();
        assert forall|x: Seq<char>| a1.contains(x) <==> b1.contains(x) by {
            if a1.contains(x) {
                let k = choose|k: int| 0 <= k < a1.len() && a1[k] == x;
                assert(a[k + 1] == x);
                assert(str_lt(a[0], a[k + 1]));
                lemma_lt_irreflexive(x);
                assert(b.contains(x));
                let m = choose|m: int| 0 <= m < b.len() && b[m] == x;
                assert(m != 0);
                assert(b1[m - 1] == x);
            }
            if b1.contains(x) {
                let k = choose|k: int| 0 <= k < b1.len() && b1[k] == x;
                assert(b[k + 1] == x);
                assert(str_lt(b[0], b[k + 1]));
                lemma_lt_irreflexive(x);
                assert(a.contains(x));
                let m = choose|m: int| 0 <= m < a.len() && a[m] == x;
                assert(m != 0);
                assert(a1[m - 1] == x);
            }
        }
        lemma_sorted_unique(a1, b1);
        assert(a =~= seq![a[0]] + a1);
        assert(b =~= seq![b[0]] + b1);
    }
}

/// `a < b`.
pub fn lt_exec(a: &[char], b: &[char]) -> (r: bool)
    ensures
        r == str_lt(a@, b@),
{
    let mut i: usize = 0;
    proof {
        assert(a@.skip(0) == a@);
        assert(b@.skip(0) == b@);
    }
    loop
        invariant
            i <= a@.len(),
            i <= b@.len(),
            str_lt(a@, b@) == str_lt(a@.skip(i as int), b@.skip(i as int)),
        decreases a@.len() - i,
    {
        if i == a.len() {
            return i < b.len();
        }
        if i == b.len() {
            return false;
        }
        if a[i] != b[i] {
            return a[i] < b[i];
        }
        proof {
            assert(a@.skip(i as int).drop_first() == a@.skip(i + 1));
            assert(b@.skip(i as int).drop_first() == b@.skip(i + 1));
        }
        i += 1;
    }
}

/// Inserts `x` into a sorted list; tells whether it was absent.
pub fn insert_sorted(v: &mut Vec<Vec<char>>, x: Vec<char>) -> (inserted: bool)
    requires
        sorted(views(old(v)@)),
    ensures
        sorted(views(final(v)@)),
        forall|y: Seq<char>| views(final(v)@).contains(y) <==> (views(old(v)@).contains(y) || y == x@),
        inserted == !views(old(v)@).contains(x@),
{
    let ghost old_v = views(v@);
    let mut i: usize = 0;
    while i < v.len() && lt_exec(&v[i], &x)
        invariant
            i <= v@.len(),
            views(v@) == old_v,
            sorted(old_v),
            forall|k: int| 0 <= k < i ==> str_lt(#[trigger] old_v[k], x@),
        decreases v@.len() - i,
    {
        i += 1;
    }
    // Everything from `i` on is not below `x`.
    if i < v.len() && crate::text::chars_eq(&v[i], &x) {
        proof {
            assert(old_v[i as int] == x@);
            assert(old_v.contains(x@));
        }
        return false;
    }
    proof {
        assert forall|k: int| i <= k < old_v.len() implies str_lt(x@, #[trigger] old_v[k]) by {
            assert(!str_lt(old_v[i as int], x@));
            assert(old_v[i as int] != x@);
            lemma_lt_total(old_v[i as int], x@);
            if k > i {
                lemma_lt_transitive(x@, old_v[i as int], old_v[k]);
            }
        }
        assert forall|k: int| 0 <= k < old_v.len() implies old_v[k] != x@ by {
            if k < i {
                lemma_lt_irreflexive(x@);
            } else {
                lemma_lt_irreflexive(x@);
            }
        }
    }
    let ghost xv = x@;
    v.insert(i, x);
    proof {
        let nv = views(v@);
        assert(nv =~= old_v.take(i as int).push(xv) + old_v.skip(i as int));
        assert forall|p: int, q: int| 0 <= p < q < nv.len() implies str_lt(#[trigger] nv[p], #[trigger] nv[q]) by {
            if q < i {
                assert(nv[p] == old_v[p] && nv[q] == old_v[q]);
            } else if q == i {
                assert(nv[p] == old_v[p]);
            } else if p < i {
                assert(nv[p] == old_v[p] && nv[q] == old_v[q - 1]);
                lemma_lt_transitive(old_v[p], xv, old_v[q - 1]);
            } else if p == i {
                assert(nv[q] == old_v[q - 1]);
            } else {
                assert(nv[p] == old_v[p - 1] && nv[q] == old_v[q - 1]);
            }
        }
        assert forall|y: Seq<char>| nv.contains(y) <==> (old_v.contains(y) || y == xv) by {
            if nv.contains(y) {
                let k = choose|k: int| 0 <= k < nv.len() && nv[k] == y;
                if k < i {
                    assert(old_v[k] == y);
                } else if k > i {
                    assert(old_v[k - 1] == y);
                }
            }
            if old_v.contains(y) {
                let k = choose|k: int| 0 <= k < old_v.len() && old_v[k] == y;
                if k < i {
                    assert(nv[k] == y);
                } else {
                    assert(nv[k + 1] == y);
                }
            }
            if y == xv {
                assert(nv[i as int] == y);
            }
        }
    }
    true
}

/// The strings of a list of character vectors.
pub fn strings_of(v: &Vec<Vec<char>>) -> (r: Vec<String>)
    ensures
        string_views(r@) == views(v@),
{
    let mut r: Vec<String> = Vec::new();
    let mut i: usize = 0;
    while i < v.len()
        invariant
            i <= v@.len(),
            string_views(r@) == views(v@).take(i as int),
        decreases v@.len() - i,
    {
        let s = crate::text::string_of(&v[i]);
        let ghost before = r@;
        r.push(s);
        proof {
            assert(r@ == before.push(s));
            assert(string_views(r@) =~= string_views(before).push(s@));
            assert(string_views(r@) =~= views(v@).take(i + 1));
        }
        i += 1;
    }
    proof { assert(views(v@).take(v@.len() as int) == views(v@)); }
    r
}

} // verus!
