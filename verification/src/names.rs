//! Rust identifiers made from registry text, and names kept unique.
use vstd::prelude::*;
use crate::numbers::{decimal, decimal_exec, lemma_decimal_injective};
use crate::order::views;
use crate::text::{chars_of, is_ascii_alnum, is_ascii_digit, is_ascii_lower, is_ascii_upper, lower, lower_char, string_of, upper, upper_char};

verus! {

// ---------------------------------------------------------------------------
// syn
// ---------------------------------------------------------------------------

/// Whether `syn::parse_str::<syn::Ident>` accepts the text.
pub uninterp spec fn syn_accepts_ident(s: Seq<char>) -> bool;

/// A plain identifier: an ASCII letter, then ASCII letters, digits and `_`.
pub open spec fn is_plain_ident(s: Seq<char>) -> bool {
    &&& s.len() > 0
    &&& (is_ascii_upper(s[0]) || is_ascii_lower(s[0]))
    &&& forall|i: int| 0 <= i < s.len() ==> #[trigger] is_ascii_alnum(s[i]) || s[i] == '_'
}

/// The words that syn refuses as an identifier.
pub open spec fn is_syn_keyword(s: Seq<char>) -> bool {
    ||| s == "_"@ || s == "abstract"@ || s == "as"@ || s == "async"@ || s == "await"@ || s == "become"@
    ||| s == "box"@ || s == "break"@ || s == "const"@ || s == "continue"@ || s == "crate"@ || s == "do"@
    ||| s == "dyn"@ || s == "else"@ || s == "enum"@ || s == "extern"@ || s == "false"@ || s == "final"@
    ||| s == "fn"@ || s == "for"@ || s == "if"@ || s == "impl"@ || s == "in"@ || s == "let"@ || s == "loop"@
    ||| s == "macro"@ || s == "match"@ || s == "mod"@ || s == "move"@ || s == "mut"@ || s == "override"@
    ||| s == "priv"@ || s == "pub"@ || s == "ref"@ || s == "return"@ || s == "Self"@ || s == "self"@
    ||| s == "static"@ || s == "struct"@ || s == "super"@ || s == "trait"@ || s == "true"@ || s == "try"@
    ||| s == "type"@ || s == "typeof"@ || s == "unsafe"@ || s == "unsized"@ || s == "use"@
    ||| s == "virtual"@ || s == "where"@ || s == "while"@ || s == "yield"@
}

/// `syn::parse_str::<syn::Ident>(s).is_ok()`: whether syn reads the text as
/// one Rust identifier; the answer is the one named by `syn_accepts_ident`.
/// A plain identifier is one token to syn's lexer, and `Ident::parse`
/// refuses exactly the words of its keyword list (`is_syn_keyword`).
#[verifier::external_body]
fn syn_parses_ident(s: &str) -> (r: bool)
    ensures
        r == syn_accepts_ident(s@),
        is_plain_ident(s@) ==> (r <==> !is_syn_keyword(s@)),
{
    syn::parse_str::<syn::Ident>(s).is_ok()
}

// ---------------------------------------------------------------------------
// Identifiers
// ---------------------------------------------------------------------------

/// The length of the run of ASCII letters and digits at the start of `s`.
pub open spec fn alnum_run(s: Seq<char>) -> nat
    decreases s.len(),
{
    if s.len() > 0 && is_ascii_alnum(s[0]) { 1 + alnum_run(s.drop_first()) } else { 0 }
}

/// The maximal runs of ASCII letters and digits, in order: the non-empty
/// pieces of `s` split at every other character.
pub open spec fn words(s: Seq<char>) -> Seq<Seq<char>>
    decreases s.len(),
{
    let j = alnum_run(s);
    if j >= s.len() {
        if s.len() > 0 { seq![s] } else { seq![] }
    } else {
        (if j > 0 { seq![s.take(j as int)] } else { seq![] }) + words(s.skip(j as int + 1))
    }
}

/// `_`-joined.
pub open spec fn join_underscore(ws: Seq<Seq<char>>) -> Seq<char>
    decreases ws.len(),
{
    if ws.len() == 0 {
        seq![]
    } else if ws.len() == 1 {
        ws[0]
    } else {
        join_underscore(ws.drop_last()) + seq!['_'] + ws.last()
    }
}

/// First letter upper case, the rest lower case.
pub open spec fn capitalized(w: Seq<char>) -> Seq<char> {
    if w.len() == 0 { w } else { seq![upper_char(w[0])] + lower(w.skip(1)) }
}

/// The words capitalized and concatenated.
pub open spec fn camel(ws: Seq<Seq<char>>) -> Seq<char>
    decreases ws.len(),
{
    if ws.len() == 0 { seq![] } else { camel(ws.drop_last()) + capitalized(ws.last()) }
}

/// The identifier before syn is asked: `UpperCamel` or `lower_snake` words,
/// `value` where there is none, and a `V`/`v` before a leading digit.
pub open spec fn ident_candidate(value: Seq<char>, upper_case: bool) -> Seq<char> {
    let ws = words(value);
    let base = if upper_case { camel(ws) } else { lower(join_underscore(ws)) };
    let base = if base.len() == 0 { "value"@ } else { base };
    if is_ascii_digit(base[0]) {
        seq![if upper_case { 'V' } else { 'v' }] + base
    } else {
        base
    }
}

/// The identifier made of `value`: the candidate, with `_` appended where
/// it is a word that syn does not accept as an identifier.
pub open spec fn ident_of(value: Seq<char>, upper_case: bool) -> Seq<char> {
    let c = ident_candidate(value, upper_case);
    if is_syn_keyword(c) { c.push('_') } else { c }
}

proof fn lemma_alnum_run_prefix(s: Seq<char>)
    ensures
        alnum_run(s) <= s.len(),
        forall|k: int| 0 <= k < alnum_run(s) ==> #[trigger] is_ascii_alnum(s[k]),
    decreases s.len(),
{
    if s.len() > 0 && is_ascii_alnum(s[0]) {
        let t = s.drop_first();
        lemma_alnum_run_prefix(t);
        assert forall|k: int| 0 <= k < alnum_run(s) implies #[trigger] is_ascii_alnum(s[k]) by {
            if k > 0 {
                assert(s[k] == t[k - 1]);
            }
        }
    }
}

/// Words are non-empty runs of ASCII letters and digits.
pub open spec fn alnum_words(ws: Seq<Seq<char>>) -> bool {
    forall|i: int| 0 <= i < ws.len() ==> #[trigger] ws[i].len() > 0
        && forall|k: int| 0 <= k < ws[i].len() ==> #[trigger] is_ascii_alnum(ws[i][k])
}

proof fn lemma_words_alnum(s: Seq<char>)
    ensures
        alnum_words(words(s)),
    decreases s.len(),
{
    let j = alnum_run(s);
    lemma_alnum_run_prefix(s);
    if j < s.len() {
        lemma_words_alnum(s.skip(j as int + 1));
        let head: Seq<Seq<char>> = if j > 0 { seq![s.take(j as int)] } else { seq![] };
        let ws = words(s);
        let rest = words(s.skip(j as int + 1));
        assert(ws == head + rest);
        assert forall|i: int| 0 <= i < ws.len() implies #[trigger] ws[i].len() > 0
            && forall|k: int| 0 <= k < ws[i].len() ==> #[trigger] is_ascii_alnum(ws[i][k]) by {
            if i < head.len() {
                assert(ws[i] == s.take(j as int));
                assert forall|k: int| 0 <= k < ws[i].len() implies #[trigger] is_ascii_alnum(ws[i][k]) by {
                    assert(ws[i][k] == s[k]);
                }
            } else {
                assert(ws[i] == rest[i - head.len()]);
            }
        }
    } else {
        assert(j == s.len());
        if s.len() > 0 {
            assert forall|k: int| 0 <= k < words(s)[0].len() implies #[trigger] is_ascii_alnum(words(s)[0][k]) by {
                assert(words(s)[0] == s);
            }
        }
    }
}

/// The characters of an identifier body: ASCII letters, digits and `_`.
pub open spec fn ident_chars(s: Seq<char>) -> bool {
    forall|i: int| 0 <= i < s.len() ==> #[trigger] is_ascii_alnum(s[i]) || s[i] == '_'
}

proof fn lemma_join_chars(ws: Seq<Seq<char>>)
    requires
        alnum_words(ws),
    ensures
        ident_chars(join_underscore(ws)),
        ws.len() > 0 ==> join_underscore(ws).len() > 0 && is_ascii_alnum(join_underscore(ws)[0]),
    decreases ws.len(),
{
    if ws.len() > 1 {
        let init = ws.drop_last();
        assert forall|i: int| 0 <= i < init.len() implies #[trigger] init[i].len() > 0
            && forall|k: int| 0 <= k < init[i].len() ==> #[trigger] is_ascii_alnum(init[i][k]) by {
            assert(init[i] == ws[i]);
        }
        lemma_join_chars(init);
        let a = join_underscore(init);
        let l = ws.last();
        assert(l == ws[ws.len() - 1]);
        let j = join_underscore(ws);
        assert(j == a + seq!['_'] + l);
        assert forall|i: int| 0 <= i < j.len() implies #[trigger] is_ascii_alnum(j[i]) || j[i] == '_' by {
            if i < a.len() {
                assert(j[i] == a[i]);
            } else if i > a.len() {
                assert(j[i] == l[i - a.len() - 1]);
            }
        }
        assert(j[0] == a[0]);
    } else if ws.len() == 1 {
        assert(join_underscore(ws) == ws[0]);
    }
}

proof fn lemma_lower_chars(s: Seq<char>)
    requires
        ident_chars(s),
    ensures
        ident_chars(lower(s)),
        lower(s).len() == s.len(),
        s.len() > 0 && is_ascii_alnum(s[0]) ==> is_ascii_alnum(lower(s)[0])
            && (is_ascii_digit(lower(s)[0]) <==> is_ascii_digit(s[0])),
{
    assert forall|i: int| 0 <= i < lower(s).len() implies #[trigger] is_ascii_alnum(lower(s)[i]) || lower(s)[i] == '_' by {
        assert(is_ascii_alnum(s[i]) || s[i] == '_');
    }
}

proof fn lemma_camel_chars(ws: Seq<Seq<char>>)
    requires
        alnum_words(ws),
    ensures
        forall|i: int| 0 <= i < camel(ws).len() ==> #[trigger] is_ascii_alnum(camel(ws)[i]),
        ws.len() > 0 ==> camel(ws).len() > 0 && camel(ws)[0] == upper_char(ws[0][0]),
    decreases ws.len(),
{
    if ws.len() > 0 {
        let init = ws.drop_last();
        assert forall|i: int| 0 <= i < init.len() implies #[trigger] init[i].len() > 0
            && forall|k: int| 0 <= k < init[i].len() ==> #[trigger] is_ascii_alnum(init[i][k]) by {
            assert(init[i] == ws[i]);
        }
        lemma_camel_chars(init);
        let a = camel(init);
        let l = ws.last();
        assert(l == ws[ws.len() - 1]);
        let c = capitalized(l);
        assert(l.len() > 0);
        assert(is_ascii_alnum(l[0]));
        assert(c == seq![upper_char(l[0])] + lower(l.skip(1)));
        assert forall|i: int| 0 <= i < c.len() implies #[trigger] is_ascii_alnum(c[i]) by {
            if i > 0 {
                assert(c[i] == lower_char(l[i]));
                assert(is_ascii_alnum(l[i]));
            }
        }
        let w = camel(ws);
        assert(w == a + c);
        assert forall|i: int| 0 <= i < w.len() implies #[trigger] is_ascii_alnum(w[i]) by {
            if i < a.len() {
                assert(w[i] == a[i]);
            } else {
                assert(w[i] == c[i - a.len()]);
            }
        }
        if init.len() > 0 {
            assert(w[0] == a[0]);
            assert(init[0] == ws[0]);
        } else {
            assert(a.len() == 0);
            assert(w[0] == c[0]);
        }
    }
}

/// The candidate is a plain identifier.
proof fn lemma_candidate_plain(value: Seq<char>, upper_case: bool)
    ensures
        is_plain_ident(ident_candidate(value, upper_case)),
{
    let ws = words(value);
    lemma_words_alnum(value);
    let raw = if upper_case { camel(ws) } else { lower(join_underscore(ws)) };
    if upper_case {
        lemma_camel_chars(ws);
    } else {
        lemma_join_chars(ws);
        lemma_lower_chars(join_underscore(ws));
    }
    let base = if raw.len() == 0 { "value"@ } else { raw };
    reveal_strlit("value");
    assert(ident_chars(base)) by {
        if raw.len() > 0 {
            if upper_case {
                assert forall|i: int| 0 <= i < base.len() implies #[trigger] is_ascii_alnum(base[i]) || base[i] == '_' by {
                    assert(is_ascii_alnum(camel(ws)[i]));
                }
            }
        } else {
            assert forall|i: int| 0 <= i < base.len() implies #[trigger] is_ascii_alnum(base[i]) || base[i] == '_' by {
                assert(base == seq!['v', 'a', 'l', 'u', 'e']);
            }
        }
    }
    assert(base.len() > 0);
    assert(is_ascii_alnum(base[0])) by {
        if raw.len() > 0 {
            if upper_case {
                assert(ws.len() > 0);
                assert(is_ascii_alnum(camel(ws)[0]));
            } else {
                assert(join_underscore(ws).len() > 0);
                assert(ws.len() > 0);
            }
        } else {
            assert(base[0] == 'v');
        }
    }
    let c = ident_candidate(value, upper_case);
    if is_ascii_digit(base[0]) {
        let p = if upper_case { 'V' } else { 'v' };
        assert(c == seq![p] + base);
        assert forall|i: int| 0 <= i < c.len() implies #[trigger] is_ascii_alnum(c[i]) || c[i] == '_' by {
            if i > 0 {
                assert(c[i] == base[i - 1]);
            }
        }
    } else {
        assert(c == base);
    }
}

proof fn lemma_alnum_run_is(s: Seq<char>, j: int)
    requires
        0 <= j <= s.len(),
        forall|k: int| 0 <= k < j ==> is_ascii_alnum(#[trigger] s[k]),
        j == s.len() || !is_ascii_alnum(s[j]),
    ensures
        alnum_run(s) == j,
    decreases j,
{
    if j > 0 {
        let t = s.drop_first();
        assert forall|k: int| 0 <= k < j - 1 implies is_ascii_alnum(#[trigger] t[k]) by {
            assert(t[k] == s[k + 1]);
        }
        if j < s.len() {
            assert(t[j - 1] == s[j]);
        }
        lemma_alnum_run_is(t, j - 1);
    }
}

/// The words of `s`.
pub fn words_exec(s: &[char]) -> (r: Vec<Vec<char>>)
    ensures
        views(r@) == words(s@),
{
    let mut r: Vec<Vec<char>> = Vec::new();
    let mut p: usize = 0;
    proof {
        assert(s@.skip(0) == s@);
        assert(views(r@) + words(s@) == words(s@));
    }
    while p < s.len()
        invariant
            p <= s@.len(),
            words(s@) == views(r@) + words(s@.skip(p as int)),
        decreases s@.len() - p,
    {
        let ghost rest = s@.skip(p as int);
        let mut q = p;
        while q < s.len() && crate::text::is_ascii_alnum_exec(s[q])
            invariant
                p <= q <= s@.len(),
                forall|k: int| p <= k < q ==> is_ascii_alnum(#[trigger] s@[k]),
            decreases s@.len() - q,
        {
            q += 1;
        }
        proof {
            assert forall|k: int| 0 <= k < q - p implies is_ascii_alnum(#[trigger] rest[k]) by {
                assert(rest[k] == s@[p + k]);
            }
            if q < s@.len() {
                assert(rest[q - p] == s@[q as int]);
            }
            lemma_alnum_run_is(rest, q - p);
        }
        if q > p {
            let w = crate::text::slice_of(s, p, q);
            let ghost before = r@;
            r.push(w);
            proof {
                assert(views(r@) =~= views(before).push(w@));
                assert(w@ == rest.take(q - p));
            }
        }
        if q == s.len() {
            proof {
                assert(words(rest) == (if rest.len() > 0 { seq![rest] } else { Seq::<Seq<char>>::empty() }));
                assert(rest.take(q - p) == rest);
                assert(views(r@) + Seq::<Seq<char>>::empty() == views(r@));
            }
            return r;
        }
        proof {
            assert(rest.skip(q - p + 1) == s@.skip(q + 1));
        }
        p = q + 1;
    }
    proof {
        assert(s@.skip(p as int).len() == 0);
        assert(views(r@) + Seq::<Seq<char>>::empty() == views(r@));
    }
    r
}

/// The identifier before syn is asked.
pub fn ident_candidate_exec(value: &[char], upper_case: bool) -> (r: Vec<char>)
    ensures
        r@ == ident_candidate(value@, upper_case),
{
    let ws = words_exec(value);
    let ghost wv = views(ws@);
    let mut base: Vec<char> = Vec::new();
    let mut i: usize = 0;
    while i < ws.len()
        invariant
            wv == views(ws@),
            i <= ws@.len(),
            upper_case ==> base@ == camel(wv.take(i as int)),
            !upper_case ==> base@ == join_underscore(wv.take(i as int)),
        decreases ws@.len() - i,
    {
        let w = &ws[i];
        proof {
            assert(wv.take(i + 1).drop_last() == wv.take(i as int));
            assert(wv.take(i + 1).last() == w@);
        }
        if upper_case {
            if w.len() > 0 {
                base.push(crate::text::upper_char_exec(w[0]));
                let rest = crate::text::slice_of(w, 1, w.len());
                let low = crate::text::lower_exec(&rest);
                crate::text::extend(&mut base, &low);
                proof {
                    assert(rest@ == w@.skip(1));
                }
            }
            proof {
                assert(base@ =~= camel(wv.take(i as int)) + capitalized(w@));
            }
        } else {
            if i > 0 {
                base.push('_');
            }
            crate::text::extend(&mut base, w);
            proof {
                if i == 0 {
                    assert(wv.take(1).len() == 1);
                    assert(base@ =~= w@);
                } else {
                    assert(base@ =~= join_underscore(wv.take(i as int)) + seq!['_'] + w@);
                }
            }
        }
        i += 1;
    }
    proof { assert(wv.take(ws@.len() as int) == wv); }
    let mut base = if upper_case { base } else { crate::text::lower_exec(&base) };
    if base.len() == 0 {
        base = chars_of("value");
        proof { reveal_strlit("value"); }
    }
    if '0' <= base[0] && base[0] <= '9' {
        let mut r: Vec<char> = Vec::new();
        r.push(if upper_case { 'V' } else { 'v' });
        crate::text::extend(&mut r, &base);
        r
    } else {
        base
    }
}

/// No word of syn's keyword list but `_` itself ends with `_`.
proof fn lemma_keyword_underscore(s: Seq<char>)
    requires
        s.len() > 1,
        s.last() == '_',
    ensures
        !is_syn_keyword(s),
{
    reveal_strlit("_");
    reveal_strlit("abstract");
    reveal_strlit("as");
    reveal_strlit("async");
    reveal_strlit("await");
    reveal_strlit("become");
    reveal_strlit("box");
    reveal_strlit("break");
    reveal_strlit("const");
    reveal_strlit("continue");
    reveal_strlit("crate");
    reveal_strlit("do");
    reveal_strlit("dyn");
    reveal_strlit("else");
    reveal_strlit("enum");
    reveal_strlit("extern");
    reveal_strlit("false");
    reveal_strlit("final");
    reveal_strlit("fn");
    reveal_strlit("for");
    reveal_strlit("if");
    reveal_strlit("impl");
    reveal_strlit("in");
    reveal_strlit("let");
    reveal_strlit("loop");
    reveal_strlit("macro");
    reveal_strlit("match");
    reveal_strlit("mod");
    reveal_strlit("move");
    reveal_strlit("mut");
    reveal_strlit("override");
    reveal_strlit("priv");
    reveal_strlit("pub");
    reveal_strlit("ref");
    reveal_strlit("return");
    reveal_strlit("Self");
    reveal_strlit("self");
    reveal_strlit("static");
    reveal_strlit("struct");
    reveal_strlit("super");
    reveal_strlit("trait");
    reveal_strlit("true");
    reveal_strlit("try");
    reveal_strlit("type");
    reveal_strlit("typeof");
    reveal_strlit("unsafe");
    reveal_strlit("unsized");
    reveal_strlit("use");
    reveal_strlit("virtual");
    reveal_strlit("where");
    reveal_strlit("while");
    reveal_strlit("yield");
}

/// The identifier made of `value` (see `ident_of`).
pub fn ident(value: &str, upper_case: bool) -> (r: String)
    ensures
        r@ == ident_of(value@, upper_case),
        // A plain identifier that is none of syn's keywords, which syn
        // therefore accepts.
        is_plain_ident(r@),
        !is_syn_keyword(r@),
{
    let chars = chars_of(value);
    let mut candidate = ident_candidate_exec(&chars, upper_case);
    let text = string_of(&candidate);
    proof { lemma_candidate_plain(value@, upper_case); }
    if !syn_parses_ident(text.as_str()) {
        let ghost c = candidate@;
        candidate.push('_');
        proof {
            assert(candidate@ == c.push('_'));
            assert(candidate@.last() == '_');
            lemma_keyword_underscore(candidate@);
            assert forall|i: int| 0 <= i < candidate@.len() implies #[trigger] is_ascii_alnum(candidate@[i]) || candidate@[i] == '_' by {
                if i < c.len() {
                    assert(candidate@[i] == c[i]);
                }
            }
        }
    }
    string_of(&candidate)
}

// ---------------------------------------------------------------------------
// Sets of names
// ---------------------------------------------------------------------------

/// A set of names.
pub struct NameSet {
    names: Vec<Vec<char>>,
}

impl View for NameSet {
    type V = Set<Seq<char>>;

    closed spec fn view(&self) -> Set<Seq<char>> {
        views(self.names@).to_set()
    }
}

impl NameSet {
    /// A set holding nothing.
    pub fn new() -> (s: NameSet)
        ensures
            s@ == Set::<Seq<char>>::empty(),
    {
        let s = NameSet { names: Vec::new() };
        proof { assert(s@ =~= Set::<Seq<char>>::empty()); }
        s
    }

    /// The set is finite and has at most as many names as it stores.
    pub proof fn lemma_finite(&self)
        ensures
            self@.finite(),
            self@.len() <= self.stored(),
    {
        broadcast use vstd::seq_lib::seq_to_set_is_finite;
        views(self.names@).lemma_cardinality_of_set();
    }

    pub closed spec fn stored(&self) -> nat {
        self.names@.len()
    }

    /// How many names are stored.
    pub fn stored_len(&self) -> (n: usize)
        ensures
            n == self.stored(),
    {
        self.names.len()
    }

    /// Whether the set holds `name`.
    pub fn contains(&self, name: &[char]) -> (r: bool)
        ensures
            r == self@.contains(name@),
    {
        let r = crate::snapshot::contains_chars(&self.names, name);
        proof {
            if views(self.names@).contains(name@) {
                let k = choose|k: int| 0 <= k < views(self.names@).len() && views(self.names@)[k] == name@;
                assert(views(self.names@).to_set().contains(name@));
            }
        }
        r
    }

    /// Adds `name`; tells whether it was absent.
    pub fn insert(&mut self, name: Vec<char>) -> (inserted: bool)
        ensures
            final(self)@ == old(self)@.insert(name@),
            inserted == !old(self)@.contains(name@),
            final(self).stored() <= old(self).stored() + 1,
            !inserted ==> final(self).stored() == old(self).stored(),
    {
        if self.contains(&name) {
            proof { assert(self@.insert(name@) =~= self@); }
            return false;
        }
        let ghost before = views(self.names@);
        let ghost nv = name@;
        self.names.push(name);
        proof {
            assert(views(self.names@) =~= before.push(nv));
            assert forall|x: Seq<char>| before.push(nv).contains(x) <==> before.to_set().insert(nv).contains(x) by {
                if before.push(nv).contains(x) {
                    let k = choose|k: int| 0 <= k < before.push(nv).len() && before.push(nv)[k] == x;
                    if k < before.len() {
                        assert(before[k] == x);
                    }
                }
                if before.contains(x) {
                    let k = choose|k: int| 0 <= k < before.len() && before[k] == x;
                    assert(before.push(nv)[k] == x);
                }
                if x == nv {
                    assert(before.push(nv)[before.len() as int] == x);
                }
            }
            assert(before.push(nv).to_set() =~= before.to_set().insert(nv));
        }
        true
    }

    /// Adds a name given as a string.
    pub fn insert_str(&mut self, name: &str) -> (inserted: bool)
        ensures
            final(self)@ == old(self)@.insert(name@),
            inserted == !old(self)@.contains(name@),
            final(self).stored() <= old(self).stored() + 1,
    {
        self.insert(chars_of(name))
    }
}

// ---------------------------------------------------------------------------
// Unique names
// ---------------------------------------------------------------------------

/// `base` followed by `i` in decimal.
pub open spec fn numbered(base: Seq<char>, i: nat) -> Seq<char> {
    base + decimal(i)
}

/// `base` where it is free, else `base` numbered with the least number from
/// 2 on that is free.
pub open spec fn unique_name(base: Seq<char>, used: Set<Seq<char>>) -> Seq<char> {
    if !used.contains(base) {
        base
    } else {
        numbered(base, choose|i: nat| 2 <= i && !used.contains(numbered(base, i))
            && forall|j: nat| 2 <= j < i ==> used.contains(#[trigger] numbered(base, j)))
    }
}

proof fn lemma_numbered_injective(base: Seq<char>, a: nat, b: nat)
    requires
        numbered(base, a) == numbered(base, b),
    ensures
        a == b,
{
    assert(numbered(base, a).skip(base.len() as int) =~= decimal(a));
    assert(numbered(base, b).skip(base.len() as int) =~= decimal(b));
    lemma_decimal_injective(a, b);
}

/// The names `base2` .. `base{n}`.
spec fn numbered_upto(base: Seq<char>, n: nat) -> Set<Seq<char>>
    decreases n,
{
    if n < 2 { Set::empty() } else { numbered_upto(base, (n - 1) as nat).insert(numbered(base, n)) }
}

proof fn lemma_numbered_upto(base: Seq<char>, n: nat)
    ensures
        numbered_upto(base, n).finite(),
        n >= 1 ==> numbered_upto(base, n).len() == n - 1,
        forall|x: Seq<char>| #[trigger] numbered_upto(base, n).contains(x)
            ==> exists|j: nat| 2 <= j <= n && x == numbered(base, j),
    decreases n,
{
    if n >= 2 {
        let m = (n - 1) as nat;
        lemma_numbered_upto(base, m);
        if numbered_upto(base, m).contains(numbered(base, n)) {
            let j = choose|j: nat| 2 <= j <= m && numbered(base, n) == numbered(base, j);
            lemma_numbered_injective(base, n, j);
        }
        assert forall|x: Seq<char>| #[trigger] numbered_upto(base, n).contains(x)
            implies exists|j: nat| 2 <= j <= n && x == numbered(base, j) by {
            if x != numbered(base, n) {
                assert(numbered_upto(base, m).contains(x));
            }
        }
    }
}

/// Where `base2` .. `base{n}` are all used, there are at least `n - 1` names.
proof fn lemma_pigeonhole(base: Seq<char>, used: Set<Seq<char>>, n: nat)
    requires
        used.finite(),
        n >= 1,
        forall|j: nat| 2 <= j <= n ==> used.contains(#[trigger] numbered(base, j)),
    ensures
        n - 1 <= used.len(),
{
    lemma_numbered_upto(base, n);
    assert(numbered_upto(base, n).subset_of(used));
    vstd::set_lib::lemma_len_subset(numbered_upto(base, n), used);
}

proof fn lemma_least_free(base: Seq<char>, used: Set<Seq<char>>, k: nat)
    requires
        2 <= k,
        !used.contains(numbered(base, k)),
    ensures
        exists|i: nat| 2 <= i && !used.contains(numbered(base, i))
            && forall|j: nat| 2 <= j < i ==> used.contains(#[trigger] numbered(base, j)),
    decreases k,
{
    if exists|j: nat| 2 <= j < k && !used.contains(numbered(base, j)) {
        let j = choose|j: nat| 2 <= j < k && !used.contains(numbered(base, j));
        lemma_least_free(base, used, j);
    } else {
        assert(forall|j: nat| 2 <= j < k ==> used.contains(#[trigger] numbered(base, j)));
    }
}

/// A name made unique among finitely many names in use is not one of them.
pub proof fn lemma_unique_name_fresh(base: Seq<char>, used: Set<Seq<char>>)
    requires
        used.finite(),
    ensures
        !used.contains(unique_name(base, used)),
{
    if used.contains(base) {
        let n = used.len() + 2;
        if forall|j: nat| 2 <= j <= n ==> used.contains(#[trigger] numbered(base, j)) {
            lemma_pigeonhole(base, used, n);
        }
        let k = choose|j: nat| 2 <= j <= n && !used.contains(#[trigger] numbered(base, j));
        lemma_least_free(base, used, k);
    }
}

/// Returns `base` where it is free, else `base` with the least free number
/// from 2 on; the name returned is added to `used`.
pub fn unique_chars(base: Vec<char>, used: &mut NameSet) -> (r: Vec<char>)
    ensures
        r@ == unique_name(base@, old(used)@),
        final(used)@ == old(used)@.insert(r@),
        final(used).stored() <= old(used).stored() + 1,
{
    let copy = crate::text::slice_of(&base, 0, base.len());
    proof { assert(base@.subrange(0, base@.len() as int) == base@); }
    if used.insert(copy) {
        return base;
    }
    proof { assert(used@ =~= old(used)@); }
    let ghost u = used@;
    proof { used.lemma_finite(); }
    let n = used.stored_len();
    let mut i: u128 = 2;
    loop
        invariant
            used@ == u,
            u == old(used)@,
            used.stored() == old(used).stored(),
            u.finite(),
            u.len() <= n,
            n == used.stored(),
            u.contains(base@),
            2 <= i <= n + 2,
            forall|j: nat| 2 <= j < i ==> u.contains(#[trigger] numbered(base@, j)),
        decreases n + 2 - i,
    {
        let mut name = crate::text::slice_of(&base, 0, base.len());
        proof { assert(base@.subrange(0, base@.len() as int) == base@); }
        let digits = decimal_exec(i);
        crate::text::extend(&mut name, &digits);
        proof { assert(name@ == numbered(base@, i as nat)); }
        if !used.contains(&name) {
            proof {
                let k = choose|k: nat| 2 <= k && !u.contains(numbered(base@, k))
                    && forall|j: nat| 2 <= j < k ==> u.contains(#[trigger] numbered(base@, j));
                assert(2 <= i && !u.contains(numbered(base@, i as nat))
                    && forall|j: nat| 2 <= j < i ==> u.contains(#[trigger] numbered(base@, j)));
                if k < i {
                    assert(u.contains(numbered(base@, k)));
                }
                if i < k {
                    assert(u.contains(numbered(base@, i as nat)));
                }
            }
            let copy = crate::text::slice_of(&name, 0, name.len());
            proof { assert(name@.subrange(0, name@.len() as int) == name@); }
            used.insert(copy);
            return name;
        }
        proof {
            assert forall|j: nat| 2 <= j <= i implies u.contains(#[trigger] numbered(base@, j)) by {
                if j == i {
                } else {
                }
            }
            lemma_pigeonhole(base@, u, i as nat);
        }
        i += 1;
    }
}

/// Returns `base` where it is not in `used`, else `base` with the least
/// number from 2 on that makes it so; the name returned is added to `used`.
pub fn unique(base: String, used: &mut NameSet) -> (r: String)
    ensures
        r@ == unique_name(base@, old(used)@),
        final(used)@ == old(used)@.insert(r@),
{
    let chars = chars_of(base.as_str());
    let r = unique_chars(chars, used);
    string_of(&r)
}

/// Drops every `_` at the end.
pub open spec fn trim_underscores(s: Seq<char>) -> Seq<char>
    decreases s.len(),
{
    if s.len() > 0 && s.last() == '_' { trim_underscores(s.drop_last()) } else { s }
}

/// The name of a constant for `value`: its snake-case identifier without
/// trailing underscores, in upper case, made unique in `used`.
pub open spec fn constant_name(value: Seq<char>, used: Set<Seq<char>>) -> Seq<char> {
    unique_name(upper(trim_underscores(ident_of(value, false))), used)
}

/// The name of a constant for `value` (see `constant_name`); it is added
/// to `used`.
pub fn constant(value: &str, used: &mut NameSet) -> (r: String)
    ensures
        r@ == constant_name(value@, old(used)@),
        final(used)@ == old(used)@.insert(r@),
{
    let id = ident(value, false);
    let mut chars = chars_of(id.as_str());
    while chars.len() > 0 && chars[chars.len() - 1] == '_'
        invariant
            trim_underscores(id@) == trim_underscores(chars@),
        decreases chars@.len(),
    {
        chars.pop();
    }
    let up = crate::text::upper_exec(&chars);
    let r = unique_chars(up, used);
    string_of(&r)
}

} // verus!
