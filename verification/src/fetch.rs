//! Discovery of registry groups on the IANA index, and the bookkeeping of
//! their downloads.
use vstd::prelude::*;
use crate::error::{Error, ErrorView};
use crate::order::{sorted, str_lt, string_views, views};
use crate::snapshot::is_valid_id;
use crate::text::{before_any, chars_of, lines, split, starts_with};

verus! {

// ---------------------------------------------------------------------------
// Discovery
// ---------------------------------------------------------------------------

/// The group that a link links to: the text after `href=` must start with
/// a quote; the quoted address, with the `https://www.iana.org` origin
/// dropped, must start with `/assignments/`; the group ID is what follows,
/// up to `/`, `#` or `?`, and must be valid.
pub open spec fn link_group(tail: Seq<char>) -> Option<Seq<char>> {
    if tail.len() == 0 || (tail[0] != '\'' && tail[0] != '"') {
        None
    } else {
        let href = before_any(tail.skip(1), seq![tail[0]]);
        let path = if starts_with(href, "https://www.iana.org"@) { href.skip("https://www.iana.org"@.len() as int) } else { href };
        if !starts_with(path, "/assignments/"@) {
            None
        } else {
            let id = before_any(path.skip("/assignments/"@.len() as int), seq!['/', '#', '?']);
            if is_valid_id(id) { Some(id) } else { None }
        }
    }
}

/// The index links to group `id`.
pub open spec fn links_to(html: Seq<char>, id: Seq<char>) -> bool {
    exists|k: int| 1 <= k < split(html, "href="@).len() && #[trigger] link_group(split(html, "href="@)[k]) == Some(id)
}

fn link_group_exec(tail: &[char]) -> (r: Option<Vec<char>>)
    ensures
        match r {
            Some(id) => link_group(tail@) == Some(id@),
            None => link_group(tail@) is None,
        },
{
    if tail.len() == 0 || (tail[0] != '\'' && tail[0] != '"') {
        return None;
    }
    let quote: [char; 1] = [tail[0]];
    proof { assert(quote@ == seq![tail@[0]]); }
    let after = crate::text::slice_of(tail, 1, tail.len());
    proof { assert(after@ == tail@.skip(1)); }
    let href = crate::text::before_any_exec(&after, &quote);
    let origin = chars_of("https://www.iana.org");
    let path = if crate::text::starts_with_exec(&href, &origin) {
        crate::text::slice_of(&href, origin.len(), href.len())
    } else {
        crate::text::slice_of(&href, 0, href.len())
    };
    proof {
        assert(href@.subrange(origin@.len() as int, href@.len() as int) == href@.skip(origin@.len() as int));
        assert(href@.subrange(0, href@.len() as int) == href@);
    }
    let prefix = chars_of("/assignments/");
    if !crate::text::starts_with_exec(&path, &prefix) {
        return None;
    }
    let rest = crate::text::slice_of(&path, prefix.len(), path.len());
    proof { assert(rest@ == path@.skip(prefix@.len() as int)); }
    let stops: [char; 3] = ['/', '#', '?'];
    proof { assert(stops@ == seq!['/', '#', '?']); }
    let id = crate::text::before_any_exec(&rest, &stops);
    if crate::snapshot::is_valid_id_exec(&id) {
        Some(id)
    } else {
        None
    }
}

/// The registry groups that an IANA index page links to, sorted, each once.
pub fn discover(html: &str) -> (groups: Vec<String>)
    ensures
        sorted(string_views(groups@)),
        forall|id: Seq<char>| string_views(groups@).contains(id) <==> links_to(html@, id),
        forall|i: int| 0 <= i < groups@.len() ==> is_valid_id(#[trigger] groups@[i]@),
{
    let text = chars_of(html);
    let sep = chars_of("href=");
    proof { reveal_strlit("href="); }
    let pieces = crate::text::split_exec(&text, &sep);
    let ghost pv = views(pieces@);
    let mut found: Vec<Vec<char>> = Vec::new();
    let mut k: usize = 1;
    proof { assert(views(found@) =~= Seq::<Seq<char>>::empty()); }
    while k < pieces.len()
        invariant
            pv == views(pieces@),
            pv == split(html@, "href="@),
            1 <= k <= pieces@.len() || pieces@.len() == 0,
            sorted(views(found@)),
            forall|id: Seq<char>| views(found@).contains(id)
                <==> exists|j: int| 1 <= j < k && #[trigger] link_group(pv[j]) == Some(id),
        decreases pieces@.len() - k,
    {
        proof { assert(pv[k as int] == pieces@[k as int]@); }
        match link_group_exec(&pieces[k]) {
            Some(id) => {
                let ghost before = views(found@);
                let ghost idv = id@;
                crate::order::insert_sorted(&mut found, id);
                proof {
                    assert forall|x: Seq<char>| views(found@).contains(x)
                        <==> exists|j: int| 1 <= j < k + 1 && #[trigger] link_group(pv[j]) == Some(x) by {
                        if views(found@).contains(x) && x != idv {
                            assert(before.contains(x));
                        }
                        if x == idv {
                            assert(link_group(pv[k as int]) == Some(x));
                        }
                        if exists|j: int| 1 <= j < k + 1 && #[trigger] link_group(pv[j]) == Some(x) {
                            let j = choose|j: int| 1 <= j < k + 1 && #[trigger] link_group(pv[j]) == Some(x);
                            if j < k {
                                assert(before.contains(x));
                            }
                        }
                    }
                }
            },
            None => {
                proof {
                    assert forall|x: Seq<char>| views(found@).contains(x)
                        <==> exists|j: int| 1 <= j < k + 1 && #[trigger] link_group(pv[j]) == Some(x) by {
                        if exists|j: int| 1 <= j < k + 1 && #[trigger] link_group(pv[j]) == Some(x) {
                            let j = choose|j: int| 1 <= j < k + 1 && #[trigger] link_group(pv[j]) == Some(x);
                            assert(j != k);
                        }
                    }
                }
            },
        }
        k += 1;
    }
    let groups = crate::order::strings_of(&found);
    proof {
        assert forall|i: int| 0 <= i < groups@.len() implies is_valid_id(#[trigger] groups@[i]@) by {
            let x = groups@[i]@;
            assert(string_views(groups@)[i] == x);
            assert(views(found@).contains(x));
            let j = choose|j: int| 1 <= j < pieces@.len() && #[trigger] link_group(pv[j]) == Some(x);
        }
    }
    groups
}

/// The groups of the IANA index page (see `discover`); `NoGroupsDiscovered`
/// where it links to none.
pub fn discover_online(index_html: &str) -> (res: Result<Vec<String>, Error>)
    ensures
        match res {
            Ok(groups) => {
                &&& groups@.len() > 0
                &&& sorted(string_views(groups@))
                &&& forall|id: Seq<char>| string_views(groups@).contains(id) <==> links_to(index_html@, id)
            },
            Err(e) => e@ == ErrorView::NoGroupsDiscovered && forall|id: Seq<char>| !links_to(index_html@, id),
        },
{
    let groups = discover(index_html);
    if groups.len() == 0 {
        proof {
            assert forall|id: Seq<char>| !links_to(index_html@, id) by {
                assert(!string_views(groups@).contains(id));
            }
        }
        return Err(Error::NoGroupsDiscovered);
    }
    Ok(groups)
}

/// The address of a group's XML snapshot.
pub open spec fn snapshot_url_of(id: Seq<char>) -> Seq<char> {
    "https://www.iana.org/assignments/"@ + id + "/"@ + id + ".xml"@
}

/// The address of a group's XML snapshot.
pub fn snapshot_url(id: &str) -> (r: String)
    ensures
        r@ == snapshot_url_of(id@),
{
    let mut v: Vec<char> = Vec::new();
    crate::render::put(&mut v, "https://www.iana.org/assignments/");
    crate::render::put(&mut v, id);
    crate::render::put(&mut v, "/");
    crate::render::put(&mut v, id);
    crate::render::put(&mut v, ".xml");
    proof { assert(v@ =~= snapshot_url_of(id@)); }
    crate::text::string_of(&v)
}

// ---------------------------------------------------------------------------
// Downloads
// ---------------------------------------------------------------------------

/// How often a download is tried.
pub const DOWNLOAD_ATTEMPTS: u32 = 6;

/// The pause in seconds after failed attempt `attempt` (counted from 0):
/// `2 << attempt`, or `None` after the last attempt.
pub fn retry_delay(attempt: u32) -> (r: Option<u64>)
    ensures
        attempt + 1 < DOWNLOAD_ATTEMPTS ==> r == Some(2u64 << attempt),
        attempt + 1 >= DOWNLOAD_ATTEMPTS ==> r is None,
{
    if attempt < DOWNLOAD_ATTEMPTS - 1 {
        Some(2u64 << attempt)
    } else {
        None
    }
}

/// What follows one download attempt.
pub enum AttemptStep {
    /// The download succeeded with this body.
    Done(String),
    /// Wait this many seconds, then try again; the message is the failure's.
    Retry(u64, String),
    /// The last attempt failed with this message: the download fails with it.
    Fail(String),
}

/// Decides what follows attempt `attempt` (counted from 0) of a download,
/// given its outcome: a body ends the download, a failure is retried after
/// `retry_delay(attempt)` seconds while attempts remain, and the failure of
/// the last attempt is the download's.
pub fn after_attempt(attempt: u32, outcome: Result<String, String>) -> (r: AttemptStep)
    ensures
        match outcome {
            Ok(body) => r matches AttemptStep::Done(b) && b@ == body@,
            Err(m) => if attempt + 1 < DOWNLOAD_ATTEMPTS {
                r matches AttemptStep::Retry(d, x) && d == 2u64 << attempt && x@ == m@
            } else {
                r matches AttemptStep::Fail(x) && x@ == m@
            },
        },
{
    match outcome {
        Ok(body) => AttemptStep::Done(body),
        Err(m) => match retry_delay(attempt) {
            Some(d) => AttemptStep::Retry(d, m),
            None => AttemptStep::Fail(m),
        },
    }
}

// ---------------------------------------------------------------------------
// The discovery catalog
// ---------------------------------------------------------------------------

/// The first lines of the discovery catalog.
pub open spec fn catalog_header() -> Seq<char> {
    "# SPDX-FileCopyrightText: 2026 Meowdia Community\n# SPDX-License-Identifier: MIT OR Apache-2.0\n# Discovered IANA group ID\tCanonical XML group ID\n"@
}

pub open spec fn catalog_lines(entries: Seq<(Seq<char>, Seq<char>)>) -> Seq<char>
    decreases entries.len(),
{
    if entries.len() == 0 {
        seq![]
    } else {
        catalog_lines(entries.drop_last()) + entries.last().0 + seq!['\t'] + entries.last().1 + seq!['\n']
    }
}

/// The discovery catalog file: the header, then one `discovered<TAB>canonical`
/// line per entry.
pub fn catalog_contents(catalog: &Vec<(String, String)>) -> (r: String)
    ensures
        r@ == catalog_header() + catalog_lines(crate::render::files_view(catalog@)),
        // What is written passes the catalog check against the canonical IDs
        // it names, where it has an entry, its IDs are valid and no
        // discovered ID occurs twice.
        ({
            let ev = crate::render::files_view(catalog@);
            (ev.len() > 0
                && (forall|k: int| 0 <= k < ev.len() ==> is_valid_id(#[trigger] ev[k].0) && is_valid_id(ev[k].1))
                && (forall|k: int, l: int| 0 <= k < l < ev.len() ==> #[trigger] ev[k].0 != #[trigger] ev[l].0))
            ==> crate::snapshot::check_catalog(lines(r@), ev.map_values(|e: (Seq<char>, Seq<char>)| e.1), seq![]) is Ok
        }),
{
    let ghost ev = crate::render::files_view(catalog@);
    let mut v: Vec<char> = Vec::new();
    crate::render::put(&mut v, "# SPDX-FileCopyrightText: 2026 Meowdia Community\n# SPDX-License-Identifier: MIT OR Apache-2.0\n# Discovered IANA group ID\tCanonical XML group ID\n");
    let ghost start = v@;
    let mut i: usize = 0;
    proof { assert(start + catalog_lines(ev.take(0)) == start); }
    while i < catalog.len()
        invariant
            ev == crate::render::files_view(catalog@),
            i <= catalog@.len(),
            v@ == start + catalog_lines(ev.take(i as int)),
        decreases catalog@.len() - i,
    {
        crate::render::put(&mut v, catalog[i].0.as_str());
        v.push('\t');
        crate::render::put(&mut v, catalog[i].1.as_str());
        v.push('\n');
        proof {
            assert(ev.take(i + 1).drop_last() == ev.take(i as int));
            assert(ev.take(i + 1).last() == (catalog@[i as int].0@, catalog@[i as int].1@));
            assert(v@ =~= start + catalog_lines(ev.take(i + 1)));
        }
        i += 1;
    }
    proof {
        assert(ev.take(catalog@.len() as int) == ev);
        if ev.len() > 0
            && (forall|k: int| 0 <= k < ev.len() ==> is_valid_id(#[trigger] ev[k].0) && is_valid_id(ev[k].1))
            && (forall|k: int, l: int| 0 <= k < l < ev.len() ==> #[trigger] ev[k].0 != #[trigger] ev[l].0) {
            lemma_catalog_accepts_own_canonicals(ev);
        }
    }
    crate::text::string_of(&v)
}

/// The line of a catalog entry.
pub open spec fn entry_line(e: (Seq<char>, Seq<char>)) -> Seq<char> {
    e.0 + seq!['\t'] + e.1
}

proof fn lemma_valid_id_plain(id: Seq<char>)
    requires
        is_valid_id(id),
    ensures
        !id.contains('\n'),
        !id.contains('\t'),
        id.len() > 0 && id.last() != '\r' && id[0] != '#',
{
    if id.contains('\n') {
        let k = choose|k: int| 0 <= k < id.len() && id[k] == '\n';
        assert(crate::snapshot::is_id_char(id[k]));
    }
    if id.contains('\t') {
        let k = choose|k: int| 0 <= k < id.len() && id[k] == '\t';
        assert(crate::snapshot::is_id_char(id[k]));
    }
    assert(crate::snapshot::is_id_char(id[id.len() - 1]));
    assert(crate::snapshot::is_id_char(id[0]));
}

proof fn lemma_entry_line(e: (Seq<char>, Seq<char>))
    requires
        is_valid_id(e.0),
        is_valid_id(e.1),
    ensures
        !entry_line(e).contains('\n'),
        entry_line(e).last() != '\r',
        crate::snapshot::is_catalog_entry(entry_line(e)),
        crate::text::split_once(entry_line(e), seq!['\t']) == Some((e.0, e.1)),
{
    lemma_valid_id_plain(e.0);
    lemma_valid_id_plain(e.1);
    let l = entry_line(e);
    let tab = seq!['\t'];
    if l.contains('\n') {
        let k = choose|k: int| 0 <= k < l.len() && l[k] == '\n';
        if k < e.0.len() {
            assert(e.0[k] == '\n');
        } else if k > e.0.len() {
            assert(e.1[k - e.0.len() - 1] == '\n');
        }
    }
    assert(l.last() == e.1.last());
    assert(!starts_with(l, seq!['#'])) by {
        if starts_with(l, seq!['#']) {
            assert(l.take(1)[0] == l[0]);
        }
    }
    assert(crate::text::occurs_at(l, tab, e.0.len() as int)) by {
        assert(l.subrange(e.0.len() as int, e.0.len() + 1int) =~= tab);
    }
    assert forall|j: int| 0 <= j < e.0.len() implies !crate::text::occurs_at(l, tab, j) by {
        if crate::text::occurs_at(l, tab, j) {
            assert(l.subrange(j, j + 1)[0] == l[j]);
            assert(e.0[j] == '\t');
        }
    }
    crate::text::lemma_find_is(l, tab, e.0.len() as int);
    assert(l.take(e.0.len() as int) =~= e.0);
    assert(l.skip(e.0.len() + 1int) =~= e.1);
}

spec fn header_line(n: int) -> Seq<char> {
    if n == 0 {
        "# SPDX-FileCopyrightText: 2026 Meowdia Community"@
    } else if n == 1 {
        "# SPDX-License-Identifier: MIT OR Apache-2.0"@
    } else {
        "# Discovered IANA group ID\tCanonical XML group ID"@
    }
}

proof fn lemma_header_line(n: int)
    ensures
        !header_line(n).contains('\n'),
        header_line(n).len() > 0,
        header_line(n).last() != '\r',
        header_line(n)[0] == '#',
{
    reveal_strlit("# SPDX-FileCopyrightText: 2026 Meowdia Community");
    reveal_strlit("# SPDX-License-Identifier: MIT OR Apache-2.0");
    reveal_strlit("# Discovered IANA group ID\tCanonical XML group ID");
    let h = header_line(n);
    assert forall|k: int| 0 <= k < h.len() implies h[k] != '\n' by {}
}

proof fn lemma_header_lines()
    ensures
        lines(catalog_header()) == seq![header_line(0), header_line(1), header_line(2)],
        crate::text::ends_line(catalog_header()),
{
    reveal_strlit("# SPDX-FileCopyrightText: 2026 Meowdia Community");
    reveal_strlit("# SPDX-License-Identifier: MIT OR Apache-2.0");
    reveal_strlit("# Discovered IANA group ID\tCanonical XML group ID");
    reveal_strlit("# SPDX-FileCopyrightText: 2026 Meowdia Community\n# SPDX-License-Identifier: MIT OR Apache-2.0\n# Discovered IANA group ID\tCanonical XML group ID\n");
    let nl = seq!['\n'];
    let e = Seq::<char>::empty();
    let p1 = e + header_line(0) + nl;
    let p2 = p1 + header_line(1) + nl;
    let p3 = p2 + header_line(2) + nl;
    assert(catalog_header() =~= p3);
    lemma_header_line(0);
    lemma_header_line(1);
    lemma_header_line(2);
    assert(lines(e) == Seq::<Seq<char>>::empty());
    crate::text::lemma_lines_push(e, header_line(0));
    crate::text::lemma_lines_push(p1, header_line(1));
    crate::text::lemma_lines_push(p2, header_line(2));
    assert(lines(p3) =~= seq![header_line(0), header_line(1), header_line(2)]);
}

proof fn lemma_catalog_file_lines(entries: Seq<(Seq<char>, Seq<char>)>)
    requires
        forall|k: int| 0 <= k < entries.len() ==> is_valid_id(#[trigger] entries[k].0) && is_valid_id(entries[k].1),
    ensures
        lines(catalog_header() + catalog_lines(entries))
            == seq![header_line(0), header_line(1), header_line(2)] + entries.map_values(|e: (Seq<char>, Seq<char>)| entry_line(e)),
        crate::text::ends_line(catalog_header() + catalog_lines(entries)),
    decreases entries.len(),
{
    if entries.len() == 0 {
        lemma_header_lines();
        assert(catalog_header() + catalog_lines(entries) =~= catalog_header());
        assert(entries.map_values(|e: (Seq<char>, Seq<char>)| entry_line(e)) =~= Seq::<Seq<char>>::empty());
    } else {
        let init = entries.drop_last();
        assert forall|k: int| 0 <= k < init.len() implies is_valid_id(#[trigger] init[k].0) && is_valid_id(init[k].1) by {
            assert(init[k] == entries[k]);
        }
        lemma_catalog_file_lines(init);
        let last = entries.last();
        assert(is_valid_id(entries[entries.len() - 1].0));
        lemma_entry_line(last);
        let p = catalog_header() + catalog_lines(init);
        assert(catalog_header() + catalog_lines(entries) =~= p + entry_line(last) + seq!['\n']);
        crate::text::lemma_lines_push(p, entry_line(last));
        assert(entries.map_values(|e: (Seq<char>, Seq<char>)| entry_line(e))
            =~= init.map_values(|e: (Seq<char>, Seq<char>)| entry_line(e)).push(entry_line(last)));
    }
}

proof fn lemma_catalog_accepts_own_canonicals(ev: Seq<(Seq<char>, Seq<char>)>)
    requires
        ev.len() > 0,
        forall|k: int| 0 <= k < ev.len() ==> is_valid_id(#[trigger] ev[k].0) && is_valid_id(ev[k].1),
        forall|k: int, l: int| 0 <= k < l < ev.len() ==> #[trigger] ev[k].0 != #[trigger] ev[l].0,
    ensures
        crate::snapshot::check_catalog(lines(catalog_header() + catalog_lines(ev)),
            ev.map_values(|e: (Seq<char>, Seq<char>)| e.1), seq![]) is Ok,
{
    let ids = ev.map_values(|e: (Seq<char>, Seq<char>)| e.1);
    assert forall|k: int| 0 <= k < ev.len() implies is_valid_id(#[trigger] ev[k].0) && is_valid_id(ev[k].1)
        && ids.contains(ev[k].1) by {
        assert(is_valid_id(ev[k].0));
        assert(ids[k] == ev[k].1);
    }
    lemma_catalog_round_trip(ev, ids);
}

/// The catalog file that a fetch of every group writes is accepted by the
/// check that loading runs against the snapshot IDs `ids`, wherever it has
/// at least one entry, its discovered and canonical IDs are valid, no
/// discovered ID occurs twice, and every canonical ID is one of `ids`.
pub proof fn lemma_catalog_round_trip(entries: Seq<(Seq<char>, Seq<char>)>, ids: Seq<Seq<char>>)
    requires
        entries.len() > 0,
        forall|k: int| 0 <= k < entries.len() ==> is_valid_id(#[trigger] entries[k].0) && is_valid_id(entries[k].1)
            && ids.contains(entries[k].1),
        forall|k: int, l: int| 0 <= k < l < entries.len() ==> #[trigger] entries[k].0 != #[trigger] entries[l].0,
    ensures
        crate::snapshot::check_catalog(lines(catalog_header() + catalog_lines(entries)), ids, seq![]) is Ok,
{
    lemma_catalog_file_lines(entries);
    let ls = lines(catalog_header() + catalog_lines(entries));
    let el = entries.map_values(|e: (Seq<char>, Seq<char>)| entry_line(e));
    lemma_header_line(0);
    lemma_header_line(1);
    lemma_header_line(2);
    assert forall|k: int| 0 <= k < ls.len() && crate::snapshot::is_catalog_entry(#[trigger] ls[k]) implies
        k >= 3 && crate::snapshot::good_entry(ls[k], ids)
        && crate::snapshot::entry_alias(ls[k]) == entries[k - 3].0 by {
        if k < 3 {
            assert(ls[k] == header_line(k));
            assert(ls[k].take(1) =~= seq!['#']);
        } else {
            assert(ls[k] == el[k - 3]);
            lemma_entry_line(entries[k - 3]);
        }
    }
    assert(crate::snapshot::is_catalog_entry(ls[3])) by {
        assert(ls[3] == el[0]);
        lemma_entry_line(entries[0]);
    }
    crate::snapshot::lemma_catalog_accepted(ls, ids);
}

// ---------------------------------------------------------------------------
// Collecting downloads
// ---------------------------------------------------------------------------

/// Sorted, repetitions allowed.
pub open spec fn nondecreasing(s: Seq<Seq<char>>) -> bool {
    forall|i: int, j: int| 0 <= i < j < s.len() ==> !str_lt(#[trigger] s[j], #[trigger] s[i])
}

/// Inserts `x` into a sorted list, after the elements equal to it.
fn insert_nondecreasing(v: &mut Vec<Vec<char>>, x: Vec<char>)
    requires
        nondecreasing(views(old(v)@)),
    ensures
        nondecreasing(views(final(v)@)),
        views(final(v)@).to_multiset() == views(old(v)@).to_multiset().insert(x@),
        final(v)@.len() == old(v)@.len() + 1,
{
    broadcast use vstd::seq_lib::group_to_multiset_ensures;
    let ghost old_v = views(v@);
    let mut i: usize = 0;
    while i < v.len() && !crate::order::lt_exec(&x, &v[i])
        invariant
            i <= v@.len(),
            views(v@) == old_v,
            nondecreasing(old_v),
            forall|k: int| 0 <= k < i ==> !str_lt(x@, #[trigger] old_v[k]),
        decreases v@.len() - i,
    {
        i += 1;
    }
    proof {
        assert forall|k: int| i <= k < old_v.len() implies str_lt(x@, #[trigger] old_v[k]) by {
            assert(str_lt(x@, old_v[i as int]));
            if k > i {
                assert(!str_lt(old_v[k], old_v[i as int]));
                crate::order::lemma_lt_total(old_v[k], old_v[i as int]);
                if old_v[k] != old_v[i as int] {
                    crate::order::lemma_lt_transitive(x@, old_v[i as int], old_v[k]);
                }
            }
        }
    }
    let ghost xv = x@;
    v.insert(i, x);
    proof {
        let nv = views(v@);
        assert(nv =~= old_v.take(i as int).push(xv) + old_v.skip(i as int));
        assert forall|p: int, q: int| 0 <= p < q < nv.len() implies !str_lt(#[trigger] nv[q], #[trigger] nv[p]) by {
            if q < i {
                assert(nv[p] == old_v[p] && nv[q] == old_v[q]);
            } else if q == i {
                assert(nv[p] == old_v[p]);
            } else if p < i {
                assert(nv[p] == old_v[p] && nv[q] == old_v[q - 1]);
                assert(str_lt(xv, old_v[q - 1]));
                crate::order::lemma_lt_asymmetric(old_v[q - 1], xv);
                if str_lt(old_v[q - 1], old_v[p]) {
                    crate::order::lemma_lt_total(old_v[p], xv);
                    if old_v[p] != xv {
                        crate::order::lemma_lt_transitive(old_v[q - 1], old_v[p], xv);
                    }
                }
            } else if p == i {
                assert(nv[q] == old_v[q - 1]);
                crate::order::lemma_lt_asymmetric(old_v[q - 1], xv);
            } else {
                assert(nv[p] == old_v[p - 1] && nv[q] == old_v[q - 1]);
            }
        }
        assert(nv.remove(i as int) =~= old_v);
        assert(nv[i as int] == xv);
        assert(nv.remove(i as int).to_multiset() =~= nv.to_multiset().remove(xv));
        assert(nv.contains(xv));
        assert(nv.to_multiset().count(xv) > 0);
        assert(nv.to_multiset() =~= old_v.to_multiset().insert(xv));
    }
}

pub open spec fn results_view(v: Seq<Result<(String, String), String>>) -> Seq<Result<(Seq<char>, Seq<char>), Seq<char>>> {
    v.map_values(|r: Result<(String, String), String>| match r {
        Ok(p) => Ok((p.0@, p.1@)),
        Err(m) => Err(m@),
    })
}

/// Group to canonical ID, the later download of a group winning.
pub open spec fn fetched(rs: Seq<Result<(Seq<char>, Seq<char>), Seq<char>>>) -> Map<Seq<char>, Seq<char>>
    decreases rs.len(),
{
    if rs.len() == 0 {
        Map::empty()
    } else {
        match rs.last() {
            Ok((id, canonical)) => fetched(rs.drop_last()).insert(id, canonical),
            Err(_) => fetched(rs.drop_last()),
        }
    }
}

/// The messages of the failed downloads, in order.
pub open spec fn failures(rs: Seq<Result<(Seq<char>, Seq<char>), Seq<char>>>) -> Seq<Seq<char>>
    decreases rs.len(),
{
    if rs.len() == 0 {
        seq![]
    } else {
        match rs.last() {
            Ok(_) => failures(rs.drop_last()),
            Err(m) => failures(rs.drop_last()).push(m),
        }
    }
}

/// A catalog in key order that lists exactly the map.
pub open spec fn lists_map(entries: Seq<(Seq<char>, Seq<char>)>, m: Map<Seq<char>, Seq<char>>) -> bool {
    &&& sorted(entries.map_values(|e: (Seq<char>, Seq<char>)| e.0))
    &&& forall|k: Seq<char>| m.dom().contains(k) <==> entries.map_values(|e: (Seq<char>, Seq<char>)| e.0).contains(k)
    &&& forall|i: int| 0 <= i < entries.len() ==> m[#[trigger] entries[i].0] == entries[i].1
}

spec fn pair_views(v: Seq<(Vec<char>, Vec<char>)>) -> Seq<(Seq<char>, Seq<char>)> {
    v.map_values(|p: (Vec<char>, Vec<char>)| (p.0@, p.1@))
}

/// Sets `k` to `val` in a catalog kept in key order.
fn upsert(v: &mut Vec<(Vec<char>, Vec<char>)>, k: Vec<char>, val: Vec<char>, Ghost(m): Ghost<Map<Seq<char>, Seq<char>>>)
    requires
        lists_map(pair_views(old(v)@), m),
    ensures
        lists_map(pair_views(final(v)@), m.insert(k@, val@)),
{
    let ghost old_p = pair_views(v@);
    let ghost old_k = old_p.map_values(|e: (Seq<char>, Seq<char>)| e.0);
    let mut i: usize = 0;
    while i < v.len() && crate::order::lt_exec(&v[i].0, &k)
        invariant
            i <= v@.len(),
            pair_views(v@) == old_p,
            old_k == old_p.map_values(|e: (Seq<char>, Seq<char>)| e.0),
            lists_map(old_p, m),
            forall|j: int| 0 <= j < i ==> str_lt(#[trigger] old_k[j], k@),
        decreases v@.len() - i,
    {
        proof { assert(old_k[i as int] == v@[i as int].0@); }
        i += 1;
    }
    let ghost kv = k@;
    let ghost vv = val@;
    let ghost nm = m.insert(kv, vv);
    if i < v.len() && crate::text::chars_eq(&v[i].0, &k) {
        proof { assert(old_k[i as int] == kv); }
        v.set(i, (k, val));
        proof {
            let np = pair_views(v@);
            let nk = np.map_values(|e: (Seq<char>, Seq<char>)| e.0);
            assert(np =~= old_p.update(i as int, (kv, vv)));
            assert(nk =~= old_k);
            assert forall|x: Seq<char>| nm.dom().contains(x) <==> nk.contains(x) by {
                if x == kv {
                    assert(nk[i as int] == x);
                }
            }
            assert forall|j: int| 0 <= j < np.len() implies nm[#[trigger] np[j].0] == np[j].1 by {
                if j != i {
                    assert(np[j] == old_p[j]);
                    assert(old_k[j] == old_p[j].0);
                    if old_p[j].0 == kv {
                        crate::order::lemma_lt_irreflexive(kv);
                    }
                }
            }
        }
        return;
    }
    proof {
        assert forall|j: int| i <= j < old_k.len() implies str_lt(kv, #[trigger] old_k[j]) by {
            assert(old_k[i as int] == v@[i as int].0@);
            assert(!str_lt(old_k[i as int], kv));
            assert(old_k[i as int] != kv);
            crate::order::lemma_lt_total(old_k[i as int], kv);
            if j > i {
                crate::order::lemma_lt_transitive(kv, old_k[i as int], old_k[j]);
            }
        }
    }
    v.insert(i, (k, val));
    proof {
        let np = pair_views(v@);
        let nk = np.map_values(|e: (Seq<char>, Seq<char>)| e.0);
        assert(np =~= old_p.take(i as int).push((kv, vv)) + old_p.skip(i as int));
        assert(nk =~= old_k.take(i as int).push(kv) + old_k.skip(i as int));
        assert forall|p: int, q: int| 0 <= p < q < nk.len() implies str_lt(#[trigger] nk[p], #[trigger] nk[q]) by {
            if q < i {
                assert(nk[p] == old_k[p] && nk[q] == old_k[q]);
            } else if q == i {
                assert(nk[p] == old_k[p]);
            } else if p < i {
                assert(nk[p] == old_k[p] && nk[q] == old_k[q - 1]);
                crate::order::lemma_lt_transitive(old_k[p], kv, old_k[q - 1]);
            } else if p == i {
                assert(nk[q] == old_k[q - 1]);
            } else {
                assert(nk[p] == old_k[p - 1] && nk[q] == old_k[q - 1]);
            }
        }
        assert forall|x: Seq<char>| nm.dom().contains(x) <==> nk.contains(x) by {
            if nk.contains(x) {
                let j = choose|j: int| 0 <= j < nk.len() && nk[j] == x;
                if j < i {
                    assert(old_k[j] == x);
                } else if j > i {
                    assert(old_k[j - 1] == x);
                }
            }
            if m.dom().contains(x) {
                assert(old_k.contains(x));
                let j = choose|j: int| 0 <= j < old_k.len() && old_k[j] == x;
                if j < i {
                    assert(nk[j] == x);
                } else {
                    assert(nk[j + 1] == x);
                }
            }
            if x == kv {
                assert(nk[i as int] == x);
            }
        }
        assert forall|j: int| 0 <= j < np.len() implies nm[#[trigger] np[j].0] == np[j].1 by {
            if j < i {
                assert(np[j] == old_p[j]);
                assert(old_k[j] == old_p[j].0);
                crate::order::lemma_lt_irreflexive(kv);
            } else if j > i {
                assert(np[j] == old_p[j - 1]);
                assert(old_k[j - 1] == old_p[j - 1].0);
                crate::order::lemma_lt_irreflexive(kv);
            }
        }
    }
}

/// The catalog of successful downloads (group to canonical ID, in group
/// order, the later download winning), where none failed; else
/// `DownloadsFailed` with the messages sorted.
pub fn collect_fetches(results: Vec<Result<(String, String), String>>) -> (res: Result<Vec<(String, String)>, Error>)
    ensures
        match res {
            Ok(catalog) => failures(results_view(results@)).len() == 0
                && lists_map(crate::render::files_view(catalog@), fetched(results_view(results@))),
            Err(e) => {
                &&& failures(results_view(results@)).len() > 0
                &&& e matches Error::DownloadsFailed(ms)
                &&& nondecreasing(string_views(ms@))
                &&& string_views(ms@).to_multiset() == failures(results_view(results@)).to_multiset()
            },
        },
{
    broadcast use vstd::seq_lib::group_to_multiset_ensures;
    let ghost rv = results_view(results@);
    let mut catalog: Vec<(Vec<char>, Vec<char>)> = Vec::new();
    let mut failed: Vec<Vec<char>> = Vec::new();
    let mut i: usize = 0;
    proof {
        assert(rv.take(0) =~= Seq::<Result<(Seq<char>, Seq<char>), Seq<char>>>::empty());
        assert(pair_views(catalog@) =~= Seq::<(Seq<char>, Seq<char>)>::empty());
        assert(pair_views(catalog@).map_values(|e: (Seq<char>, Seq<char>)| e.0) =~= Seq::<Seq<char>>::empty());
        assert(views(failed@) =~= Seq::<Seq<char>>::empty());
        assert(fetched(rv.take(0)) =~= Map::<Seq<char>, Seq<char>>::empty());
    }
    while i < results.len()
        invariant
            rv == results_view(results@),
            i <= results@.len(),
            lists_map(pair_views(catalog@), fetched(rv.take(i as int))),
            nondecreasing(views(failed@)),
            views(failed@).to_multiset() == failures(rv.take(i as int)).to_multiset(),
            views(failed@).len() == failures(rv.take(i as int)).len(),
        decreases results@.len() - i,
    {
        proof {
            assert(rv.take(i + 1).drop_last() == rv.take(i as int));
            assert(rv.take(i + 1).last() == rv[i as int]);
        }
        match &results[i] {
            Ok((id, canonical)) => {
                let ghost m = fetched(rv.take(i as int));
                upsert(&mut catalog, chars_of(id.as_str()), chars_of(canonical.as_str()), Ghost(m));
                proof {
                    assert(rv[i as int] == Ok::<(Seq<char>, Seq<char>), Seq<char>>((id@, canonical@)));
                    assert(failures(rv.take(i + 1)) == failures(rv.take(i as int)));
                }
            },
            Err(message) => {
                let ghost before = views(failed@);
                insert_nondecreasing(&mut failed, chars_of(message.as_str()));
                proof {
                    assert(rv[i as int] == Err::<(Seq<char>, Seq<char>), Seq<char>>(message@));
                    assert(failures(rv.take(i + 1)) == failures(rv.take(i as int)).push(message@));
                    failures(rv.take(i as int)).to_multiset_ensures();
                    assert(failures(rv.take(i as int)).push(message@).to_multiset()
                        =~= failures(rv.take(i as int)).to_multiset().insert(message@));
                }
            },
        }
        i += 1;
    }
    proof { assert(rv.take(results@.len() as int) == rv); }
    if failed.len() == 0 {
        let mut out: Vec<(String, String)> = Vec::new();
        let mut j: usize = 0;
        while j < catalog.len()
            invariant
                j <= catalog@.len(),
                crate::render::files_view(out@) == pair_views(catalog@).take(j as int),
            decreases catalog@.len() - j,
        {
            let a = crate::text::string_of(&catalog[j].0);
            let b = crate::text::string_of(&catalog[j].1);
            let ghost before = out@;
            out.push((a, b));
            proof {
                assert(crate::render::files_view(out@) =~= crate::render::files_view(before).push((a@, b@)));
                assert(pair_views(catalog@).take(j + 1) =~= pair_views(catalog@).take(j as int).push((catalog@[j as int].0@, catalog@[j as int].1@)));
            }
            j += 1;
        }
        proof { assert(pair_views(catalog@).take(catalog@.len() as int) == pair_views(catalog@)); }
        Ok(out)
    } else {
        let messages = crate::order::strings_of(&failed);
        Err(Error::DownloadsFailed(messages))
    }
}

} // verus!
