//! Registry group IDs, the discovery catalog, and IANA registry snapshots.
use vstd::prelude::*;
use crate::error::{Error, ErrorView};
use crate::order::views;
use crate::text::{chars_of, lines, split_once, starts_with, trim};
use crate::xml::{XmlAttributeView, XmlKind, XmlNodeView, XmlTree};

verus! {

/// A character allowed in a registry group ID.
pub open spec fn is_id_char(c: char) -> bool {
    crate::text::is_ascii_alnum(c) || c == '-' || c == '_'
}

/// A registry group ID: non-empty, made of `[A-Za-z0-9_-]` only.
pub open spec fn is_valid_id(id: Seq<char>) -> bool {
    id.len() > 0 && forall|i: int| 0 <= i < id.len() ==> is_id_char(#[trigger] id[i])
}

/// Whether the characters form a registry group ID.
pub fn is_valid_id_exec(id: &[char]) -> (r: bool)
    ensures
        r == is_valid_id(id@),
{
    if id.len() == 0 {
        return false;
    }
    let mut i: usize = 0;
    while i < id.len()
        invariant
            i <= id@.len(),
            forall|j: int| 0 <= j < i ==> is_id_char(#[trigger] id@[j]),
        decreases id@.len() - i,
    {
        let c = id[i];
        if !(crate::text::is_ascii_alnum_exec(c) || c == '-' || c == '_') {
            return false;
        }
        i += 1;
    }
    true
}

/// Accepts exactly the registry group IDs; anything else is
/// `InvalidGroupId` naming the rejected text.
pub fn validate_id(id: &str) -> (res: Result<(), Error>)
    ensures
        res is Ok <==> is_valid_id(id@),
        res matches Err(e) ==> e@ == ErrorView::InvalidGroupId(id@),
{
    let chars = chars_of(id);
    if is_valid_id_exec(&chars) {
        Ok(())
    } else {
        Err(Error::InvalidGroupId(id.to_owned()))
    }
}

/// Whether two strings hold the same characters.
pub fn str_eq(a: &str, b: &str) -> (r: bool)
    ensures
        r == (a@ == b@),
{
    let x = chars_of(a);
    let y = chars_of(b);
    crate::text::chars_eq(&x, &y)
}

/// Whether a list of character vectors holds `x`.
pub fn contains_chars(v: &Vec<Vec<char>>, x: &[char]) -> (r: bool)
    ensures
        r == views(v@).contains(x@),
{
    let mut i: usize = 0;
    while i < v.len()
        invariant
            i <= v@.len(),
            forall|j: int| 0 <= j < i ==> views(v@)[j] != x@,
        decreases v@.len() - i,
    {
        if crate::text::chars_eq(&v[i], x) {
            proof { assert(views(v@)[i as int] == x@); }
            return true;
        }
        i += 1;
    }
    false
}

/// The characters of each string.
pub fn chars_of_all(v: &[String]) -> (r: Vec<Vec<char>>)
    ensures
        views(r@) == crate::order::string_views(v@),
{
    let mut r: Vec<Vec<char>> = Vec::new();
    let mut i: usize = 0;
    while i < v.len()
        invariant
            i <= v@.len(),
            views(r@) == crate::order::string_views(v@).take(i as int),
        decreases v@.len() - i,
    {
        let c = chars_of(v[i].as_str());
        let ghost before = r@;
        r.push(c);
        proof {
            assert(c@ == v@[i as int]@);
            assert(r@ == before.push(c));
            assert(views(before.push(c)) =~= views(before).push(c@));
            assert(crate::order::string_views(v@).take(i + 1) =~= crate::order::string_views(v@).take(i as int).push(v@[i as int]@));
            assert(views(r@) =~= crate::order::string_views(v@).take(i + 1));
        }
        i += 1;
    }
    proof { assert(crate::order::string_views(v@).take(v@.len() as int) == crate::order::string_views(v@)); }
    r
}

// ---------------------------------------------------------------------------
// Records
// ---------------------------------------------------------------------------

pub open spec fn pairs_view(record: Seq<(String, String)>) -> Seq<(Seq<char>, Seq<char>)> {
    record.map_values(|p: (String, String)| (p.0@, p.1@))
}

/// The value of the first column named `key`.
pub open spec fn field_of(record: Seq<(Seq<char>, Seq<char>)>, key: Seq<char>) -> Option<Seq<char>>
    decreases record.len(),
{
    if record.len() == 0 {
        None
    } else if record[0].0 == key {
        Some(record[0].1)
    } else {
        field_of(record.drop_first(), key)
    }
}

/// The value of the first column of `record` named `key`.
pub fn field<'a>(record: &'a [(String, String)], key: &str) -> (r: Option<&'a str>)
    ensures
        match r {
            Some(v) => field_of(pairs_view(record@), key@) == Some(v@),
            None => field_of(pairs_view(record@), key@) is None,
        },
{
    let mut i: usize = 0;
    proof { assert(pairs_view(record@).skip(0) == pairs_view(record@)); }
    while i < record.len()
        invariant
            i <= record@.len(),
            field_of(pairs_view(record@), key@) == field_of(pairs_view(record@).skip(i as int), key@),
        decreases record@.len() - i,
    {
        let ghost rest = pairs_view(record@).skip(i as int);
        assert(rest[0] == (record@[i as int].0@, record@[i as int].1@));
        if str_eq(record[i].0.as_str(), key) {
            return Some(record[i].1.as_str());
        }
        proof { assert(rest.drop_first() == pairs_view(record@).skip(i + 1)); }
        i += 1;
    }
    None
}

// ---------------------------------------------------------------------------
// The discovery catalog
// ---------------------------------------------------------------------------

/// Comment lines and empty lines carry no entry.
pub open spec fn is_catalog_entry(line: Seq<char>) -> bool {
    !starts_with(line, seq!['#']) && line.len() > 0
}

/// What one catalog line contributes: nothing (a comment or an empty
/// line), a new alias, or an error.
pub open spec fn catalog_step(line: Seq<char>, ids: Seq<Seq<char>>, seen: Seq<Seq<char>>) -> Result<Option<Seq<char>>, ErrorView> {
    if !is_catalog_entry(line) {
        Ok(None)
    } else {
        match split_once(line, seq!['\t']) {
            None => Err(ErrorView::InvalidCatalogEntry),
            Some((alias, canonical)) => {
                if !is_valid_id(alias) {
                    Err(ErrorView::InvalidGroupId(alias))
                } else if !is_valid_id(canonical) {
                    Err(ErrorView::InvalidGroupId(canonical))
                } else if seen.contains(alias) {
                    Err(ErrorView::DuplicateCatalogEntry(alias))
                } else if !ids.contains(canonical) {
                    Err(ErrorView::MissingSnapshot(alias, canonical))
                } else {
                    Ok(Some(alias))
                }
            },
        }
    }
}

/// The outcome of checking the catalog lines in order, given the aliases
/// already seen: the first error, else `EmptyCatalog` where no line is an
/// entry.
#[verifier::opaque]
pub open spec fn check_catalog(lines: Seq<Seq<char>>, ids: Seq<Seq<char>>, seen: Seq<Seq<char>>) -> Result<(), ErrorView>
    decreases lines.len(),
{
    if lines.len() == 0 {
        if seen.len() == 0 { Err(ErrorView::EmptyCatalog) } else { Ok(()) }
    } else {
        match catalog_step(lines[0], ids, seen) {
            Err(e) => Err(e),
            Ok(None) => check_catalog(lines.drop_first(), ids, seen),
            Ok(Some(alias)) => check_catalog(lines.drop_first(), ids, seen.push(alias)),
        }
    }
}

proof fn lemma_check_catalog_step(lines: Seq<Seq<char>>, ids: Seq<Seq<char>>, seen: Seq<Seq<char>>)
    ensures
        lines.len() == 0 ==> check_catalog(lines, ids, seen) == (if seen.len() == 0 {
            Err::<(), ErrorView>(ErrorView::EmptyCatalog)
        } else {
            Ok(())
        }),
        lines.len() > 0 ==> check_catalog(lines, ids, seen) == match catalog_step(lines[0], ids, seen) {
            Err(e) => Err(e),
            Ok(None) => check_catalog(lines.drop_first(), ids, seen),
            Ok(Some(alias)) => check_catalog(lines.drop_first(), ids, seen.push(alias)),
        },
{
    reveal(check_catalog);
}

/// The alias of a catalog entry line: the text before its first tab.
pub open spec fn entry_alias(line: Seq<char>) -> Seq<char> {
    split_once(line, seq!['\t'])->Some_0.0
}

/// What an accepted entry line holds: a valid alias and a valid canonical
/// ID, split at the first tab, the canonical ID one of `ids`.
pub open spec fn good_entry(line: Seq<char>, ids: Seq<Seq<char>>) -> bool {
    match split_once(line, seq!['\t']) {
        Some((alias, canonical)) => is_valid_id(alias) && is_valid_id(canonical) && ids.contains(canonical),
        None => false,
    }
}

proof fn lemma_check_catalog_ok(ls: Seq<Seq<char>>, ids: Seq<Seq<char>>, seen: Seq<Seq<char>>)
    requires
        check_catalog(ls, ids, seen) is Ok,
    ensures
        seen.len() > 0 || exists|k: int| 0 <= k < ls.len() && is_catalog_entry(#[trigger] ls[k]),
        forall|k: int| 0 <= k < ls.len() && is_catalog_entry(#[trigger] ls[k]) ==> good_entry(ls[k], ids)
            && !seen.contains(entry_alias(ls[k])),
        forall|k: int, l: int| 0 <= k < l < ls.len() && is_catalog_entry(#[trigger] ls[k])
            && is_catalog_entry(#[trigger] ls[l]) ==> entry_alias(ls[k]) != entry_alias(ls[l]),
    decreases ls.len(),
{
    lemma_check_catalog_step(ls, ids, seen);
    if ls.len() > 0 {
        let tail = ls.drop_first();
        let seen2 = match catalog_step(ls[0], ids, seen) {
            Ok(Some(alias)) => seen.push(alias),
            _ => seen,
        };
        lemma_check_catalog_ok(tail, ids, seen2);
        assert forall|k: int| 0 <= k < ls.len() && is_catalog_entry(#[trigger] ls[k]) implies good_entry(ls[k], ids)
            && !seen.contains(entry_alias(ls[k])) by {
            if k > 0 {
                assert(ls[k] == tail[k - 1]);
                if seen.contains(entry_alias(ls[k])) {
                    let m = choose|m: int| 0 <= m < seen.len() && seen[m] == entry_alias(ls[k]);
                    assert(seen2[m] == seen[m]);
                }
            }
        }
        assert forall|k: int, l: int| 0 <= k < l < ls.len() && is_catalog_entry(#[trigger] ls[k])
            && is_catalog_entry(#[trigger] ls[l]) implies entry_alias(ls[k]) != entry_alias(ls[l]) by {
            assert(ls[l] == tail[l - 1]);
            if k == 0 {
                assert(seen2[seen.len() as int] == entry_alias(ls[0]));
            } else {
                assert(ls[k] == tail[k - 1]);
            }
        }
        if seen.len() == 0 && !is_catalog_entry(ls[0]) {
            let k = choose|k: int| 0 <= k < tail.len() && is_catalog_entry(#[trigger] tail[k]);
            assert(ls[k + 1] == tail[k]);
        }
    }
}

proof fn lemma_check_catalog_accepts(ls: Seq<Seq<char>>, ids: Seq<Seq<char>>, seen: Seq<Seq<char>>)
    requires
        seen.len() > 0 || exists|k: int| 0 <= k < ls.len() && is_catalog_entry(#[trigger] ls[k]),
        forall|k: int| 0 <= k < ls.len() && is_catalog_entry(#[trigger] ls[k]) ==> good_entry(ls[k], ids)
            && !seen.contains(entry_alias(ls[k])),
        forall|k: int, l: int| 0 <= k < l < ls.len() && is_catalog_entry(#[trigger] ls[k])
            && is_catalog_entry(#[trigger] ls[l]) ==> entry_alias(ls[k]) != entry_alias(ls[l]),
    ensures
        check_catalog(ls, ids, seen) is Ok,
    decreases ls.len(),
{
    lemma_check_catalog_step(ls, ids, seen);
    if ls.len() > 0 {
        let tail = ls.drop_first();
        let seen2 = if is_catalog_entry(ls[0]) { seen.push(entry_alias(ls[0])) } else { seen };
        if is_catalog_entry(ls[0]) {
            assert(good_entry(ls[0], ids));
            assert(catalog_step(ls[0], ids, seen) == Ok::<Option<Seq<char>>, ErrorView>(Some(entry_alias(ls[0]))));
        } else {
            assert(catalog_step(ls[0], ids, seen) == Ok::<Option<Seq<char>>, ErrorView>(None));
            if seen.len() == 0 {
                let k = choose|k: int| 0 <= k < ls.len() && is_catalog_entry(#[trigger] ls[k]);
                assert(tail[k - 1] == ls[k]);
            }
        }
        assert forall|k: int| 0 <= k < tail.len() && is_catalog_entry(#[trigger] tail[k]) implies good_entry(tail[k], ids)
            && !seen2.contains(entry_alias(tail[k])) by {
            assert(tail[k] == ls[k + 1]);
            if is_catalog_entry(ls[0]) {
                assert(entry_alias(ls[0]) != entry_alias(ls[k + 1]));
                if seen2.contains(entry_alias(tail[k])) {
                    let m = choose|m: int| 0 <= m < seen2.len() && seen2[m] == entry_alias(tail[k]);
                    if m < seen.len() {
                        assert(seen[m] == seen2[m]);
                    }
                }
            }
        }
        assert forall|k: int, l: int| 0 <= k < l < tail.len() && is_catalog_entry(#[trigger] tail[k])
            && is_catalog_entry(#[trigger] tail[l]) implies entry_alias(tail[k]) != entry_alias(tail[l]) by {
            assert(tail[k] == ls[k + 1]);
            assert(tail[l] == ls[l + 1]);
        }
        lemma_check_catalog_accepts(tail, ids, seen2);
    }
}

/// The conditions under which a catalog is accepted: at least one entry
/// line; every entry line a valid alias and a valid canonical ID split at
/// the first tab, the canonical ID one of `ids`; no two entry lines with
/// the same alias.
pub open spec fn acceptable_catalog(ls: Seq<Seq<char>>, ids: Seq<Seq<char>>) -> bool {
    &&& exists|k: int| 0 <= k < ls.len() && is_catalog_entry(#[trigger] ls[k])
    &&& forall|k: int| 0 <= k < ls.len() && is_catalog_entry(#[trigger] ls[k]) ==> good_entry(ls[k], ids)
    &&& forall|k: int, l: int| 0 <= k < l < ls.len() && is_catalog_entry(#[trigger] ls[k])
        && is_catalog_entry(#[trigger] ls[l]) ==> entry_alias(ls[k]) != entry_alias(ls[l])
}

/// A catalog is accepted against the snapshot IDs `ids` exactly when it has
/// at least one entry line, every entry line is a valid alias and a valid
/// canonical ID split at the first tab with the canonical ID one of `ids`,
/// and no two entry lines have the same alias.
pub proof fn lemma_catalog_accepted(ls: Seq<Seq<char>>, ids: Seq<Seq<char>>)
    ensures
        check_catalog(ls, ids, seq![]) is Ok <==> acceptable_catalog(ls, ids),
{
    if check_catalog(ls, ids, seq![]) is Ok {
        lemma_check_catalog_ok(ls, ids, seq![]);
    }
    if acceptable_catalog(ls, ids) {
        lemma_check_catalog_accepts(ls, ids, seq![]);
    }
}

/// One catalog line.
fn catalog_line(line: &Vec<char>, known: &Vec<Vec<char>>, seen: &Vec<Vec<char>>) -> (res: Result<Option<Vec<char>>, Error>)
    ensures
        match res {
            Ok(None) => catalog_step(line@, views(known@), views(seen@)) == Ok::<Option<Seq<char>>, ErrorView>(None),
            Ok(Some(a)) => catalog_step(line@, views(known@), views(seen@)) == Ok::<Option<Seq<char>>, ErrorView>(Some(a@)),
            Err(e) => catalog_step(line@, views(known@), views(seen@)) == Err::<Option<Seq<char>>, ErrorView>(e@),
        },
{
    let tab: [char; 1] = ['\t'];
    let hash: [char; 1] = ['#'];
    proof { assert(tab@ == seq!['\t']); assert(hash@ == seq!['#']); }
    if crate::text::starts_with_exec(line, &hash) || line.len() == 0 {
        return Ok(None);
    }
    match crate::text::split_once_exec(line, &tab) {
        None => Err(Error::InvalidCatalogEntry),
        Some((alias, canonical)) => {
            if !is_valid_id_exec(&alias) {
                return Err(Error::InvalidGroupId(crate::text::string_of(&alias)));
            }
            if !is_valid_id_exec(&canonical) {
                return Err(Error::InvalidGroupId(crate::text::string_of(&canonical)));
            }
            if contains_chars(seen, &alias) {
                return Err(Error::DuplicateCatalogEntry(crate::text::string_of(&alias)));
            }
            if !contains_chars(known, &canonical) {
                return Err(Error::MissingSnapshot(crate::text::string_of(&alias), crate::text::string_of(&canonical)));
            }
            Ok(Some(alias))
        },
    }
}

/// Checks the discovery catalog (`alias<TAB>canonical` lines, `#` comments)
/// against the IDs of the snapshots at hand.
pub fn validate_catalog(catalog: &str, ids: &[String]) -> (res: Result<(), Error>)
    ensures
        match res {
            Ok(()) => check_catalog(lines(catalog@), crate::order::string_views(ids@), seq![]) is Ok,
            Err(e) => check_catalog(lines(catalog@), crate::order::string_views(ids@), seq![]) == Err::<(), ErrorView>(e@),
        },
{
    let text = chars_of(catalog);
    let all = crate::text::lines_exec(&text);
    let known = chars_of_all(ids);
    let ghost ids_v = crate::order::string_views(ids@);
    let ghost all_v = views(all@);
    let mut seen: Vec<Vec<char>> = Vec::new();
    proof {
        assert(all_v.skip(0) == all_v);
        assert(views(seen@) =~= Seq::<Seq<char>>::empty());
    }
    let mut i: usize = 0;
    while i < all.len()
        invariant
            i <= all@.len(),
            all_v == views(all@),
            all_v == lines(catalog@),
            views(known@) == ids_v,
            ids_v == crate::order::string_views(ids@),
            check_catalog(all_v, ids_v, seq![]) == check_catalog(all_v.skip(i as int), ids_v, views(seen@)),
        decreases all@.len() - i,
    {
        proof {
            assert(all_v.skip(i as int)[0] == all@[i as int]@);
            assert(all_v.skip(i as int).drop_first() == all_v.skip(i + 1));
            lemma_check_catalog_step(all_v.skip(i as int), ids_v, views(seen@));
        }
        match catalog_line(&all[i], &known, &seen) {
            Err(e) => {
                proof {
                    assert(catalog_step(all_v.skip(i as int)[0], ids_v, views(seen@)) == Err::<Option<Seq<char>>, ErrorView>(e@));
                    assert(check_catalog(all_v.skip(i as int), ids_v, views(seen@)) == Err::<(), ErrorView>(e@));
                    assert(check_catalog(all_v, ids_v, seq![]) == Err::<(), ErrorView>(e@));
                    assert(check_catalog(lines(catalog@), crate::order::string_views(ids@), seq![]) == Err::<(), ErrorView>(e@));
                }
                return Err(e);
            },
            Ok(None) => {},
            Ok(Some(alias)) => {
                let ghost before = seen@;
                seen.push(alias);
                proof { assert(views(seen@) =~= views(before).push(alias@)); }
            },
        }
        i += 1;
    }
    proof {
        assert(all_v.skip(i as int).len() == 0);
        lemma_check_catalog_step(all_v.skip(i as int), ids_v, views(seen@));
    }
    if seen.len() == 0 {
        return Err(Error::EmptyCatalog);
    }
    Ok(())
}

// ---------------------------------------------------------------------------
// Snapshots
// ---------------------------------------------------------------------------

/// One registry of a snapshot.
#[derive(Debug)]
pub struct Registry {
    pub id: String,
    pub title: String,
    /// The ID of the registry that this one is nested in.
    pub parent: Option<String>,
    /// The registry's own XML text.
    pub xml: String,
    /// Each record's columns in source order, repeated columns kept.
    pub records: Vec<Vec<(String, String)>>,
}

/// One registry group: a snapshot of an IANA XML document.
#[derive(Debug)]
pub struct Group {
    pub id: String,
    pub title: String,
    pub updated: String,
    /// Every registry of the document, the root one first, in document order.
    pub registries: Vec<Registry>,
}

pub struct RegistryView {
    pub id: Seq<char>,
    pub title: Seq<char>,
    pub parent: Option<Seq<char>>,
    pub xml: Seq<char>,
    pub records: Seq<Seq<(Seq<char>, Seq<char>)>>,
}

pub struct GroupView {
    pub id: Seq<char>,
    pub title: Seq<char>,
    pub updated: Seq<char>,
    pub registries: Seq<RegistryView>,
}

pub open spec fn records_view(records: Seq<Vec<(String, String)>>) -> Seq<Seq<(Seq<char>, Seq<char>)>> {
    records.map_values(|r: Vec<(String, String)>| pairs_view(r@))
}

impl View for Registry {
    type V = RegistryView;

    open spec fn view(&self) -> RegistryView {
        RegistryView {
            id: self.id@,
            title: self.title@,
            parent: crate::xml::opt_view(self.parent),
            xml: self.xml@,
            records: records_view(self.records@),
        }
    }
}

pub open spec fn registries_view(v: Seq<Registry>) -> Seq<RegistryView> {
    v.map_values(|r: Registry| r@)
}

impl View for Group {
    type V = GroupView;

    open spec fn view(&self) -> GroupView {
        GroupView {
            id: self.id@,
            title: self.title@,
            updated: self.updated@,
            registries: registries_view(self.registries@),
        }
    }
}

pub open spec fn groups_view(v: Seq<Group>) -> Seq<GroupView> {
    v.map_values(|g: Group| g@)
}

/// The namespace of IANA registry documents.
pub open spec fn iana_ns() -> Seq<char> {
    "http://www.iana.org/assignments"@
}

pub open spec fn tag_registry() -> Seq<char> { "registry"@ }
pub open spec fn tag_title() -> Seq<char> { "title"@ }
pub open spec fn tag_updated() -> Seq<char> { "updated"@ }
pub open spec fn tag_record() -> Seq<char> { "record"@ }
pub open spec fn attr_id() -> Seq<char> { "id"@ }

/// An element named `name` in the IANA namespace.
pub open spec fn has_tag(n: XmlNodeView, name: Seq<char>) -> bool {
    n.kind == XmlKind::Element && n.namespace == Some(iana_ns()) && n.name == name
}

/// The value of the first attribute named `id` in no namespace.
pub open spec fn id_attribute(attrs: Seq<XmlAttributeView>) -> Option<Seq<char>>
    decreases attrs.len(),
{
    if attrs.len() == 0 {
        None
    } else if attrs[0].namespace is None && attrs[0].name == attr_id() {
        Some(attrs[0].value)
    } else {
        id_attribute(attrs.drop_first())
    }
}

/// A child link that the tree functions follow: to a later node of the
/// tree (every link of a parsed document is one).
pub open spec fn valid_child(nodes: Seq<XmlNodeView>, i: int, c: int) -> bool {
    i < c < nodes.len()
}

/// The concatenated text of the text nodes in and below node `i`, in
/// document order.
pub open spec fn text_of(nodes: Seq<XmlNodeView>, i: int) -> Seq<char>
    decreases nodes.len() - i, nodes[i].children.len() + 1,
{
    (if nodes[i].kind == XmlKind::Text {
        match nodes[i].text {
            Some(t) => t,
            None => Seq::<char>::empty(),
        }
    } else {
        Seq::<char>::empty()
    }) + texts_from(nodes, i, 0)
}

/// The texts below the children of node `i` from the `k`-th on.
pub open spec fn texts_from(nodes: Seq<XmlNodeView>, i: int, k: int) -> Seq<char>
    decreases nodes.len() - i, nodes[i].children.len() - k,
{
    if 0 <= k < nodes[i].children.len() {
        let c = nodes[i].children[k] as int;
        (if valid_child(nodes, i, c) { text_of(nodes, c) } else { Seq::<char>::empty() })
            + texts_from(nodes, i, k + 1)
    } else {
        Seq::<char>::empty()
    }
}

/// The text of a node, trimmed.
pub open spec fn node_text(nodes: Seq<XmlNodeView>, i: int) -> Seq<char> {
    trim(text_of(nodes, i))
}

/// The first child of node `i`, from the `k`-th on, that is an IANA element named `name`.
pub open spec fn child_with_tag(nodes: Seq<XmlNodeView>, i: int, name: Seq<char>, k: int) -> Option<int>
    decreases nodes[i].children.len() - k,
{
    if 0 <= k < nodes[i].children.len() {
        let c = nodes[i].children[k] as int;
        if valid_child(nodes, i, c) && has_tag(nodes[c], name) {
            Some(c)
        } else {
            child_with_tag(nodes, i, name, k + 1)
        }
    } else {
        None
    }
}

/// The text of the first child named `name`, or nothing.
pub open spec fn child_text(nodes: Seq<XmlNodeView>, i: int, name: Seq<char>) -> Seq<char> {
    match child_with_tag(nodes, i, name, 0) {
        Some(c) => node_text(nodes, c),
        None => Seq::<char>::empty(),
    }
}

/// The columns of a record: each element child's local name and text.
pub open spec fn record_fields(nodes: Seq<XmlNodeView>, r: int, k: int) -> Seq<(Seq<char>, Seq<char>)>
    decreases nodes[r].children.len() - k,
{
    if 0 <= k < nodes[r].children.len() {
        let c = nodes[r].children[k] as int;
        if valid_child(nodes, r, c) && nodes[c].kind == XmlKind::Element {
            seq![(nodes[c].name, node_text(nodes, c))] + record_fields(nodes, r, k + 1)
        } else {
            record_fields(nodes, r, k + 1)
        }
    } else {
        Seq::empty()
    }
}

/// The records of registry `i`: its `record` children, from the `k`-th child on.
pub open spec fn records_of(nodes: Seq<XmlNodeView>, i: int, k: int) -> Seq<Seq<(Seq<char>, Seq<char>)>>
    decreases nodes[i].children.len() - k,
{
    if 0 <= k < nodes[i].children.len() {
        let c = nodes[i].children[k] as int;
        if valid_child(nodes, i, c) && has_tag(nodes[c], tag_record()) {
            seq![record_fields(nodes, c, 0)] + records_of(nodes, i, k + 1)
        } else {
            records_of(nodes, i, k + 1)
        }
    } else {
        Seq::empty()
    }
}

/// The registry elements in and below node `i`, in document order, each
/// with the node it was reached from (`parent`, for node `i`).
pub open spec fn registry_list(nodes: Seq<XmlNodeView>, i: int, parent: Option<int>) -> Seq<(int, Option<int>)>
    decreases nodes.len() - i, nodes[i].children.len() + 1,
{
    (if has_tag(nodes[i], tag_registry()) { seq![(i, parent)] } else { Seq::empty() })
        + registry_list_from(nodes, i, 0)
}

pub open spec fn registry_list_from(nodes: Seq<XmlNodeView>, i: int, k: int) -> Seq<(int, Option<int>)>
    decreases nodes.len() - i, nodes[i].children.len() - k,
{
    if 0 <= k < nodes[i].children.len() {
        let c = nodes[i].children[k] as int;
        (if valid_child(nodes, i, c) { registry_list(nodes, c, Some(i)) } else { Seq::empty() })
            + registry_list_from(nodes, i, k + 1)
    } else {
        Seq::empty()
    }
}

/// The ID of the registry that a registry is nested in.
pub open spec fn parent_id(nodes: Seq<XmlNodeView>, parent: Option<int>) -> Option<Seq<char>> {
    match parent {
        Some(p) => if has_tag(nodes[p], tag_registry()) { id_attribute(nodes[p].attributes) } else { None },
        None => None,
    }
}

pub open spec fn registry_of(nodes: Seq<XmlNodeView>, i: int, parent: Option<int>, id: Seq<char>) -> RegistryView {
    RegistryView {
        id,
        title: child_text(nodes, i, tag_title()),
        parent: parent_id(nodes, parent),
        xml: nodes[i].source,
        records: records_of(nodes, i, 0),
    }
}

/// The registries of the listed elements, in order, after those in `acc`;
/// or the first missing or repeated ID.
#[verifier::opaque]
pub open spec fn registries_of(
    nodes: Seq<XmlNodeView>,
    list: Seq<(int, Option<int>)>,
    seen: Seq<Seq<char>>,
    acc: Seq<RegistryView>,
) -> Result<Seq<RegistryView>, ErrorView>
    decreases list.len(),
{
    if list.len() == 0 {
        Ok(acc)
    } else {
        let (i, parent) = list[0];
        match id_attribute(nodes[i].attributes) {
            None => Err(ErrorView::MissingRegistryId),
            Some(id) => if seen.contains(id) {
                Err(ErrorView::DuplicateRegistryId(id))
            } else {
                registries_of(nodes, list.drop_first(), seen.push(id), acc.push(registry_of(nodes, i, parent, id)))
            },
        }
    }
}

/// The first element child of node `i`, from the `k`-th child on.
pub open spec fn element_child(nodes: Seq<XmlNodeView>, i: int, k: int) -> Option<int>
    decreases nodes[i].children.len() - k,
{
    if 0 <= k < nodes[i].children.len() {
        let c = nodes[i].children[k] as int;
        if valid_child(nodes, i, c) && nodes[c].kind == XmlKind::Element {
            Some(c)
        } else {
            element_child(nodes, i, k + 1)
        }
    } else {
        None
    }
}

/// The group that a document tree describes: its root element must be an
/// IANA `registry` with a valid `id`; every registry element in it, the
/// root included, must have an `id`, and no two the same.
pub open spec fn snapshot_of(nodes: Seq<XmlNodeView>) -> Result<GroupView, ErrorView> {
    match if nodes.len() > 0 { element_child(nodes, 0, 0) } else { None } {
        None => Err(ErrorView::NotRegistryXml),
        Some(r) => if !has_tag(nodes[r], tag_registry()) {
            Err(ErrorView::NotRegistryXml)
        } else {
            match id_attribute(nodes[r].attributes) {
                None => Err(ErrorView::MissingGroupId),
                Some(id) => if !is_valid_id(id) {
                    Err(ErrorView::InvalidGroupId(id))
                } else {
                    match registries_of(nodes, registry_list(nodes, r, None), seq![], seq![]) {
                        Err(e) => Err(e),
                        Ok(registries) => Ok(GroupView {
                            id,
                            title: child_text(nodes, r, tag_title()),
                            updated: child_text(nodes, r, tag_updated()),
                            registries,
                        }),
                    }
                },
            }
        },
    }
}

proof fn lemma_registries_of_ok(
    nodes: Seq<XmlNodeView>,
    list: Seq<(int, Option<int>)>,
    seen: Seq<Seq<char>>,
    acc: Seq<RegistryView>,
)
    requires
        registries_of(nodes, list, seen, acc) is Ok,
    ensures
        ({
            let regs = registries_of(nodes, list, seen, acc)->Ok_0;
            &&& regs.len() == acc.len() + list.len()
            &&& forall|k: int| 0 <= k < acc.len() ==> regs[k] == acc[k]
            &&& forall|k: int| acc.len() <= k < regs.len() ==> !seen.contains(#[trigger] regs[k].id)
            &&& forall|k: int, l: int| acc.len() <= k < l < regs.len() ==> #[trigger] regs[k].id != #[trigger] regs[l].id
            &&& list.len() > 0 ==> regs[acc.len() as int] == registry_of(nodes, list[0].0, list[0].1,
                id_attribute(nodes[list[0].0].attributes)->Some_0)
        }),
    decreases list.len(),
{
    reveal(registries_of);
    if list.len() > 0 {
        let (i, parent) = list[0];
        let id = id_attribute(nodes[i].attributes)->Some_0;
        let acc2 = acc.push(registry_of(nodes, i, parent, id));
        let seen2 = seen.push(id);
        lemma_registries_of_ok(nodes, list.drop_first(), seen2, acc2);
        let regs = registries_of(nodes, list, seen, acc)->Ok_0;
        assert(regs == registries_of(nodes, list.drop_first(), seen2, acc2)->Ok_0);
        assert(regs[acc.len() as int] == acc2[acc.len() as int]);
        assert forall|k: int| 0 <= k < acc.len() implies regs[k] == acc[k] by {
            assert(regs[k] == acc2[k]);
        }
        assert forall|k: int| acc.len() <= k < regs.len() implies !seen.contains(#[trigger] regs[k].id) by {
            if k > acc.len() {
                assert(!seen2.contains(regs[k].id));
                if seen.contains(regs[k].id) {
                    let m = choose|m: int| 0 <= m < seen.len() && seen[m] == regs[k].id;
                    assert(seen2[m] == seen[m]);
                }
            }
        }
        assert forall|k: int, l: int| acc.len() <= k < l < regs.len() implies #[trigger] regs[k].id != #[trigger] regs[l].id by {
            if k == acc.len() {
                assert(!seen2.contains(regs[l].id));
                assert(seen2[seen.len() as int] == id);
            }
        }
    }
}

/// A snapshot that reads without error describes a group with a valid ID
/// whose first registry is the root element itself (with no parent), and
/// no two of whose registries share an ID.
pub proof fn lemma_snapshot_registries(nodes: Seq<XmlNodeView>)
    requires
        snapshot_of(nodes) is Ok,
    ensures
        ({
            let g = snapshot_of(nodes)->Ok_0;
            &&& is_valid_id(g.id)
            &&& g.registries.len() > 0
            &&& g.registries[0].id == g.id
            &&& g.registries[0].parent is None
            &&& forall|k: int, l: int| 0 <= k < l < g.registries.len() ==> #[trigger] g.registries[k].id != #[trigger] g.registries[l].id
        }),
{
    let r = element_child(nodes, 0, 0)->Some_0;
    let list = registry_list(nodes, r, None);
    assert(list[0] == (r, None::<int>));
    lemma_registries_of_ok(nodes, list, seq![], seq![]);
}

/// The subtree of node `i` occupies the positions `i .. hi` in document
/// order: its children come in increasing order after it, and the subtree
/// of each child ends where the next child (or `hi`) begins.
pub open spec fn subtree_in(nodes: Seq<XmlNodeView>, i: int, hi: int) -> bool
    decreases nodes.len() - i, nodes[i].children.len() + 1,
{
    0 <= i < hi && hi <= nodes.len() && children_in(nodes, i, 0, hi)
}

pub open spec fn children_in(nodes: Seq<XmlNodeView>, i: int, k: int, hi: int) -> bool
    decreases nodes.len() - i, nodes[i].children.len() - k,
{
    if 0 <= k < nodes[i].children.len() {
        let c = nodes[i].children[k] as int;
        let next = if k + 1 < nodes[i].children.len() { nodes[i].children[k + 1] as int } else { hi };
        &&& i < c
        &&& c < next
        &&& next <= hi
        &&& hi <= nodes.len()
        &&& subtree_in(nodes, c, next)
        &&& children_in(nodes, i, k + 1, hi)
    } else {
        true
    }
}

/// A document whose nodes are numbered in document order, each subtree a
/// block of consecutive positions after its node (as roxmltree numbers
/// them).
pub open spec fn document_order(nodes: Seq<XmlNodeView>) -> bool {
    nodes.len() > 0 && subtree_in(nodes, 0, nodes.len() as int)
}

/// Registry elements listed at positions in `lo .. hi`, in increasing order.
pub open spec fn listed_in(nodes: Seq<XmlNodeView>, l: Seq<(int, Option<int>)>, lo: int, hi: int) -> bool {
    &&& forall|a: int| 0 <= a < l.len() ==> lo <= (#[trigger] l[a]).0 < hi && has_tag(nodes[l[a].0], tag_registry())
    &&& forall|a: int, b: int| 0 <= a < b < l.len() ==> (#[trigger] l[a]).0 < (#[trigger] l[b]).0
}

proof fn lemma_listed_concat(nodes: Seq<XmlNodeView>, x: Seq<(int, Option<int>)>, y: Seq<(int, Option<int>)>, lo: int, mid: int, hi: int)
    requires
        lo <= mid <= hi,
        listed_in(nodes, x, lo, mid),
        listed_in(nodes, y, mid, hi),
    ensures
        listed_in(nodes, x + y, lo, hi),
{
    let z = x + y;
    assert forall|a: int| 0 <= a < z.len() implies lo <= (#[trigger] z[a]).0 < hi && has_tag(nodes[z[a].0], tag_registry()) by {
        if a < x.len() {
            assert(z[a] == x[a]);
        } else {
            assert(z[a] == y[a - x.len()]);
        }
    }
    assert forall|a: int, b: int| 0 <= a < b < z.len() implies (#[trigger] z[a]).0 < (#[trigger] z[b]).0 by {
        if b < x.len() {
            assert(z[a] == x[a] && z[b] == x[b]);
        } else if a >= x.len() {
            assert(z[a] == y[a - x.len()] && z[b] == y[b - x.len()]);
        } else {
            assert(z[a] == x[a] && z[b] == y[b - x.len()]);
        }
    }
}

proof fn lemma_subtree_listed(nodes: Seq<XmlNodeView>, i: int, hi: int, parent: Option<int>)
    requires
        subtree_in(nodes, i, hi),
    ensures
        listed_in(nodes, registry_list(nodes, i, parent), i, hi),
    decreases nodes.len() - i, nodes[i].children.len() + 1,
{
    lemma_children_listed(nodes, i, 0, hi);
    let head: Seq<(int, Option<int>)> = if has_tag(nodes[i], tag_registry()) { seq![(i, parent)] } else { Seq::empty() };
    let lo1 = if 0 < nodes[i].children.len() { nodes[i].children[0] as int } else { hi };
    assert(listed_in(nodes, head, i, i + 1));
    let rest = registry_list_from(nodes, i, 0);
    assert(listed_in(nodes, rest, i + 1, hi));
    lemma_listed_concat(nodes, head, rest, i, i + 1, hi);
}

proof fn lemma_children_listed(nodes: Seq<XmlNodeView>, i: int, k: int, hi: int)
    requires
        0 <= i,
        0 <= k,
        children_in(nodes, i, k, hi),
        i < hi,
    ensures
        listed_in(nodes, registry_list_from(nodes, i, k),
            if k < nodes[i].children.len() { nodes[i].children[k] as int } else { hi }, hi),
        k < nodes[i].children.len() ==> i < nodes[i].children[k] as int,
    decreases nodes.len() - i, nodes[i].children.len() - k,
{
    if k < nodes[i].children.len() {
        let c = nodes[i].children[k] as int;
        let next = if k + 1 < nodes[i].children.len() { nodes[i].children[k + 1] as int } else { hi };
        lemma_subtree_listed(nodes, c, next, Some(i));
        lemma_children_listed(nodes, i, k + 1, hi);
        assert(valid_child(nodes, i, c));
        lemma_listed_concat(nodes, registry_list(nodes, c, Some(i)), registry_list_from(nodes, i, k + 1), c, next, hi);
    }
}

proof fn lemma_registries_of_all(
    nodes: Seq<XmlNodeView>,
    list: Seq<(int, Option<int>)>,
    seen: Seq<Seq<char>>,
    acc: Seq<RegistryView>,
)
    requires
        registries_of(nodes, list, seen, acc) is Ok,
    ensures
        ({
            let regs = registries_of(nodes, list, seen, acc)->Ok_0;
            &&& regs.len() == acc.len() + list.len()
            &&& forall|k: int| 0 <= k < list.len() ==> id_attribute(nodes[(#[trigger] list[k]).0].attributes) is Some
                && regs[acc.len() + k] == registry_of(nodes, list[k].0, list[k].1,
                    id_attribute(nodes[list[k].0].attributes)->Some_0)
        }),
    decreases list.len(),
{
    reveal(registries_of);
    lemma_registries_of_ok(nodes, list, seen, acc);
    if list.len() > 0 {
        let (i, parent) = list[0];
        let id = id_attribute(nodes[i].attributes)->Some_0;
        let acc2 = acc.push(registry_of(nodes, i, parent, id));
        let t = list.drop_first();
        lemma_registries_of_all(nodes, t, seen.push(id), acc2);
        let regs = registries_of(nodes, list, seen, acc)->Ok_0;
        assert(regs == registries_of(nodes, t, seen.push(id), acc2)->Ok_0);
        assert forall|k: int| 0 <= k < list.len() implies id_attribute(nodes[(#[trigger] list[k]).0].attributes) is Some
            && regs[acc.len() + k] == registry_of(nodes, list[k].0, list[k].1,
                id_attribute(nodes[list[k].0].attributes)->Some_0) by {
            if k > 0 {
                assert(list[k] == t[k - 1]);
                assert(acc2.len() + (k - 1) == acc.len() + k);
            }
        }
    }
}

proof fn lemma_element_child_is_child(nodes: Seq<XmlNodeView>, i: int, k: int)
    requires
        0 <= k,
        element_child(nodes, i, k) is Some,
    ensures
        exists|m: int| k <= m < nodes[i].children.len() && nodes[i].children[m] as int == element_child(nodes, i, k)->Some_0,
    decreases nodes[i].children.len() - k,
{
    if k < nodes[i].children.len() {
        let c = nodes[i].children[k] as int;
        if !(valid_child(nodes, i, c) && nodes[c].kind == XmlKind::Element) {
            lemma_element_child_is_child(nodes, i, k + 1);
        }
    }
}

proof fn lemma_child_subtree(nodes: Seq<XmlNodeView>, i: int, k: int, m: int, hi: int)
    requires
        0 <= k <= m < nodes[i].children.len(),
        children_in(nodes, i, k, hi),
    ensures
        subtree_in(nodes, nodes[i].children[m] as int,
            if m + 1 < nodes[i].children.len() { nodes[i].children[m + 1] as int } else { hi }),
    decreases m - k,
{
    if k < m {
        lemma_child_subtree(nodes, i, k + 1, m, hi);
    }
}

/// The registries of a snapshot come in document order: they are registry
/// elements at strictly increasing positions of a document numbered in
/// document order, each read from the element at its position, so a
/// registry element that starts before another comes first.
/// The positions `pos` returned are those of the registries' elements.
pub proof fn lemma_registries_in_document_order(nodes: Seq<XmlNodeView>) -> (pos: Seq<int>)
    requires
        snapshot_of(nodes) is Ok,
        document_order(nodes),
    ensures
        ({
            let g = snapshot_of(nodes)->Ok_0;
            &&& pos.len() == g.registries.len()
            &&& forall|a: int, b: int| 0 <= a < b < pos.len() ==> #[trigger] pos[a] < #[trigger] pos[b]
            &&& forall|k: int| 0 <= k < pos.len() ==> {
                &&& 0 <= #[trigger] pos[k] < nodes.len()
                &&& has_tag(nodes[pos[k]], tag_registry())
                &&& id_attribute(nodes[pos[k]].attributes) == Some(g.registries[k].id)
                &&& g.registries[k].xml == nodes[pos[k]].source
            }
        }),
{
    let r = element_child(nodes, 0, 0)->Some_0;
    lemma_element_child_is_child(nodes, 0, 0);
    let m = choose|m: int| 0 <= m < nodes[0].children.len() && nodes[0].children[m] as int == r;
    let next = if m + 1 < nodes[0].children.len() { nodes[0].children[m + 1] as int } else { nodes.len() as int };
    lemma_child_subtree(nodes, 0, 0, m, nodes.len() as int);
    let list = registry_list(nodes, r, None);
    lemma_subtree_listed(nodes, r, next, None);
    lemma_registries_of_all(nodes, list, seq![], seq![]);
    let g = snapshot_of(nodes)->Ok_0;
    let regs = g.registries;
    assert(regs == registries_of(nodes, list, seq![], seq![])->Ok_0);
    let pos = list.map_values(|e: (int, Option<int>)| e.0);
    assert forall|a: int, b: int| 0 <= a < b < pos.len() implies #[trigger] pos[a] < #[trigger] pos[b] by {
        assert(list[a].0 < list[b].0);
    }
    assert forall|k: int| 0 <= k < pos.len() implies {
        &&& 0 <= #[trigger] pos[k] < nodes.len()
        &&& has_tag(nodes[pos[k]], tag_registry())
        &&& id_attribute(nodes[pos[k]].attributes) == Some(g.registries[k].id)
        &&& g.registries[k].xml == nodes[pos[k]].source
    } by {
        assert(pos[k] == list[k].0);
        assert(r <= list[k].0 < next);
        assert(regs[0 + k] == registry_of(nodes, list[k].0, list[k].1, id_attribute(nodes[list[k].0].attributes)->Some_0));
    }
    pos
}

// ---------------------------------------------------------------------------
// Reading a snapshot tree
// ---------------------------------------------------------------------------

/// Whether a node is an IANA element named `name`.
fn is_tag(node: &crate::xml::XmlNode, name: &[char]) -> (r: bool)
    ensures
        r == has_tag(node@, name@),
{
    let ns = chars_of("http://www.iana.org/assignments");
    if node.kind != XmlKind::Element {
        return false;
    }
    match &node.namespace {
        None => false,
        Some(u) => {
            let uc = chars_of(u.as_str());
            let nc = chars_of(node.name.as_str());
            crate::text::chars_eq(&uc, &ns) && crate::text::chars_eq(&nc, name)
        },
    }
}

/// The value of the first attribute named `id` in no namespace.
fn id_attr(attrs: &Vec<crate::xml::XmlAttribute>) -> (r: Option<String>)
    ensures
        crate::xml::opt_view(r) == id_attribute(attrs@.map_values(|a: crate::xml::XmlAttribute| a@)),
{
    let id = chars_of("id");
    let ghost all = attrs@.map_values(|a: crate::xml::XmlAttribute| a@);
    let mut k: usize = 0;
    proof { assert(all.skip(0) == all); }
    while k < attrs.len()
        invariant
            k <= attrs@.len(),
            id@ == attr_id(),
            all == attrs@.map_values(|a: crate::xml::XmlAttribute| a@),
            id_attribute(all) == id_attribute(all.skip(k as int)),
        decreases attrs@.len() - k,
    {
        let a = &attrs[k];
        proof {
            assert(all.skip(k as int)[0] == a@);
            assert(all.skip(k as int).drop_first() == all.skip(k + 1));
        }
        if a.namespace.is_none() {
            let name = chars_of(a.name.as_str());
            if crate::text::chars_eq(&name, &id) {
                return Some(a.value.clone());
            }
        }
        k += 1;
    }
    None
}

/// Appends the text of the text nodes in and below node `i`.
fn text_into(tree: &XmlTree, i: usize, out: &mut Vec<char>)
    requires
        i < tree@.len(),
    ensures
        final(out)@ == old(out)@ + text_of(tree@, i as int),
    decreases tree@.len() - i,
{
    let ghost nodes = tree@;
    let node = &tree.nodes[i];
    proof { assert(node@ == nodes[i as int]); }
    if node.kind == XmlKind::Text {
        match &node.text {
            Some(t) => {
                let tc = chars_of(t.as_str());
                crate::text::extend(out, &tc);
            },
            None => {},
        }
    }
    let ghost own = out@;
    let mut k: usize = 0;
    while k < node.children.len()
        invariant
            nodes == tree@,
            i < nodes.len(),
            node@ == nodes[i as int],
            k <= node.children@.len(),
            own + texts_from(nodes, i as int, 0) == out@ + texts_from(nodes, i as int, k as int),
        decreases node.children@.len() - k,
    {
        let c = node.children[k];
        if i < c && c < tree.nodes.len() {
            text_into(tree, c, out);
        }
        proof {
            assert(own + texts_from(nodes, i as int, 0) == out@ + texts_from(nodes, i as int, k + 1));
        }
        k += 1;
    }
    proof {
        assert(texts_from(nodes, i as int, k as int) == Seq::<char>::empty());
        assert(out@ + Seq::<char>::empty() == out@);
        assert(old(out)@ + text_of(nodes, i as int) == own + texts_from(nodes, i as int, 0));
    }
}

/// The trimmed text of node `i`.
fn node_text_exec(tree: &XmlTree, i: usize) -> (r: Vec<char>)
    requires
        i < tree@.len(),
    ensures
        r@ == node_text(tree@, i as int),
{
    let mut out: Vec<char> = Vec::new();
    text_into(tree, i, &mut out);
    proof { assert(Seq::<char>::empty() + text_of(tree@, i as int) == text_of(tree@, i as int)); }
    crate::text::trim_exec(&out)
}

/// The first child of node `i` that is an IANA element named `name`.
fn child_with_tag_exec(tree: &XmlTree, i: usize, name: &[char]) -> (r: Option<usize>)
    requires
        i < tree@.len(),
    ensures
        match r {
            Some(c) => child_with_tag(tree@, i as int, name@, 0) == Some(c as int) && i < c < tree@.len(),
            None => child_with_tag(tree@, i as int, name@, 0) is None,
        },
{
    let ghost nodes = tree@;
    let node = &tree.nodes[i];
    proof { assert(node@ == nodes[i as int]); }
    let mut k: usize = 0;
    while k < node.children.len()
        invariant
            nodes == tree@,
            i < nodes.len(),
            node@ == nodes[i as int],
            k <= node.children@.len(),
            child_with_tag(nodes, i as int, name@, 0) == child_with_tag(nodes, i as int, name@, k as int),
        decreases node.children@.len() - k,
    {
        let c = node.children[k];
        if i < c && c < tree.nodes.len() {
            proof { assert(tree.nodes@[c as int]@ == nodes[c as int]); }
            if is_tag(&tree.nodes[c], name) {
                return Some(c);
            }
        }
        k += 1;
    }
    None
}

/// The trimmed text of the first child named `name`, or nothing.
fn child_text_exec(tree: &XmlTree, i: usize, name: &[char]) -> (r: Vec<char>)
    requires
        i < tree@.len(),
    ensures
        r@ == child_text(tree@, i as int, name@),
{
    match child_with_tag_exec(tree, i, name) {
        Some(c) => node_text_exec(tree, c),
        None => Vec::new(),
    }
}

/// The columns of record `r`.
fn record_fields_exec(tree: &XmlTree, r: usize) -> (fields: Vec<(String, String)>)
    requires
        r < tree@.len(),
    ensures
        pairs_view(fields@) == record_fields(tree@, r as int, 0),
{
    let ghost nodes = tree@;
    let node = &tree.nodes[r];
    proof { assert(node@ == nodes[r as int]); }
    let mut fields: Vec<(String, String)> = Vec::new();
    let mut k: usize = 0;
    proof { assert(pairs_view(fields@) + record_fields(nodes, r as int, 0) == record_fields(nodes, r as int, 0)); }
    while k < node.children.len()
        invariant
            nodes == tree@,
            r < nodes.len(),
            node@ == nodes[r as int],
            k <= node.children@.len(),
            record_fields(nodes, r as int, 0) == pairs_view(fields@) + record_fields(nodes, r as int, k as int),
        decreases node.children@.len() - k,
    {
        let c = node.children[k];
        if r < c && c < tree.nodes.len() && tree.nodes[c].kind == XmlKind::Element {
            proof { assert(tree.nodes@[c as int]@ == nodes[c as int]); }
            let name = tree.nodes[c].name.clone();
            let text = node_text_exec(tree, c);
            let value = crate::text::string_of(&text);
            let ghost before = fields@;
            fields.push((name, value));
            proof {
                assert(pairs_view(fields@) =~= pairs_view(before).push((name@, value@)));
                assert(record_fields(nodes, r as int, k as int)
                    == seq![(nodes[c as int].name, node_text(nodes, c as int))] + record_fields(nodes, r as int, k + 1));
                assert(pairs_view(fields@) + record_fields(nodes, r as int, k + 1)
                    =~= pairs_view(before) + (seq![(name@, value@)] + record_fields(nodes, r as int, k + 1)));
            }
        }
        k += 1;
    }
    proof {
        assert(record_fields(nodes, r as int, k as int) == Seq::<(Seq<char>, Seq<char>)>::empty());
        assert(pairs_view(fields@) + Seq::<(Seq<char>, Seq<char>)>::empty() == pairs_view(fields@));
    }
    fields
}

/// The records of registry `i`.
fn records_exec(tree: &XmlTree, i: usize) -> (records: Vec<Vec<(String, String)>>)
    requires
        i < tree@.len(),
    ensures
        records_view(records@) == records_of(tree@, i as int, 0),
{
    let ghost nodes = tree@;
    let node = &tree.nodes[i];
    proof { assert(node@ == nodes[i as int]); }
    let record = chars_of("record");
    let mut records: Vec<Vec<(String, String)>> = Vec::new();
    let mut k: usize = 0;
    proof { assert(records_view(records@) + records_of(nodes, i as int, 0) == records_of(nodes, i as int, 0)); }
    while k < node.children.len()
        invariant
            nodes == tree@,
            i < nodes.len(),
            node@ == nodes[i as int],
            record@ == tag_record(),
            k <= node.children@.len(),
            records_of(nodes, i as int, 0) == records_view(records@) + records_of(nodes, i as int, k as int),
        decreases node.children@.len() - k,
    {
        let c = node.children[k];
        if i < c && c < tree.nodes.len() && is_tag(&tree.nodes[c], &record) {
            proof { assert(tree.nodes@[c as int]@ == nodes[c as int]); }
            let fields = record_fields_exec(tree, c);
            let ghost before = records@;
            records.push(fields);
            proof {
                assert(records_view(records@) =~= records_view(before).push(pairs_view(fields@)));
                assert(records_view(records@) + records_of(nodes, i as int, k + 1)
                    =~= records_view(before) + (seq![pairs_view(fields@)] + records_of(nodes, i as int, k + 1)));
            }
        } else {
            proof {
                if i < c && c < tree.nodes.len() {
                    assert(tree.nodes@[c as int]@ == nodes[c as int]);
                }
            }
        }
        k += 1;
    }
    proof {
        assert(records_of(nodes, i as int, k as int) == Seq::<Seq<(Seq<char>, Seq<char>)>>::empty());
        assert(records_view(records@) + Seq::<Seq<(Seq<char>, Seq<char>)>>::empty() == records_view(records@));
    }
    records
}

pub open spec fn list_view(v: Seq<(usize, Option<usize>)>) -> Seq<(int, Option<int>)> {
    v.map_values(|p: (usize, Option<usize>)| (p.0 as int, match p.1 { Some(q) => Some(q as int), None => None }))
}

/// Appends the registry elements in and below node `i`, each with the node
/// it was reached from.
pub open spec fn entry_ok(nodes: Seq<XmlNodeView>, e: (usize, Option<usize>)) -> bool {
    e.0 < nodes.len() && (e.1 matches Some(q) ==> q < nodes.len())
}

fn registry_list_into(tree: &XmlTree, i: usize, parent: Option<usize>, out: &mut Vec<(usize, Option<usize>)>)
    requires
        i < tree@.len(),
        parent matches Some(q) ==> q < tree@.len(),
        forall|k: int| 0 <= k < old(out)@.len() ==> entry_ok(tree@, #[trigger] old(out)@[k]),
    ensures
        list_view(final(out)@) == list_view(old(out)@)
            + registry_list(tree@, i as int, match parent { Some(q) => Some(q as int), None => None }),
        forall|k: int| 0 <= k < final(out)@.len() ==> entry_ok(tree@, #[trigger] final(out)@[k]),
    decreases tree@.len() - i,
{
    let ghost nodes = tree@;
    let ghost pv = match parent { Some(q) => Some(q as int), None => None };
    let node = &tree.nodes[i];
    proof { assert(node@ == nodes[i as int]); }
    let registry = chars_of("registry");
    proof { assert(registry@ == tag_registry()); }
    if is_tag(node, &registry) {
        let ghost before = out@;
        out.push((i, parent));
        proof { assert(entry_ok(nodes, out@[out@.len() - 1])); }
        proof { assert(list_view(out@) =~= list_view(before).push((i as int, pv))); }
    }
    let ghost own = list_view(out@);
    proof {
        assert(own == list_view(old(out)@)
            + (if has_tag(nodes[i as int], tag_registry()) { seq![(i as int, pv)] } else { Seq::<(int, Option<int>)>::empty() }));
    }
    let mut k: usize = 0;
    while k < node.children.len()
        invariant
            nodes == tree@,
            i < nodes.len(),
            node@ == nodes[i as int],
            k <= node.children@.len(),
            own + registry_list_from(nodes, i as int, 0) == list_view(out@) + registry_list_from(nodes, i as int, k as int),
            forall|j: int| 0 <= j < out@.len() ==> entry_ok(nodes, #[trigger] out@[j]),
        decreases node.children@.len() - k,
    {
        let c = node.children[k];
        if i < c && c < tree.nodes.len() {
            registry_list_into(tree, c, Some(i), out);
        }
        proof {
            assert(own + registry_list_from(nodes, i as int, 0) == list_view(out@) + registry_list_from(nodes, i as int, k + 1));
        }
        k += 1;
    }
    proof {
        assert(registry_list_from(nodes, i as int, k as int) == Seq::<(int, Option<int>)>::empty());
        assert(list_view(out@) + Seq::<(int, Option<int>)>::empty() == list_view(out@));
    }
}

proof fn lemma_registries_step(
    nodes: Seq<XmlNodeView>,
    list: Seq<(int, Option<int>)>,
    seen: Seq<Seq<char>>,
    acc: Seq<RegistryView>,
)
    ensures
        list.len() == 0 ==> registries_of(nodes, list, seen, acc) == Ok::<Seq<RegistryView>, ErrorView>(acc),
        list.len() > 0 ==> registries_of(nodes, list, seen, acc) == match id_attribute(nodes[list[0].0].attributes) {
            None => Err(ErrorView::MissingRegistryId),
            Some(id) => if seen.contains(id) {
                Err(ErrorView::DuplicateRegistryId(id))
            } else {
                registries_of(nodes, list.drop_first(), seen.push(id), acc.push(registry_of(nodes, list[0].0, list[0].1, id)))
            },
        },
{
    reveal(registries_of);
}

/// The ID of the registry that a registry is nested in.
fn parent_id_exec(tree: &XmlTree, parent: Option<usize>) -> (r: Option<String>)
    requires
        parent matches Some(q) ==> q < tree@.len(),
    ensures
        crate::xml::opt_view(r) == parent_id(tree@, match parent { Some(q) => Some(q as int), None => None }),
{
    match parent {
        None => None,
        Some(p) => {
            let registry = chars_of("registry");
            proof {
                assert(registry@ == tag_registry());
                assert(tree.nodes@[p as int]@ == tree@[p as int]);
            }
            if is_tag(&tree.nodes[p], &registry) {
                id_attr(&tree.nodes[p].attributes)
            } else {
                None
            }
        },
    }
}

/// The registries of the listed elements, or the first missing or repeated ID.
fn registries_exec(tree: &XmlTree, list: &Vec<(usize, Option<usize>)>) -> (res: Result<Vec<Registry>, Error>)
    requires
        forall|k: int| 0 <= k < list@.len() ==> entry_ok(tree@, #[trigger] list@[k]),
    ensures
        match res {
            Ok(v) => registries_of(tree@, list_view(list@), seq![], seq![]) == Ok::<Seq<RegistryView>, ErrorView>(registries_view(v@)),
            Err(e) => registries_of(tree@, list_view(list@), seq![], seq![]) == Err::<Seq<RegistryView>, ErrorView>(e@),
        },
{
    let ghost nodes = tree@;
    let ghost all = list_view(list@);
    let title = chars_of("title");
    let mut seen: Vec<Vec<char>> = Vec::new();
    let mut out: Vec<Registry> = Vec::new();
    proof {
        assert(all.skip(0) == all);
        assert(views(seen@) =~= Seq::<Seq<char>>::empty());
        assert(registries_view(out@) =~= Seq::<RegistryView>::empty());
    }
    let mut k: usize = 0;
    while k < list.len()
        invariant
            nodes == tree@,
            all == list_view(list@),
            title@ == tag_title(),
            k <= list@.len(),
            forall|j: int| 0 <= j < list@.len() ==> entry_ok(nodes, #[trigger] list@[j]),
            registries_of(nodes, all, seq![], seq![])
                == registries_of(nodes, all.skip(k as int), views(seen@), registries_view(out@)),
        decreases list@.len() - k,
    {
        let (i, parent) = list[k];
        proof {
            assert(entry_ok(nodes, list@[k as int]));
            assert(all.skip(k as int)[0] == (i as int, match parent { Some(q) => Some(q as int), None => None }));
            assert(all.skip(k as int).drop_first() == all.skip(k + 1));
            lemma_registries_step(nodes, all.skip(k as int), views(seen@), registries_view(out@));
            assert(tree.nodes@[i as int]@ == nodes[i as int]);
        }
        let id = match id_attr(&tree.nodes[i].attributes) {
            None => {
                return Err(Error::MissingRegistryId);
            },
            Some(id) => id,
        };
        let idc = chars_of(id.as_str());
        if contains_chars(&seen, &idc) {
            return Err(Error::DuplicateRegistryId(id));
        }
        let registry = Registry {
            id,
            title: crate::text::string_of(&child_text_exec(tree, i, &title)),
            parent: parent_id_exec(tree, parent),
            xml: tree.nodes[i].source.clone(),
            records: records_exec(tree, i),
        };
        let ghost before_seen = seen@;
        let ghost before_out = out@;
        seen.push(idc);
        out.push(registry);
        proof {
            assert(views(seen@) =~= views(before_seen).push(idc@));
            assert(registries_view(out@) =~= registries_view(before_out).push(registry@));
            assert(registry@ == registry_of(nodes, i as int, match parent { Some(q) => Some(q as int), None => None }, idc@));
        }
        k += 1;
    }
    proof {
        lemma_registries_step(nodes, all.skip(k as int), views(seen@), registries_view(out@));
    }
    Ok(out)
}

/// The first element child of node `i`.
fn element_child_exec(tree: &XmlTree, i: usize) -> (r: Option<usize>)
    requires
        i < tree@.len(),
    ensures
        match r {
            Some(c) => element_child(tree@, i as int, 0) == Some(c as int) && c < tree@.len(),
            None => element_child(tree@, i as int, 0) is None,
        },
{
    let ghost nodes = tree@;
    let node = &tree.nodes[i];
    proof { assert(node@ == nodes[i as int]); }
    let mut k: usize = 0;
    while k < node.children.len()
        invariant
            nodes == tree@,
            i < nodes.len(),
            node@ == nodes[i as int],
            k <= node.children@.len(),
            element_child(nodes, i as int, 0) == element_child(nodes, i as int, k as int),
        decreases node.children@.len() - k,
    {
        let c = node.children[k];
        if i < c && c < tree.nodes.len() {
            proof { assert(tree.nodes@[c as int]@ == nodes[c as int]); }
            if tree.nodes[c].kind == XmlKind::Element {
                return Some(c);
            }
        }
        k += 1;
    }
    None
}

/// The group that a document tree describes (see `snapshot_of`).
pub fn snapshot_from_tree(tree: &XmlTree) -> (res: Result<Group, Error>)
    ensures
        match res {
            Ok(g) => snapshot_of(tree@) == Ok::<GroupView, ErrorView>(g@),
            Err(e) => snapshot_of(tree@) == Err::<GroupView, ErrorView>(e@),
        },
{
    let ghost nodes = tree@;
    if tree.nodes.len() == 0 {
        return Err(Error::NotRegistryXml);
    }
    let root = match element_child_exec(tree, 0) {
        None => {
            return Err(Error::NotRegistryXml);
        },
        Some(r) => r,
    };
    proof { assert(tree.nodes@[root as int]@ == nodes[root as int]); }
    let registry = chars_of("registry");
    proof { assert(registry@ == tag_registry()); }
    if !is_tag(&tree.nodes[root], &registry) {
        return Err(Error::NotRegistryXml);
    }
    let id = match id_attr(&tree.nodes[root].attributes) {
        None => {
            return Err(Error::MissingGroupId);
        },
        Some(id) => id,
    };
    let idc = chars_of(id.as_str());
    if !is_valid_id_exec(&idc) {
        return Err(Error::InvalidGroupId(id));
    }
    let mut list: Vec<(usize, Option<usize>)> = Vec::new();
    registry_list_into(tree, root, None, &mut list);
    proof { assert(list_view(list@) =~= registry_list(nodes, root as int, None)); }
    let registries = registries_exec(tree, &list)?;
    let title = chars_of("title");
    let updated = chars_of("updated");
    let title_text = crate::text::string_of(&child_text_exec(tree, root, &title));
    let updated_text = crate::text::string_of(&child_text_exec(tree, root, &updated));
    Ok(Group { id, title: title_text, updated: updated_text, registries })
}

/// Parses an IANA registry XML snapshot: the XML through `roxmltree`
/// (`Xml` with its message where it refuses the text), then the group that
/// the document tree describes.
pub fn parse_snapshot(xml: &str) -> (res: Result<Group, Error>)
    ensures
        match crate::xml::xml_document(xml@) {
            None => res matches Err(Error::Xml(_)),
            Some(nodes) => match res {
                Ok(g) => snapshot_of(nodes) == Ok::<GroupView, ErrorView>(g@),
                Err(e) => snapshot_of(nodes) == Err::<GroupView, ErrorView>(e@),
            },
        },
{
    match crate::xml::parse_xml(xml) {
        Err(message) => Err(Error::Xml(message)),
        Ok(tree) => snapshot_from_tree(&tree),
    }
}

// ---------------------------------------------------------------------------
// Loading every snapshot
// ---------------------------------------------------------------------------

/// What parsing a snapshot gives: `None` where the XML parser refuses it,
/// else the outcome of reading the group.
pub open spec fn snapshot_outcome(xml: Seq<char>) -> Option<Result<GroupView, ErrorView>> {
    match crate::xml::xml_document(xml) {
        None => None,
        Some(nodes) => Some(snapshot_of(nodes)),
    }
}

/// The outcome of reading snapshot files in order.
pub enum LoadOutcome {
    /// Every file read, the groups in file order.
    Loaded(Seq<GroupView>),
    /// The XML parser refused the named file.
    Unparsable(Seq<char>),
    /// Another error.
    Failed(ErrorView),
}

/// Reads `(path, xml)` snapshot files in order, after the group IDs `seen`
/// and the groups `acc`: the first file that fails stops it.
pub open spec fn load_outcome(files: Seq<(Seq<char>, Seq<char>)>, seen: Seq<Seq<char>>, acc: Seq<GroupView>) -> LoadOutcome
    decreases files.len(),
{
    if files.len() == 0 {
        LoadOutcome::Loaded(acc)
    } else {
        match snapshot_outcome(files[0].1) {
            None => LoadOutcome::Unparsable(files[0].0),
            Some(Err(e)) => LoadOutcome::Failed(ErrorView::InFile(files[0].0, Box::new(e))),
            Some(Ok(g)) => if seen.contains(g.id) {
                LoadOutcome::Failed(ErrorView::DuplicateGroup(g.id))
            } else {
                load_outcome(files.drop_first(), seen.push(g.id), acc.push(g))
            },
        }
    }
}

pub open spec fn group_ids(gs: Seq<GroupView>) -> Seq<Seq<char>> {
    gs.map_values(|g: GroupView| g.id)
}

/// `result` holds the groups `gs`, each once, in increasing order of ID.
pub open spec fn sorted_by_id(result: Seq<GroupView>, gs: Seq<GroupView>) -> bool {
    &&& crate::order::sorted(group_ids(result))
    &&& result.len() == gs.len()
    &&& forall|g: GroupView| gs.contains(g) ==> result.contains(g)
}

/// Inserts a group into a list kept in order of ID.
fn insert_by_id(v: &mut Vec<Group>, g: Group)
    requires
        crate::order::sorted(group_ids(groups_view(old(v)@))),
        !group_ids(groups_view(old(v)@)).contains(g.id@),
    ensures
        crate::order::sorted(group_ids(groups_view(final(v)@))),
        groups_view(final(v)@).len() == groups_view(old(v)@).len() + 1,
        forall|x: GroupView| groups_view(final(v)@).contains(x) <==> (groups_view(old(v)@).contains(x) || x == g@),
{
    let ghost old_g = groups_view(v@);
    let ghost old_k = group_ids(old_g);
    let gid = chars_of(g.id.as_str());
    let mut i: usize = 0;
    while i < v.len() && crate::order::lt_exec(&chars_of(v[i].id.as_str()), &gid)
        invariant
            i <= v@.len(),
            groups_view(v@) == old_g,
            old_k == group_ids(old_g),
            gid@ == g.id@,
            crate::order::sorted(old_k),
            forall|j: int| 0 <= j < i ==> crate::order::str_lt(#[trigger] old_k[j], gid@),
        decreases v@.len() - i,
    {
        proof { assert(old_k[i as int] == v@[i as int].id@); }
        i += 1;
    }
    proof {
        assert forall|j: int| i <= j < old_k.len() implies crate::order::str_lt(gid@, #[trigger] old_k[j]) by {
            assert(old_k[i as int] == v@[i as int].id@);
            assert(!crate::order::str_lt(old_k[i as int], gid@));
            assert(old_k.contains(old_k[i as int]));
            crate::order::lemma_lt_total(old_k[i as int], gid@);
            if j > i {
                crate::order::lemma_lt_transitive(gid@, old_k[i as int], old_k[j]);
            }
        }
    }
    let ghost gv = g@;
    v.insert(i, g);
    proof {
        let ng = groups_view(v@);
        let nk = group_ids(ng);
        assert(ng =~= old_g.take(i as int).push(gv) + old_g.skip(i as int));
        assert(nk =~= old_k.take(i as int).push(gv.id) + old_k.skip(i as int));
        assert forall|p: int, q: int| 0 <= p < q < nk.len() implies crate::order::str_lt(#[trigger] nk[p], #[trigger] nk[q]) by {
            if q < i {
                assert(nk[p] == old_k[p] && nk[q] == old_k[q]);
            } else if q == i {
                assert(nk[p] == old_k[p]);
            } else if p < i {
                assert(nk[p] == old_k[p] && nk[q] == old_k[q - 1]);
                crate::order::lemma_lt_transitive(old_k[p], gv.id, old_k[q - 1]);
            } else if p == i {
                assert(nk[q] == old_k[q - 1]);
            } else {
                assert(nk[p] == old_k[p - 1] && nk[q] == old_k[q - 1]);
            }
        }
        assert forall|x: GroupView| ng.contains(x) <==> (old_g.contains(x) || x == gv) by {
            if ng.contains(x) {
                let j = choose|j: int| 0 <= j < ng.len() && ng[j] == x;
                if j < i {
                    assert(old_g[j] == x);
                } else if j > i {
                    assert(old_g[j - 1] == x);
                }
            }
            if old_g.contains(x) {
                let j = choose|j: int| 0 <= j < old_g.len() && old_g[j] == x;
                if j < i {
                    assert(ng[j] == x);
                } else {
                    assert(ng[j + 1] == x);
                }
            }
            if x == gv {
                assert(ng[i as int] == x);
            }
        }
    }
}

proof fn lemma_load_step(files: Seq<(Seq<char>, Seq<char>)>, seen: Seq<Seq<char>>, acc: Seq<GroupView>)
    requires
        files.len() > 0,
    ensures
        load_outcome(files, seen, acc) == match snapshot_outcome(files[0].1) {
            None => LoadOutcome::Unparsable(files[0].0),
            Some(Err(e)) => LoadOutcome::Failed(ErrorView::InFile(files[0].0, Box::new(e))),
            Some(Ok(g)) => if seen.contains(g.id) {
                LoadOutcome::Failed(ErrorView::DuplicateGroup(g.id))
            } else {
                load_outcome(files.drop_first(), seen.push(g.id), acc.push(g))
            },
        },
{
}

/// Reads the snapshot files (path and XML text, in directory order) and
/// the discovery catalog where there is one: every file must parse (an
/// error names its path), no two may describe one group, there must be at
/// least one, and the catalog must hold against their IDs. The groups come
/// out in order of ID.
pub fn load_groups(files: Vec<(String, String)>, catalog: Option<String>) -> (res: Result<Vec<Group>, Error>)
    ensures
        match load_outcome(crate::render::files_view(files@), seq![], seq![]) {
            LoadOutcome::Unparsable(path) => res matches Err(Error::InFile(p, inner)) && p@ == path && *inner matches Error::Xml(_),
            LoadOutcome::Failed(e) => res matches Err(x) && x@ == e,
            LoadOutcome::Loaded(gs) => if gs.len() == 0 {
                res matches Err(x) && x@ == ErrorView::NoSnapshots
            } else {
                match catalog {
                    Some(c) if check_catalog(lines(c@), group_ids(gs), seq![]) is Err =>
                        res matches Err(x) && Err::<(), ErrorView>(x@) == check_catalog(lines(c@), group_ids(gs), seq![]),
                    _ => res matches Ok(v) && sorted_by_id(groups_view(v@), gs),
                }
            },
        },
        // Loaded groups: at least one, in strictly increasing order of ID.
        res matches Ok(v) ==> v@.len() > 0 && crate::order::sorted(group_ids(groups_view(v@))),
{
    let ghost fv = crate::render::files_view(files@);
    let mut groups: Vec<Group> = Vec::new();
    let mut ids: Vec<String> = Vec::new();
    let mut ids_chars: Vec<Vec<char>> = Vec::new();
    let ghost mut acc: Seq<GroupView> = seq![];
    let mut i: usize = 0;
    proof {
        assert(fv.skip(0) == fv);
        assert(views(ids_chars@) =~= Seq::<Seq<char>>::empty());
        assert(crate::order::string_views(ids@) =~= Seq::<Seq<char>>::empty());
        assert(groups_view(groups@) =~= Seq::<GroupView>::empty());
        assert(group_ids(acc) =~= Seq::<Seq<char>>::empty());
    }
    while i < files.len()
        invariant
            fv == crate::render::files_view(files@),
            i <= files@.len(),
            load_outcome(fv, seq![], seq![]) == load_outcome(fv.skip(i as int), group_ids(acc), acc),
            views(ids_chars@) == group_ids(acc),
            crate::order::string_views(ids@) == group_ids(acc),
            crate::order::sorted(group_ids(groups_view(groups@))),
            groups_view(groups@).len() == acc.len(),
            forall|x: GroupView| groups_view(groups@).contains(x) <==> acc.contains(x),
        decreases files@.len() - i,
    {
        proof {
            assert(fv.skip(i as int)[0] == (files@[i as int].0@, files@[i as int].1@));
            assert(fv.skip(i as int).drop_first() == fv.skip(i + 1));
            lemma_load_step(fv.skip(i as int), group_ids(acc), acc);
        }
        let group = match parse_snapshot(files[i].1.as_str()) {
            Ok(g) => g,
            Err(e) => {
                return Err(Error::InFile(files[i].0.clone(), Box::new(e)));
            },
        };
        let idc = chars_of(group.id.as_str());
        if crate::snapshot::contains_chars(&ids_chars, &idc) {
            return Err(Error::DuplicateGroup(group.id));
        }
        proof {
            assert(!group_ids(groups_view(groups@)).contains(group.id@)) by {
                if group_ids(groups_view(groups@)).contains(group.id@) {
                    let j = choose|j: int| 0 <= j < groups_view(groups@).len() && group_ids(groups_view(groups@))[j] == group.id@;
                    assert(groups_view(groups@).contains(groups_view(groups@)[j]));
                    assert(acc.contains(groups_view(groups@)[j]));
                    let k = choose|k: int| 0 <= k < acc.len() && acc[k] == groups_view(groups@)[j];
                    assert(group_ids(acc)[k] == group.id@);
                }
            }
        }
        let ghost gv = group@;
        let id_copy = group.id.clone();
        let ghost before_ids = ids@;
        ids.push(id_copy);
        ids_chars.push(idc);
        let ghost before_groups = groups_view(groups@);
        insert_by_id(&mut groups, group);
        proof {
            assert(crate::order::string_views(ids@) =~= crate::order::string_views(before_ids).push(gv.id));
            assert(group_ids(acc.push(gv)) =~= group_ids(acc).push(gv.id));
            assert forall|x: GroupView| acc.push(gv).contains(x) <==> (acc.contains(x) || x == gv) by {
                if acc.push(gv).contains(x) {
                    let k = choose|k: int| 0 <= k < acc.push(gv).len() && acc.push(gv)[k] == x;
                    if k < acc.len() {
                        assert(acc[k] == x);
                    }
                }
                if acc.contains(x) {
                    let k = choose|k: int| 0 <= k < acc.len() && acc[k] == x;
                    assert(acc.push(gv)[k] == x);
                }
                if x == gv {
                    assert(acc.push(gv)[acc.len() as int] == x);
                }
            }
            assert forall|x: GroupView| groups_view(groups@).contains(x) <==> acc.push(gv).contains(x) by {
                assert(groups_view(groups@).contains(x) <==> (before_groups.contains(x) || x == gv));
                assert(before_groups.contains(x) <==> acc.contains(x));
            }
            acc = acc.push(gv);
        }
        i += 1;
    }
    proof { assert(fv.skip(i as int).len() == 0); }
    if groups.len() == 0 {
        return Err(Error::NoSnapshots);
    }
    match &catalog {
        Some(c) => {
            validate_catalog(c.as_str(), &ids)?;
        },
        None => {},
    }
    proof {
        assert forall|g: GroupView| acc.contains(g) implies groups_view(groups@).contains(g) by {}
    }
    Ok(groups)
}

} // verus!
