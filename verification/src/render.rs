//! The Rust source that the generator writes for registry groups.
use vstd::prelude::*;
use crate::names::{constant_name, ident_of, unique_name, NameSet};
use crate::numbers::{decimal, parses_as_i128};
use crate::snapshot::{field_of, Group, GroupView, Registry, RegistryView};
use crate::error::{Error, ErrorView};
use crate::text::{chars_of, contains, extend, lines, split_once, starts_with, trim, upper};
use crate::values::{number_of, range_of, status_of};

verus! {

// ---------------------------------------------------------------------------
// Debug formatting
// ---------------------------------------------------------------------------

/// What `{:?}` (std's `Debug for str`) writes for a string that is not
/// plain (see `is_plain_debug`): the text quoted, with escapes.
pub uninterp spec fn debug_quoted(s: Seq<char>) -> Seq<char>;

/// Text that `{:?}` writes unchanged between its quotes: printable ASCII
/// (space to `~`) other than `"`, `\` and `'`, characters that
/// `char::escape_debug` leaves as they are.
pub open spec fn is_plain_debug(s: Seq<char>) -> bool {
    forall|i: int| 0 <= i < s.len() ==> ' ' <= #[trigger] s[i] <= '~' && s[i] != '"' && s[i] != '\\' && s[i] != '\''
}

/// What `{:?}` writes for a string: plain text between double quotes, else
/// the text named by `debug_quoted`.
pub open spec fn debug_text(s: Seq<char>) -> Seq<char> {
    if is_plain_debug(s) { seq!['"'] + s + seq!['"'] } else { debug_quoted(s) }
}

/// `format!("{s:?}")`: plain text (see `is_plain_debug`) between double
/// quotes; other text as named by `debug_quoted`.
#[verifier::external_body]
fn debug_str(s: &str) -> (r: String)
    ensures
        is_plain_debug(s@) ==> r@ == seq!['"'] + s@ + seq!['"'],
        !is_plain_debug(s@) ==> r@ == debug_quoted(s@),
{
    format!("{s:?}")
}

/// What `{:?}` writes for an `Option<String>`.
pub open spec fn debug_option(o: Option<Seq<char>>) -> Seq<char> {
    match o {
        Some(s) => "Some("@ + debug_text(s) + ")"@,
        None => "None"@,
    }
}

/// What `{:?}` writes for a `(String, String)`.
pub open spec fn debug_pair(p: (Seq<char>, Seq<char>)) -> Seq<char> {
    "("@ + debug_text(p.0) + ", "@ + debug_text(p.1) + ")"@
}

pub open spec fn debug_pairs(ps: Seq<(Seq<char>, Seq<char>)>) -> Seq<char>
    decreases ps.len(),
{
    if ps.len() == 0 {
        seq![]
    } else if ps.len() == 1 {
        debug_pair(ps[0])
    } else {
        debug_pairs(ps.drop_last()) + ", "@ + debug_pair(ps.last())
    }
}

/// What `{:?}` writes for a `Vec<(String, String)>`.
pub open spec fn debug_record(ps: Seq<(Seq<char>, Seq<char>)>) -> Seq<char> {
    "["@ + debug_pairs(ps) + "]"@
}

/// Each column of a record is written as `{:?}` writes the pair (name,
/// value): an opening parenthesis and the column's name first, its value
/// and a closing parenthesis last, so that a record's fields are looked up
/// by their names.
pub proof fn lemma_column_name_first(p: (Seq<char>, Seq<char>))
    ensures
        debug_pair(p).take(debug_text(p.0).len() + 1int) == seq!['('] + debug_text(p.0),
        debug_pair(p).skip(debug_pair(p).len() - debug_text(p.1).len() - 1) == debug_text(p.1) + seq![')'],
{
    reveal_strlit("(");
    reveal_strlit(", ");
    reveal_strlit(")");
    let d = debug_pair(p);
    assert(d.take(debug_text(p.0).len() + 1int) =~= seq!['('] + debug_text(p.0));
    assert(d.skip(d.len() - debug_text(p.1).len() - 1) =~= debug_text(p.1) + seq![')']);
}

/// Appends a string's characters.
pub fn put(out: &mut Vec<char>, s: &str)
    ensures
        final(out)@ == old(out)@ + s@,
{
    let c = chars_of(s);
    extend(out, &c);
}

/// Appends what `{:?}` writes for a string.
pub(crate) fn put_debug(out: &mut Vec<char>, s: &str)
    ensures
        final(out)@ == old(out)@ + debug_text(s@),
{
    let d = debug_str(s);
    put(out, d.as_str());
}

fn put_debug_option(out: &mut Vec<char>, o: &Option<String>)
    ensures
        final(out)@ == old(out)@ + debug_option(crate::xml::opt_view(*o)),
{
    match o {
        Some(s) => {
            put(out, "Some(");
            put_debug(out, s.as_str());
            put(out, ")");
            proof {
                assert(final(out)@ =~= old(out)@ + ("Some("@ + debug_text(s@) + ")"@));
            }
        },
        None => {
            put(out, "None");
        },
    }
}

fn put_debug_record(out: &mut Vec<char>, record: &Vec<(String, String)>)
    ensures
        final(out)@ == old(out)@ + debug_record(crate::snapshot::pairs_view(record@)),
{
    let ghost ps = crate::snapshot::pairs_view(record@);
    put(out, "[");
    let ghost start = out@;
    let mut i: usize = 0;
    while i < record.len()
        invariant
            ps == crate::snapshot::pairs_view(record@),
            i <= record@.len(),
            out@ == start + debug_pairs(ps.take(i as int)),
        decreases record@.len() - i,
    {
        let ghost before = out@;
        if i > 0 {
            put(out, ", ");
        }
        put(out, "(");
        put_debug(out, record[i].0.as_str());
        put(out, ", ");
        put_debug(out, record[i].1.as_str());
        put(out, ")");
        proof {
            let t = ps.take(i + 1);
            assert(t.drop_last() == ps.take(i as int));
            assert(t.last() == (record@[i as int].0@, record@[i as int].1@));
            if i == 0 {
                assert(t.len() == 1);
                assert(out@ =~= start + debug_pair(t[0]));
            } else {
                assert(out@ =~= start + (debug_pairs(ps.take(i as int)) + ", "@ + debug_pair(t.last())));
            }
        }
        i += 1;
    }
    proof { assert(ps.take(record@.len() as int) == ps); }
    put(out, "]");
    proof {
        assert(out@ =~= old(out)@ + ("["@ + debug_pairs(ps) + "]"@));
    }
}

// ---------------------------------------------------------------------------
// Registry metadata
// ---------------------------------------------------------------------------

/// The `RegistryInfo` expression for a registry of a group.
pub open spec fn registry_info_text(group_id: Seq<char>, r: RegistryView) -> Seq<char> {
    "crate::RegistryInfo { group: "@ + debug_text(group_id) + ", id: "@ + debug_text(r.id)
        + ", title: "@ + debug_text(r.title) + ", parent: "@ + debug_option(r.parent) + " }"@
}

fn put_registry_info(out: &mut Vec<char>, group: &Group, registry: &Registry)
    ensures
        final(out)@ == old(out)@ + registry_info_text(group.id@, registry@),
{
    put(out, "crate::RegistryInfo { group: ");
    put_debug(out, group.id.as_str());
    put(out, ", id: ");
    put_debug(out, registry.id.as_str());
    put(out, ", title: ");
    put_debug(out, registry.title.as_str());
    put(out, ", parent: ");
    put_debug_option(out, &registry.parent);
    put(out, " }");
    proof {
        assert(out@ =~= old(out)@ + registry_info_text(group.id@, registry@));
    }
}

/// The `RegistryInfo` expression for a registry of a group.
pub fn render_registry_info(group: &Group, registry: &Registry) -> (r: String)
    ensures
        r@ == registry_info_text(group.id@, registry@),
{
    let mut out: Vec<char> = Vec::new();
    put_registry_info(&mut out, group, registry);
    proof { assert(out@ =~= registry_info_text(group.id@, registry@)); }
    crate::text::string_of(&out)
}

/// The `Record` entries of a registry's records.
pub open spec fn records_text(records: Seq<Seq<(Seq<char>, Seq<char>)>>) -> Seq<char>
    decreases records.len(),
{
    if records.len() == 0 {
        seq![]
    } else {
        records_text(records.drop_last()) + "crate::Record { fields: &"@ + debug_record(records.last()) + " },\n"@
    }
}

/// The `Registry` entries of a group's registries.
pub open spec fn registries_text(group_id: Seq<char>, regs: Seq<RegistryView>) -> Seq<char>
    decreases regs.len(),
{
    if regs.len() == 0 {
        seq![]
    } else {
        registries_text(group_id, regs.drop_last()) + "crate::Registry { info: "@
            + registry_info_text(group_id, regs.last()) + ", records: &[\n"@ + records_text(regs.last().records)
            + "] },\n"@
    }
}

/// The `REGISTRIES` table of a group module.
pub open spec fn metadata_text(g: GroupView) -> Seq<char> {
    "#[cfg(feature = \"metadata\")]\npub static REGISTRIES: &[crate::Registry] = &[\n"@
        + registries_text(g.id, g.registries) + "]; \n"@
}

fn put_records(out: &mut Vec<char>, records: &Vec<Vec<(String, String)>>)
    ensures
        final(out)@ == old(out)@ + records_text(crate::snapshot::records_view(records@)),
{
    let ghost rv = crate::snapshot::records_view(records@);
    let mut i: usize = 0;
    while i < records.len()
        invariant
            rv == crate::snapshot::records_view(records@),
            i <= records@.len(),
            out@ == old(out)@ + records_text(rv.take(i as int)),
        decreases records@.len() - i,
    {
        put(out, "crate::Record { fields: &");
        put_debug_record(out, &records[i]);
        put(out, " },\n");
        proof {
            let t = rv.take(i + 1);
            assert(t.drop_last() == rv.take(i as int));
            assert(t.last() == crate::snapshot::pairs_view(records@[i as int]@));
            assert(out@ =~= old(out)@ + records_text(t));
        }
        i += 1;
    }
    proof { assert(rv.take(records@.len() as int) == rv); }
}

/// Appends the `REGISTRIES` table of a group module.
pub fn render_metadata(out: &mut String, group: &Group)
    ensures
        final(out)@ == old(out)@ + metadata_text(group@),
{
    let mut buf: Vec<char> = Vec::new();
    put(&mut buf, "#[cfg(feature = \"metadata\")]\npub static REGISTRIES: &[crate::Registry] = &[\n");
    let ghost start = buf@;
    let ghost regs = crate::snapshot::registries_view(group.registries@);
    let mut i: usize = 0;
    while i < group.registries.len()
        invariant
            regs == crate::snapshot::registries_view(group.registries@),
            i <= group.registries@.len(),
            buf@ == start + registries_text(group.id@, regs.take(i as int)),
        decreases group.registries@.len() - i,
    {
        let registry = &group.registries[i];
        let ghost before = buf@;
        put(&mut buf, "crate::Registry { info: ");
        put_registry_info(&mut buf, group, registry);
        put(&mut buf, ", records: &[\n");
        put_records(&mut buf, &registry.records);
        put(&mut buf, "] },\n");
        proof {
            let t = regs.take(i + 1);
            assert(t.drop_last() == regs.take(i as int));
            assert(t.last() == registry@);
            assert(buf@ =~= start + registries_text(group.id@, t));
        }
        i += 1;
    }
    proof { assert(regs.take(group.registries@.len() as int) == regs); }
    put(&mut buf, "]; \n");
    proof { assert(buf@ =~= metadata_text(group@)); }
    append(out, &buf);
}

/// Appends characters to a string.
pub fn append(out: &mut String, v: &[char])
    ensures
        final(out)@ == old(out)@ + v@,
{
    let mut i: usize = 0;
    while i < v.len()
        invariant
            i <= v@.len(),
            out@ == old(out)@ + v@.take(i as int),
        decreases v@.len() - i,
    {
        crate::text::push_char(out, v[i]);
        proof { assert(v@.take(i + 1) == v@.take(i as int).push(v@[i as int])); }
        i += 1;
    }
    proof { assert(v@.take(v@.len() as int) == v@); }
}

// ---------------------------------------------------------------------------
// Typed registries
// ---------------------------------------------------------------------------

pub open spec fn has_key(records: Seq<Seq<(Seq<char>, Seq<char>)>>, key: Seq<char>) -> bool {
    exists|i: int| 0 <= i < records.len() && (#[trigger] field_of(records[i], key)) is Some
}

/// The key column of a table: the first of `value`, `name`, `token` and
/// `code` that some record has.
pub open spec fn key_of(records: Seq<Seq<(Seq<char>, Seq<char>)>>) -> Option<Seq<char>> {
    if has_key(records, "value"@) {
        Some("value"@)
    } else if has_key(records, "name"@) {
        Some("name"@)
    } else if has_key(records, "token"@) {
        Some("token"@)
    } else if has_key(records, "code"@) {
        Some("code"@)
    } else {
        None
    }
}

/// Every record has a non-empty key value.
pub open spec fn all_values(records: Seq<Seq<(Seq<char>, Seq<char>)>>, key: Seq<char>) -> bool {
    forall|i: int| 0 <= i < records.len() ==> ((#[trigger] field_of(records[i], key)) matches Some(v) && v.len() > 0)
}

pub open spec fn values_of(records: Seq<Seq<(Seq<char>, Seq<char>)>>, key: Seq<char>) -> Seq<Seq<char>> {
    records.map_values(|r: Seq<(Seq<char>, Seq<char>)>| field_of(r, key).unwrap())
}

/// Every value is a number or a range.
pub open spec fn all_numeric(values: Seq<Seq<char>>) -> bool {
    forall|i: int| 0 <= i < values.len() ==> (#[trigger] range_of(values[i])) is Some
}

/// Some value reads as a number: such a table is neither numeric nor textual.
pub open spec fn numeric_like(values: Seq<Seq<char>>) -> bool {
    exists|i: int| 0 <= i < values.len() && ((#[trigger] range_of(values[i])) is Some
        || parses_as_i128(values[i]) || starts_with(values[i], "0x"@))
}

/// The greatest end of the values' ranges (0 for none).
pub open spec fn max_end(values: Seq<Seq<char>>) -> u64
    decreases values.len(),
{
    if values.len() == 0 {
        0
    } else {
        let m = max_end(values.drop_last());
        let e = range_of(values.last()).unwrap().1;
        if e > m { e } else { m }
    }
}

/// The narrowest unsigned type that holds `m`.
pub open spec fn repr_of(m: u64) -> Seq<char> {
    if m <= 0xff {
        "u8"@
    } else if m <= 0xffff {
        "u16"@
    } else if m <= 0xffff_ffff {
        "u32"@
    } else {
        "u64"@
    }
}

/// The largest value of the unsigned type named, and the largest value of
/// the next narrower one (-1 below `u8`).
pub open spec fn repr_max(repr: Seq<char>) -> int {
    if repr == "u8"@ { 0xff } else if repr == "u16"@ { 0xffff } else if repr == "u32"@ { 0xffff_ffff } else { u64::MAX as int }
}

pub open spec fn repr_below(repr: Seq<char>) -> int {
    if repr == "u8"@ { -1 } else if repr == "u16"@ { 0xff } else if repr == "u32"@ { 0xffff } else { 0xffff_ffff }
}

proof fn lemma_max_end(values: Seq<Seq<char>>)
    requires
        all_numeric(values),
    ensures
        forall|i: int| 0 <= i < values.len() ==> (#[trigger] range_of(values[i]))->Some_0.1 <= max_end(values),
        values.len() > 0 ==> exists|i: int| 0 <= i < values.len() && (#[trigger] range_of(values[i]))->Some_0.1 == max_end(values),
        values.len() == 0 ==> max_end(values) == 0,
    decreases values.len(),
{
    if values.len() > 0 {
        let init = values.drop_last();
        assert forall|i: int| 0 <= i < init.len() implies (#[trigger] range_of(init[i])) is Some by {
            assert(init[i] == values[i]);
            assert(range_of(values[i]) is Some);
        }
        lemma_max_end(init);
        let n = values.len() - 1;
        assert(values.last() == values[n]);
        assert(range_of(values[n]) is Some);
        assert forall|i: int| 0 <= i < values.len() implies (#[trigger] range_of(values[i]))->Some_0.1 <= max_end(values) by {
            if i < n {
                assert(init[i] == values[i]);
                assert(range_of(init[i])->Some_0.1 <= max_end(init));
            }
        }
        if range_of(values[n])->Some_0.1 > max_end(init) {
            assert(range_of(values[n])->Some_0.1 == max_end(values));
        } else if init.len() > 0 {
            let i = choose|i: int| 0 <= i < init.len() && (#[trigger] range_of(init[i]))->Some_0.1 == max_end(init);
            assert(init[i] == values[i]);
            assert(range_of(values[i])->Some_0.1 == max_end(values));
        } else {
            assert(range_of(values[n])->Some_0.1 == max_end(values));
        }
    }
}

/// The integer type that a numeric registry is written with holds the end
/// of every range its values cover, and is the narrowest such type: some
/// range ends above the next narrower one.
pub proof fn lemma_repr_holds_range_ends(values: Seq<Seq<char>>)
    requires
        all_numeric(values),
    ensures
        forall|i: int| 0 <= i < values.len() ==> (#[trigger] range_of(values[i]))->Some_0.1 <= repr_max(repr_of(max_end(values))),
        values.len() > 0 ==> exists|i: int| 0 <= i < values.len()
            && (#[trigger] range_of(values[i]))->Some_0.1 > repr_below(repr_of(max_end(values))),
{
    reveal_strlit("u8");
    reveal_strlit("u16");
    reveal_strlit("u32");
    reveal_strlit("u64");
    lemma_max_end(values);
    let m = max_end(values);
    assert("u8"@ != "u16"@ && "u8"@ != "u32"@ && "u8"@ != "u64"@ && "u16"@ != "u32"@ && "u16"@ != "u64"@ && "u32"@ != "u64"@) by {
        assert("u8"@.len() != "u16"@.len());
        assert("u8"@.len() != "u32"@.len());
        assert("u8"@.len() != "u64"@.len());
        assert("u16"@[1] != "u32"@[1]);
        assert("u16"@[1] != "u64"@[1]);
        assert("u32"@[1] != "u64"@[1]);
    }
    assert(m <= repr_max(repr_of(m)));
    assert(m > repr_below(repr_of(m)));
}

/// The label of a record: its description, else its name, else the value
/// (a column that is the key does not count).
pub open spec fn label_of(record: Seq<(Seq<char>, Seq<char>)>, key: Seq<char>, value: Seq<char>) -> Seq<char> {
    if key != "description"@ && field_of(record, "description"@) is Some {
        field_of(record, "description"@).unwrap()
    } else if key != "name"@ && field_of(record, "name"@) is Some {
        field_of(record, "name"@).unwrap()
    } else {
        value
    }
}

/// The state of the table rendering: the entries so far, the status
/// ranges so far, and the constant names taken.
pub struct TableState {
    pub text: Seq<char>,
    pub ranges: Seq<char>,
    pub constants: Set<Seq<char>>,
}

/// One record's contribution: its status range (numeric tables), and a
/// constant where it is assigned (and, in numeric tables, a single number).
pub open spec fn entry_step(
    st: TableState,
    record: Seq<(Seq<char>, Seq<char>)>,
    value: Seq<char>,
    numeric: bool,
    key: Seq<char>,
) -> TableState {
    let label = label_of(record, key, value);
    let allocation = status_of(label);
    let ranges = if numeric {
        let (s, e) = range_of(value).unwrap();
        st.ranges + decimal(s as nat) + " ..= "@ + decimal(e as nat) + " => "@ + allocation + ",\n"@
    } else {
        st.ranges
    };
    if allocation != "Assigned"@ || (numeric && number_of(value) is None) {
        TableState { text: st.text, ranges, constants: st.constants }
    } else {
        let name = if numeric { label } else { value };
        let literal = if numeric {
            decimal(number_of(value).unwrap() as nat) + " => "@ + debug_text(label)
        } else {
            debug_text(value)
        };
        let c = constant_name(name, st.constants);
        TableState { text: st.text + c + " = "@ + literal + ",\n"@, ranges, constants: st.constants.insert(c) }
    }
}

pub open spec fn initial_constants() -> Set<Seq<char>> {
    Set::empty().insert("ALL"@).insert("REGISTRY"@)
}

/// The state after the first `n` records.
pub open spec fn entries(
    records: Seq<Seq<(Seq<char>, Seq<char>)>>,
    values: Seq<Seq<char>>,
    numeric: bool,
    key: Seq<char>,
    n: nat,
) -> TableState
    decreases n,
{
    if n == 0 {
        TableState { text: seq![], ranges: seq![], constants: initial_constants() }
    } else {
        entry_step(entries(records, values, numeric, key, (n - 1) as nat), records[n - 1], values[n - 1], numeric, key)
    }
}

/// Whether a record defines a constant: it is assigned and, in a numeric
/// table, its value is a single number.
pub open spec fn defines_constant(record: Seq<(Seq<char>, Seq<char>)>, value: Seq<char>, numeric: bool, key: Seq<char>) -> bool {
    status_of(label_of(record, key, value)) == "Assigned"@ && !(numeric && number_of(value) is None)
}

/// The constants that the first `n` records define, in order (the names
/// that `entry_step` writes).
pub open spec fn entry_constants(
    records: Seq<Seq<(Seq<char>, Seq<char>)>>,
    values: Seq<Seq<char>>,
    numeric: bool,
    key: Seq<char>,
    n: nat,
) -> Seq<Seq<char>>
    decreases n,
{
    if n == 0 {
        seq![]
    } else {
        let m = (n - 1) as nat;
        let prev = entry_constants(records, values, numeric, key, m);
        if defines_constant(records[m as int], values[m as int], numeric, key) {
            let name = if numeric { label_of(records[m as int], key, values[m as int]) } else { values[m as int] };
            prev.push(constant_name(name, entries(records, values, numeric, key, m).constants))
        } else {
            prev
        }
    }
}

proof fn lemma_entries_constants(
    records: Seq<Seq<(Seq<char>, Seq<char>)>>,
    values: Seq<Seq<char>>,
    numeric: bool,
    key: Seq<char>,
    n: nat,
)
    ensures
        entries(records, values, numeric, key, n).constants.finite(),
        forall|x: Seq<char>| #[trigger] entries(records, values, numeric, key, n).constants.contains(x)
            <==> (initial_constants().contains(x) || entry_constants(records, values, numeric, key, n).contains(x)),
        forall|i: int, j: int| 0 <= i < j < entry_constants(records, values, numeric, key, n).len()
            ==> #[trigger] entry_constants(records, values, numeric, key, n)[i]
                != #[trigger] entry_constants(records, values, numeric, key, n)[j],
        forall|i: int| 0 <= i < entry_constants(records, values, numeric, key, n).len()
            ==> !initial_constants().contains(#[trigger] entry_constants(records, values, numeric, key, n)[i]),
    decreases n,
{
    if n > 0 {
        let m = (n - 1) as nat;
        lemma_entries_constants(records, values, numeric, key, m);
        let st = entries(records, values, numeric, key, m);
        let prev = entry_constants(records, values, numeric, key, m);
        let cs = entry_constants(records, values, numeric, key, n);
        let st2 = entries(records, values, numeric, key, n);
        assert(st2 == entry_step(st, records[m as int], values[m as int], numeric, key));
        if defines_constant(records[m as int], values[m as int], numeric, key) {
            let name = if numeric { label_of(records[m as int], key, values[m as int]) } else { values[m as int] };
            let c = constant_name(name, st.constants);
            crate::names::lemma_unique_name_fresh(upper(crate::names::trim_underscores(ident_of(name, false))), st.constants);
            assert(!st.constants.contains(c));
            assert(cs == prev.push(c));
            assert(st2.constants == st.constants.insert(c));
            assert forall|x: Seq<char>| #[trigger] st2.constants.contains(x)
                <==> (initial_constants().contains(x) || cs.contains(x)) by {
                if prev.contains(x) {
                    let k = choose|k: int| 0 <= k < prev.len() && prev[k] == x;
                    assert(cs[k] == x);
                }
                if cs.contains(x) && x != c {
                    let k = choose|k: int| 0 <= k < cs.len() && cs[k] == x;
                    assert(prev[k] == x);
                }
                if x == c {
                    assert(cs[prev.len() as int] == x);
                }
            }
            assert forall|i: int, j: int| 0 <= i < j < cs.len() implies #[trigger] cs[i] != #[trigger] cs[j] by {
                if j == prev.len() {
                    assert(cs[i] == prev[i]);
                    assert(st.constants.contains(prev[i]));
                } else {
                    assert(cs[i] == prev[i] && cs[j] == prev[j]);
                }
            }
            assert forall|i: int| 0 <= i < cs.len() implies !initial_constants().contains(#[trigger] cs[i]) by {
                if i < prev.len() {
                    assert(cs[i] == prev[i]);
                } else {
                    assert(st.constants.contains(cs[i]) || !initial_constants().contains(cs[i]));
                }
            }
        } else {
            assert(cs == prev);
            assert(st2.constants == st.constants);
        }
    } else {
        assert(initial_constants().finite());
    }
}

/// The constants of a typed registry are pairwise different, and none is
/// `ALL` or `REGISTRY`, the names that the registry type defines itself.
pub proof fn lemma_table_constants_distinct(
    records: Seq<Seq<(Seq<char>, Seq<char>)>>,
    values: Seq<Seq<char>>,
    numeric: bool,
    key: Seq<char>,
)
    ensures
        ({
            let cs = entry_constants(records, values, numeric, key, records.len());
            &&& forall|i: int, j: int| 0 <= i < j < cs.len() ==> #[trigger] cs[i] != #[trigger] cs[j]
            &&& forall|i: int| 0 <= i < cs.len() ==> #[trigger] cs[i] != "ALL"@ && cs[i] != "REGISTRY"@
        }),
{
    lemma_entries_constants(records, values, numeric, key, records.len());
    let cs = entry_constants(records, values, numeric, key, records.len());
    assert forall|i: int| 0 <= i < cs.len() implies #[trigger] cs[i] != "ALL"@ && cs[i] != "REGISTRY"@ by {
        assert(initial_constants().contains("ALL"@));
        assert(initial_constants().contains("REGISTRY"@));
    }
}

/// The key column, its values, and whether they are all numeric, for a
/// table that gets a typed registry: one with records, a key column that
/// every record fills, and values that are all numeric or all textual.
pub open spec fn table_plan(records: Seq<Seq<(Seq<char>, Seq<char>)>>) -> Option<(Seq<char>, Seq<Seq<char>>, bool)> {
    if records.len() == 0 {
        None
    } else {
        match key_of(records) {
            None => None,
            Some(key) => if !all_values(records, key) {
                None
            } else {
                let values = values_of(records, key);
                let numeric = all_numeric(values);
                if !numeric && numeric_like(values) { None } else { Some((key, values, numeric)) }
            },
        }
    }
}

/// The opening line of a typed registry.
pub open spec fn table_head(name: Seq<char>, info: Seq<char>, values: Seq<Seq<char>>, numeric: bool) -> Seq<char> {
    if numeric {
        "numeric_registry!("@ + name + ", "@ + repr_of(max_end(values)) + ", "@ + info + ", [\n"@
    } else {
        "string_registry!("@ + name + ", "@ + info + ", [\n"@
    }
}

/// The closing line of a typed registry.
pub open spec fn table_tail(ranges: Seq<char>, numeric: bool) -> Seq<char> {
    if numeric { "], ["@ + ranges + "]);\n"@ } else { "]); \n"@ }
}

/// What a registry adds to its group module, and the type names taken
/// after it: a typed registry where `table_plan` gives one, else nothing.
pub open spec fn registry_text(group_id: Seq<char>, reg: RegistryView, names: Set<Seq<char>>) -> (Seq<char>, Set<Seq<char>>) {
    match table_plan(reg.records) {
        None => (seq![], names),
        Some((key, values, numeric)) => {
            let name = unique_name(ident_of(if reg.title.len() == 0 { reg.id } else { reg.title }, true), names);
            let st = entries(reg.records, values, numeric, key, reg.records.len());
            (table_head(name, registry_info_text(group_id, reg), values, numeric) + st.text + table_tail(st.ranges, numeric),
                names.insert(name))
        },
    }
}

fn has_key_exec(records: &Vec<Vec<(String, String)>>, key: &str) -> (r: bool)
    ensures
        r == has_key(crate::snapshot::records_view(records@), key@),
{
    let ghost rv = crate::snapshot::records_view(records@);
    let mut i: usize = 0;
    while i < records.len()
        invariant
            rv == crate::snapshot::records_view(records@),
            i <= records@.len(),
            forall|j: int| 0 <= j < i ==> (#[trigger] field_of(rv[j], key@)) is None,
        decreases records@.len() - i,
    {
        proof { assert(rv[i as int] == crate::snapshot::pairs_view(records@[i as int]@)); }
        if crate::snapshot::field(&records[i], key).is_some() {
            return true;
        }
        i += 1;
    }
    false
}

fn key_exec(records: &Vec<Vec<(String, String)>>) -> (r: Option<&'static str>)
    ensures
        match r {
            Some(k) => key_of(crate::snapshot::records_view(records@)) == Some(k@),
            None => key_of(crate::snapshot::records_view(records@)) is None,
        },
{
    if has_key_exec(records, "value") {
        Some("value")
    } else if has_key_exec(records, "name") {
        Some("name")
    } else if has_key_exec(records, "token") {
        Some("token")
    } else if has_key_exec(records, "code") {
        Some("code")
    } else {
        None
    }
}

fn values_exec(records: &Vec<Vec<(String, String)>>, key: &str) -> (r: Option<Vec<Vec<char>>>)
    ensures
        match r {
            Some(v) => all_values(crate::snapshot::records_view(records@), key@)
                && crate::order::views(v@) == values_of(crate::snapshot::records_view(records@), key@),
            None => !all_values(crate::snapshot::records_view(records@), key@),
        },
{
    let ghost rv = crate::snapshot::records_view(records@);
    let mut values: Vec<Vec<char>> = Vec::new();
    let mut i: usize = 0;
    while i < records.len()
        invariant
            rv == crate::snapshot::records_view(records@),
            i <= records@.len(),
            forall|j: int| 0 <= j < i ==> ((#[trigger] field_of(rv[j], key@)) matches Some(v) && v.len() > 0),
            crate::order::views(values@) == values_of(rv, key@).take(i as int),
        decreases records@.len() - i,
    {
        proof { assert(rv[i as int] == crate::snapshot::pairs_view(records@[i as int]@)); }
        match crate::snapshot::field(&records[i], key) {
            Some(v) => {
                let c = chars_of(v);
                if c.len() == 0 {
                    return None;
                }
                let ghost before = values@;
                values.push(c);
                proof {
                    assert(crate::order::views(values@) =~= crate::order::views(before).push(c@));
                    assert(values_of(rv, key@).take(i + 1) =~= values_of(rv, key@).take(i as int).push(c@));
                }
            },
            None => {
                return None;
            },
        }
        i += 1;
    }
    proof { assert(values_of(rv, key@).take(records@.len() as int) =~= values_of(rv, key@)); }
    Some(values)
}

fn label_exec(record: &Vec<(String, String)>, key: &str, value: &Vec<char>) -> (r: Vec<char>)
    ensures
        r@ == label_of(crate::snapshot::pairs_view(record@), key@, value@),
{
    if !crate::snapshot::str_eq(key, "description") {
        if let Some(d) = crate::snapshot::field(record, "description") {
            return chars_of(d);
        }
    }
    if !crate::snapshot::str_eq(key, "name") {
        if let Some(n) = crate::snapshot::field(record, "name") {
            return chars_of(n);
        }
    }
    crate::text::slice_of(value, 0, value.len())
}

/// Applies one record to the table state.
fn entry_exec(
    text: &mut Vec<char>,
    ranges: &mut Vec<char>,
    constants: &mut NameSet,
    record: &Vec<(String, String)>,
    value: &Vec<char>,
    parsed: Option<(u64, u64)>,
    numeric: bool,
    key: &str,
)
    requires
        parsed == range_of(value@),
        numeric ==> parsed is Some,
    ensures
        entry_step(
            TableState { text: old(text)@, ranges: old(ranges)@, constants: old(constants)@ },
            crate::snapshot::pairs_view(record@), value@, numeric, key@,
        ) == (TableState { text: final(text)@, ranges: final(ranges)@, constants: final(constants)@ }),
{
    let label = label_exec(record, key, value);
    let label_text = crate::text::string_of(&label);
    let allocation = crate::values::status(label_text.as_str());
    if numeric {
        let (start, end) = match parsed {
            Some(p) => p,
            None => (0, 0),
        };
        extend(ranges, &crate::numbers::decimal_exec(start as u128));
        put(ranges, " ..= ");
        extend(ranges, &crate::numbers::decimal_exec(end as u128));
        put(ranges, " => ");
        put(ranges, allocation);
        put(ranges, ",\n");
        proof {
            assert(ranges@ =~= old(ranges)@ + decimal(start as nat) + " ..= "@ + decimal(end as nat) + " => "@
                + allocation@ + ",\n"@);
        }
    }
    if !crate::snapshot::str_eq(allocation, "Assigned") {
        return;
    }
    let (name, literal) = if numeric {
        match crate::values::number_chars(value) {
            None => {
                return;
            },
            Some(n) => {
                let mut literal = crate::numbers::decimal_exec(n as u128);
                put(&mut literal, " => ");
                put_debug(&mut literal, label_text.as_str());
                (label_text, literal)
            },
        }
    } else {
        let value_text = crate::text::string_of(value);
        let mut literal: Vec<char> = Vec::new();
        put_debug(&mut literal, value_text.as_str());
        (value_text, literal)
    };
    let c = crate::names::constant(name.as_str(), constants);
    put(text, c.as_str());
    put(text, " = ");
    extend(text, &literal);
    put(text, ",\n");
    proof {
        assert(text@ =~= old(text)@ + c@ + " = "@ + literal@ + ",\n"@);
    }
}

/// The key column, the values, their ranges and whether all are numeric,
/// for a table that gets a typed registry.
#[verifier::loop_isolation(false)]
fn table_plan_exec(records: &Vec<Vec<(String, String)>>) -> (r: Option<(&'static str, Vec<Vec<char>>, Vec<Option<(u64, u64)>>, bool)>)
    ensures
        match r {
            None => table_plan(crate::snapshot::records_view(records@)) is None,
            Some((key, values, parsed, numeric)) => {
                &&& table_plan(crate::snapshot::records_view(records@)) == Some((key@, crate::order::views(values@), numeric))
                &&& values@.len() == records@.len()
                &&& parsed@.len() == values@.len()
                &&& forall|q: int| 0 <= q < values@.len() ==> parsed@[q] == range_of(#[trigger] crate::order::views(values@)[q])
            },
        },
{
    if records.len() == 0 {
        return None;
    }
    let key = match key_exec(records) {
        None => {
            return None;
        },
        Some(k) => k,
    };
    let values = match values_exec(records, key) {
        None => {
            return None;
        },
        Some(v) => v,
    };
    let ghost vv = crate::order::views(values@);
    let mut parsed: Vec<Option<(u64, u64)>> = Vec::new();
    let mut numeric = true;
    let mut i: usize = 0;
    while i < values.len()
        invariant
            vv == crate::order::views(values@),
            i <= values@.len(),
            parsed@.len() == i,
            forall|j: int| 0 <= j < i ==> parsed@[j] == range_of(#[trigger] vv[j]),
            numeric == forall|j: int| 0 <= j < i ==> (#[trigger] range_of(vv[j])) is Some,
        decreases values@.len() - i,
    {
        let r = crate::values::range_chars(&values[i]);
        proof { assert(vv[i as int] == values@[i as int]@); }
        if r.is_none() {
            numeric = false;
        }
        parsed.push(r);
        i += 1;
    }
    if !numeric {
        let x = chars_of("0x");
        let mut j: usize = 0;
        while j < values.len()
            invariant
                vv == crate::order::views(values@),
                j <= values@.len(),
                parsed@.len() == values@.len(),
                x@ == "0x"@,
                forall|k: int| 0 <= k < values@.len() ==> parsed@[k] == range_of(#[trigger] vv[k]),
                forall|k: int| 0 <= k < j ==> !((#[trigger] range_of(vv[k])) is Some || parses_as_i128(vv[k]) || starts_with(vv[k], "0x"@)),
            decreases values@.len() - j,
        {
            proof { assert(vv[j as int] == values@[j as int]@); }
            if parsed[j].is_some() || crate::numbers::parses_as_i128_exec(&values[j])
                || crate::text::starts_with_exec(&values[j], &x) {
                return None;
            }
            j += 1;
        }
    }
    Some((key, values, parsed, numeric))
}

/// The type name of a typed registry, and its opening line.
fn table_head_exec(
    group: &Group,
    registry: &Registry,
    names: &mut NameSet,
    values: &Vec<Vec<char>>,
    parsed: &Vec<Option<(u64, u64)>>,
    numeric: bool,
) -> (buf: Vec<char>)
    requires
        parsed@.len() == values@.len(),
        forall|q: int| 0 <= q < values@.len() ==> parsed@[q] == range_of(#[trigger] crate::order::views(values@)[q]),
        numeric ==> all_numeric(crate::order::views(values@)),
    ensures
        ({
            let name = unique_name(ident_of(if registry@.title.len() == 0 { registry@.id } else { registry@.title }, true), old(names)@);
            &&& buf@ == table_head(name, registry_info_text(group.id@, registry@), crate::order::views(values@), numeric)
            &&& final(names)@ == old(names)@.insert(name)
        }),
{
    let ghost vv = crate::order::views(values@);
    let title_chars = chars_of(registry.title.as_str());
    let base = if title_chars.len() == 0 {
        crate::names::ident(registry.id.as_str(), true)
    } else {
        crate::names::ident(registry.title.as_str(), true)
    };
    let name = crate::names::unique(base, names);
    let mut buf: Vec<char> = Vec::new();
    if numeric {
        let mut max: u64 = 0;
        let mut k: usize = 0;
        proof { assert(vv.take(0) =~= Seq::<Seq<char>>::empty()); }
        while k < parsed.len()
            invariant
                vv == crate::order::views(values@),
                parsed@.len() == values@.len(),
                k <= parsed@.len(),
                forall|q: int| 0 <= q < values@.len() ==> parsed@[q] == range_of(#[trigger] vv[q]),
                all_numeric(vv),
                max == max_end(vv.take(k as int)),
            decreases parsed@.len() - k,
        {
            proof {
                assert(vv.take(k + 1).drop_last() == vv.take(k as int));
                assert(vv.take(k + 1).last() == vv[k as int]);
                assert(range_of(vv[k as int]) is Some);
            }
            let e = match parsed[k] {
                Some((_, e)) => e,
                None => 0,
            };
            if e > max {
                max = e;
            }
            k += 1;
        }
        proof { assert(vv.take(parsed@.len() as int) == vv); }
        let repr = if max <= 0xff {
            "u8"
        } else if max <= 0xffff {
            "u16"
        } else if max <= 0xffff_ffff {
            "u32"
        } else {
            "u64"
        };
        put(&mut buf, "numeric_registry!(");
        put(&mut buf, name.as_str());
        put(&mut buf, ", ");
        put(&mut buf, repr);
        put(&mut buf, ", ");
        put_registry_info(&mut buf, group, registry);
        put(&mut buf, ", [\n");
    } else {
        put(&mut buf, "string_registry!(");
        put(&mut buf, name.as_str());
        put(&mut buf, ", ");
        put_registry_info(&mut buf, group, registry);
        put(&mut buf, ", [\n");
    }
    proof {
        assert(buf@ =~= table_head(name@, registry_info_text(group.id@, registry@), vv, numeric));
    }
    buf
}

/// Appends the typed registry of a table to a group module (see
/// `registry_text`); its type name is taken from `names`.
pub fn render_registry(out: &mut String, group: &Group, registry: &Registry, names: &mut NameSet)
    ensures
        final(out)@ == old(out)@ + registry_text(group.id@, registry@, old(names)@).0,
        final(names)@ == registry_text(group.id@, registry@, old(names)@).1,
{
    let records = &registry.records;
    let ghost rv = crate::snapshot::records_view(records@);
    proof { assert(registry@.records == rv); }
    let (key, values, parsed, numeric) = match table_plan_exec(records) {
        None => {
            proof { assert(old(out)@ + Seq::<char>::empty() == old(out)@); }
            return;
        },
        Some(plan) => plan,
    };
    let ghost vv = crate::order::views(values@);
    let mut buf = table_head_exec(group, registry, names, &values, &parsed, numeric);
    let ghost head = buf@;
    let mut text: Vec<char> = Vec::new();
    let mut ranges: Vec<char> = Vec::new();
    let mut constants = NameSet::new();
    constants.insert_str("ALL");
    constants.insert_str("REGISTRY");
    proof { assert(constants@ =~= initial_constants()); }
    let mut i: usize = 0;
    while i < records.len()
        invariant
            rv == crate::snapshot::records_view(records@),
            vv == crate::order::views(values@),
            values@.len() == records@.len(),
            parsed@.len() == values@.len(),
            i <= records@.len(),
            forall|q: int| 0 <= q < values@.len() ==> parsed@[q] == range_of(#[trigger] vv[q]),
            numeric ==> all_numeric(vv),
            entries(rv, vv, numeric, key@, i as nat)
                == (TableState { text: text@, ranges: ranges@, constants: constants@ }),
        decreases records@.len() - i,
    {
        proof {
            assert(rv[i as int] == crate::snapshot::pairs_view(records@[i as int]@));
            assert(vv[i as int] == values@[i as int]@);
            assert(parsed@[i as int] == range_of(vv[i as int]));
        }
        entry_exec(&mut text, &mut ranges, &mut constants, &records[i], &values[i], parsed[i], numeric, key);
        i += 1;
    }
    extend(&mut buf, &text);
    if numeric {
        put(&mut buf, "], [");
        extend(&mut buf, &ranges);
        put(&mut buf, "]);\n");
    } else {
        put(&mut buf, "]); \n");
    }
    proof {
        let st = entries(rv, vv, numeric, key@, rv.len());
        assert(buf@ =~= head + st.text + table_tail(st.ranges, numeric));
    }
    append(out, &buf);
}

// ---------------------------------------------------------------------------
// Group modules and the crate's table of groups
// ---------------------------------------------------------------------------

/// The first lines of every generated file.
pub open spec fn header_text() -> Seq<char> {
    "// SPDX-FileCopyrightText: 2026 Meowdia Community\n// SPDX-License-Identifier: MIT OR Apache-2.0\n// @generated by cargo run -p xtask -- iana generate.\n"@
}

/// The first lines of every generated file.
pub fn generated_header() -> (r: &'static str)
    ensures
        r@ == header_text(),
{
    "// SPDX-FileCopyrightText: 2026 Meowdia Community\n// SPDX-License-Identifier: MIT OR Apache-2.0\n// @generated by cargo run -p xtask -- iana generate.\n"
}

/// The typed registries of the first `n` registries, and the type names taken.
pub open spec fn typed_registries(group_id: Seq<char>, regs: Seq<RegistryView>, n: nat) -> (Seq<char>, Set<Seq<char>>)
    decreases n,
{
    if n == 0 {
        (seq![], Set::empty())
    } else {
        let (text, names) = typed_registries(group_id, regs, (n - 1) as nat);
        let (more, names2) = registry_text(group_id, regs[n - 1], names);
        (text + more, names2)
    }
}

/// The type names of the typed registries among the first `n` registries,
/// in order (the names that `registry_text` writes).
pub open spec fn registry_type_names(group_id: Seq<char>, regs: Seq<RegistryView>, n: nat) -> Seq<Seq<char>>
    decreases n,
{
    if n == 0 {
        seq![]
    } else {
        let m = (n - 1) as nat;
        let prev = registry_type_names(group_id, regs, m);
        let reg = regs[m as int];
        if table_plan(reg.records) is Some {
            prev.push(unique_name(ident_of(if reg.title.len() == 0 { reg.id } else { reg.title }, true),
                typed_registries(group_id, regs, m).1))
        } else {
            prev
        }
    }
}

proof fn lemma_typed_registries_names(group_id: Seq<char>, regs: Seq<RegistryView>, n: nat)
    ensures
        typed_registries(group_id, regs, n).1.finite(),
        forall|x: Seq<char>| #[trigger] typed_registries(group_id, regs, n).1.contains(x)
            <==> registry_type_names(group_id, regs, n).contains(x),
        forall|i: int, j: int| 0 <= i < j < registry_type_names(group_id, regs, n).len()
            ==> #[trigger] registry_type_names(group_id, regs, n)[i] != #[trigger] registry_type_names(group_id, regs, n)[j],
    decreases n,
{
    if n > 0 {
        let m = (n - 1) as nat;
        lemma_typed_registries_names(group_id, regs, m);
        let names = typed_registries(group_id, regs, m).1;
        let prev = registry_type_names(group_id, regs, m);
        let ts = registry_type_names(group_id, regs, n);
        let reg = regs[m as int];
        if table_plan(reg.records) is Some {
            let base = ident_of(if reg.title.len() == 0 { reg.id } else { reg.title }, true);
            let t = unique_name(base, names);
            crate::names::lemma_unique_name_fresh(base, names);
            assert(typed_registries(group_id, regs, n).1 == names.insert(t));
            assert(ts == prev.push(t));
            assert forall|x: Seq<char>| #[trigger] typed_registries(group_id, regs, n).1.contains(x) <==> ts.contains(x) by {
                if prev.contains(x) {
                    let k = choose|k: int| 0 <= k < prev.len() && prev[k] == x;
                    assert(ts[k] == x);
                }
                if ts.contains(x) && x != t {
                    let k = choose|k: int| 0 <= k < ts.len() && ts[k] == x;
                    assert(prev[k] == x);
                }
                if x == t {
                    assert(ts[prev.len() as int] == x);
                }
            }
            assert forall|i: int, j: int| 0 <= i < j < ts.len() implies #[trigger] ts[i] != #[trigger] ts[j] by {
                assert(ts[i] == prev[i]);
                if j == prev.len() {
                    assert(names.contains(prev[i]));
                } else {
                    assert(ts[j] == prev[j]);
                }
            }
        } else {
            assert(typed_registries(group_id, regs, n).1 == names);
        }
    }
}

/// The typed registries of a group module have pairwise different type
/// names.
pub proof fn lemma_registry_type_names_distinct(g: GroupView)
    ensures
        ({
            let ts = registry_type_names(g.id, g.registries, g.registries.len());
            forall|i: int, j: int| 0 <= i < j < ts.len() ==> #[trigger] ts[i] != #[trigger] ts[j]
        }),
{
    lemma_typed_registries_names(g.id, g.registries, g.registries.len());
}

/// The module of a group, before formatting.
pub open spec fn group_text(g: GroupView) -> Seq<char> {
    header_text() + "pub const ID: &str = "@ + debug_text(g.id) + ";\npub const UPDATED: &str = "@
        + debug_text(g.updated) + ";\n"@ + metadata_text(g) + typed_registries(g.id, g.registries, g.registries.len()).0
}

/// The module of a group, before formatting (see `group_text`).
pub fn render_group(group: &Group) -> (r: String)
    ensures
        r@ == group_text(group@),
{
    let mut out = String::new();
    let mut head: Vec<char> = Vec::new();
    put(&mut head, generated_header());
    put(&mut head, "pub const ID: &str = ");
    put_debug(&mut head, group.id.as_str());
    put(&mut head, ";\npub const UPDATED: &str = ");
    put_debug(&mut head, group.updated.as_str());
    put(&mut head, ";\n");
    append(&mut out, &head);
    render_metadata(&mut out, group);
    let ghost start = out@;
    let ghost regs = crate::snapshot::registries_view(group.registries@);
    let mut names = NameSet::new();
    let mut i: usize = 0;
    proof { assert(start + Seq::<char>::empty() == start); }
    while i < group.registries.len()
        invariant
            regs == crate::snapshot::registries_view(group.registries@),
            i <= group.registries@.len(),
            out@ == start + typed_registries(group.id@, regs, i as nat).0,
            names@ == typed_registries(group.id@, regs, i as nat).1,
        decreases group.registries@.len() - i,
    {
        let ghost before = out@;
        proof { assert(regs[i as int] == group.registries@[i as int]@); }
        render_registry(&mut out, group, &group.registries[i], &mut names);
        proof {
            assert(out@ =~= start + typed_registries(group.id@, regs, (i + 1) as nat).0);
        }
        i += 1;
    }
    proof {
        assert(out@ =~= group_text(group@));
    }
    out
}

pub open spec fn ends_with(s: Seq<char>, p: Seq<char>) -> bool {
    p.len() <= s.len() && s.skip(s.len() - p.len()) == p
}

/// A group ID without its `-parameters` suffix.
pub open spec fn module_base(id: Seq<char>) -> Seq<char> {
    if ends_with(id, "-parameters"@) { id.take(id.len() - "-parameters"@.len()) } else { id }
}

/// The module name of a group: its snake-case name without `-parameters`,
/// else (where that is taken) its whole ID made unique.
pub open spec fn module_name(id: Seq<char>, modules: Set<Seq<char>>) -> Seq<char> {
    let m = ident_of(module_base(id), false);
    if modules.contains(m) { unique_name(ident_of(id, false), modules) } else { m }
}

/// The state of the crate table: module declarations, group table rows,
/// module names taken, files so far.
pub struct CrateState {
    pub decls: Seq<char>,
    pub table: Seq<char>,
    pub modules: Set<Seq<char>>,
    pub files: Seq<(Seq<char>, Seq<char>)>,
}

pub open spec fn crate_step(st: CrateState, g: GroupView) -> CrateState {
    let module = module_name(g.id, st.modules);
    CrateState {
        decls: st.decls + "#[cfg(feature = "@ + debug_text(g.id) + ")]\n#[doc = "@ + debug_text(g.title)
            + "]\npub mod "@ + module + ";\n"@,
        table: st.table + "#[cfg(feature = "@ + debug_text(g.id) + ")]\ncrate::RegistryGroup { id: "@
            + debug_text(g.id) + ", title: "@ + debug_text(g.title) + ", registries: "@ + module
            + "::REGISTRIES },\n"@,
        modules: st.modules.insert(module),
        files: st.files.push(("src/generated/"@ + module + ".rs"@, group_text(g))),
    }
}

pub open spec fn crate_state(gs: Seq<GroupView>, n: nat) -> CrateState
    decreases n,
{
    if n == 0 {
        CrateState { decls: seq![], table: seq![], modules: Set::empty(), files: seq![] }
    } else {
        crate_step(crate_state(gs, (n - 1) as nat), gs[n - 1])
    }
}

/// The number of registries of the first `n` groups.
pub open spec fn registry_count(gs: Seq<GroupView>, n: nat) -> nat
    decreases n,
{
    if n == 0 { 0 } else { registry_count(gs, (n - 1) as nat) + gs[n - 1].registries.len() }
}

proof fn lemma_registry_count_prefix(a: Seq<GroupView>, b: Seq<GroupView>, n: nat)
    requires
        n <= a.len(),
        n <= b.len(),
        forall|i: int| 0 <= i < n ==> a[i] == b[i],
    ensures
        registry_count(a, n) == registry_count(b, n),
    decreases n,
{
    if n > 0 {
        lemma_registry_count_prefix(a, b, (n - 1) as nat);
    }
}

/// The registry count written in `generated.rs` sums the registries of
/// every group: it is 0 without groups, and one more group adds the number
/// of its registries.
pub proof fn lemma_registry_count_sums(gs: Seq<GroupView>, g: GroupView)
    ensures
        registry_count(Seq::<GroupView>::empty(), 0) == 0,
        registry_count(gs.push(g), gs.len() + 1) == registry_count(gs, gs.len()) + g.registries.len(),
{
    lemma_registry_count_prefix(gs.push(g), gs, gs.len());
    assert(gs.push(g)[gs.len() as int] == g);
}

/// The crate's `generated.rs`, before formatting.
pub open spec fn crate_text(gs: Seq<GroupView>) -> Seq<char> {
    let st = crate_state(gs, gs.len());
    header_text() + "pub const GROUP_COUNT: usize = "@ + decimal(gs.len()) + ";\n"@
        + "pub const REGISTRY_COUNT: usize = "@ + decimal(registry_count(gs, gs.len())) + ";\n"@ + st.decls
        + "#[cfg(feature = \"metadata\")]\npub static GROUPS: &[crate::RegistryGroup] = &["@ + st.table + "];\n"@
}

/// Every generated file, before formatting, with its path: one module per
/// group, in order, then the crate's `generated.rs`.
pub open spec fn render_files(gs: Seq<GroupView>) -> Seq<(Seq<char>, Seq<char>)> {
    crate_state(gs, gs.len()).files.push(("src/generated.rs"@, crate_text(gs)))
}

/// The path of a group's module file.
pub open spec fn module_file(module: Seq<char>) -> Seq<char> {
    "src/generated/"@ + module + ".rs"@
}

proof fn lemma_module_file_injective(a: Seq<char>, b: Seq<char>)
    requires
        module_file(a) == module_file(b),
    ensures
        a == b,
{
    reveal_strlit("src/generated/");
    reveal_strlit(".rs");
    assert(module_file(a).len() == a.len() + 17);
    assert(module_file(b).len() == b.len() + 17);
    assert(module_file(a).subrange(14, 14 + a.len() as int) =~= a);
    assert(module_file(b).subrange(14, 14 + b.len() as int) =~= b);
}

proof fn lemma_crate_state_paths(gs: Seq<GroupView>, n: nat)
    requires
        n <= gs.len(),
    ensures
        crate_state(gs, n).modules.finite(),
        crate_state(gs, n).files.len() == n,
        forall|i: int| 0 <= i < n ==> exists|m: Seq<char>| #[trigger] crate_state(gs, n).files[i].0 == module_file(m)
            && crate_state(gs, n).modules.contains(m),
        forall|i: int, j: int| 0 <= i < j < n ==> #[trigger] crate_state(gs, n).files[i].0 != #[trigger] crate_state(gs, n).files[j].0,
    decreases n,
{
    if n > 0 {
        let m1 = (n - 1) as nat;
        lemma_crate_state_paths(gs, m1);
        let st = crate_state(gs, m1);
        let g = gs[m1 as int];
        let module = module_name(g.id, st.modules);
        assert(!st.modules.contains(module)) by {
            if st.modules.contains(ident_of(module_base(g.id), false)) {
                crate::names::lemma_unique_name_fresh(ident_of(g.id, false), st.modules);
            }
        }
        let st2 = crate_state(gs, n);
        assert(st2 == crate_step(st, g));
        assert(st2.files[m1 as int].0 == module_file(module));
        assert forall|i: int| 0 <= i < n implies exists|m: Seq<char>| #[trigger] st2.files[i].0 == module_file(m)
            && st2.modules.contains(m) by {
            if i < m1 {
                assert(st2.files[i] == st.files[i]);
                let m = choose|m: Seq<char>| #[trigger] st.files[i].0 == module_file(m) && st.modules.contains(m);
                assert(st2.modules.contains(m));
            } else {
                assert(st2.modules.contains(module));
            }
        }
        assert forall|i: int, j: int| 0 <= i < j < n implies #[trigger] st2.files[i].0 != #[trigger] st2.files[j].0 by {
            assert(st2.files[i] == st.files[i]);
            if j == m1 {
                let m = choose|m: Seq<char>| #[trigger] st.files[i].0 == module_file(m) && st.modules.contains(m);
                if st2.files[i].0 == st2.files[j].0 {
                    lemma_module_file_injective(m, module);
                }
            } else {
                assert(st2.files[j] == st.files[j]);
            }
        }
    }
}

/// The generated files have pairwise different paths: every group gets a
/// module file of its own, and none of them is the crate's `generated.rs`.
pub proof fn lemma_render_paths_distinct(gs: Seq<GroupView>)
    ensures
        forall|i: int, j: int| 0 <= i < j < render_files(gs).len() ==> #[trigger] render_files(gs)[i].0 != #[trigger] render_files(gs)[j].0,
{
    lemma_crate_state_paths(gs, gs.len());
    let fs = render_files(gs);
    let n = gs.len() as int;
    reveal_strlit("src/generated/");
    reveal_strlit(".rs");
    reveal_strlit("src/generated.rs");
    assert forall|i: int, j: int| 0 <= i < j < fs.len() implies #[trigger] fs[i].0 != #[trigger] fs[j].0 by {
        assert(fs[i] == crate_state(gs, gs.len()).files[i]);
        if j == n {
            let m = choose|m: Seq<char>| #[trigger] crate_state(gs, gs.len()).files[i].0 == module_file(m)
                && crate_state(gs, gs.len()).modules.contains(m);
            assert(module_file(m)[13] == '/');
            assert(fs[j].0[13] == '.');
        } else {
            assert(fs[j] == crate_state(gs, gs.len()).files[j]);
        }
    }
}

pub open spec fn files_view(v: Seq<(String, String)>) -> Seq<(Seq<char>, Seq<char>)> {
    v.map_values(|p: (String, String)| (p.0@, p.1@))
}

proof fn lemma_registry_count_grows(gs: Seq<GroupView>, i: nat, n: nat)
    requires
        i <= n,
    ensures
        registry_count(gs, i) <= registry_count(gs, n),
    decreases n - i,
{
    if i < n {
        lemma_registry_count_grows(gs, i, (n - 1) as nat);
    }
}

/// The module name of a group (see `module_name`); it is taken.
fn module_exec(id: &str, modules: &mut NameSet) -> (r: String)
    ensures
        r@ == module_name(id@, old(modules)@),
        final(modules)@ == old(modules)@.insert(r@),
{
    let chars = chars_of(id);
    let suffix = chars_of("-parameters");
    let base = if suffix.len() <= chars.len() && crate::text::chars_eq(
        &crate::text::slice_of(&chars, chars.len() - suffix.len(), chars.len()),
        &suffix,
    ) {
        crate::text::slice_of(&chars, 0, chars.len() - suffix.len())
    } else {
        crate::text::slice_of(&chars, 0, chars.len())
    };
    proof {
        assert(chars@.subrange(chars@.len() - suffix@.len(), chars@.len() as int) == chars@.skip(chars@.len() - suffix@.len()));
        assert(chars@.subrange(0, chars@.len() as int) == chars@);
        assert(base@ == module_base(id@));
    }
    let base_text = crate::text::string_of(&base);
    let m = crate::names::ident(base_text.as_str(), false);
    let mc = chars_of(m.as_str());
    if modules.insert(mc) {
        m
    } else {
        proof { assert(modules@ =~= old(modules)@); }
        crate::names::unique(crate::names::ident(id, false), modules)
    }
}

/// Every generated file, before formatting (see `render_files`).
pub fn render(groups: &Vec<Group>) -> (files: Vec<(String, String)>)
    requires
        registry_count(crate::snapshot::groups_view(groups@), groups@.len()) <= usize::MAX,
    ensures
        files_view(files@) == render_files(crate::snapshot::groups_view(groups@)),
{
    let ghost gs = crate::snapshot::groups_view(groups@);
    let mut decls: Vec<char> = Vec::new();
    let mut table: Vec<char> = Vec::new();
    let mut modules = NameSet::new();
    let mut files: Vec<(String, String)> = Vec::new();
    let mut count: usize = 0;
    let mut i: usize = 0;
    proof {
        assert(files_view(files@) =~= Seq::<(Seq<char>, Seq<char>)>::empty());
        assert(modules@ =~= Set::<Seq<char>>::empty());
    }
    while i < groups.len()
        invariant
            gs == crate::snapshot::groups_view(groups@),
            i <= groups@.len(),
            registry_count(gs, gs.len()) <= usize::MAX,
            count == registry_count(gs, i as nat),
            crate_state(gs, i as nat) == (CrateState {
                decls: decls@, table: table@, modules: modules@, files: files_view(files@),
            }),
        decreases groups@.len() - i,
    {
        let group = &groups[i];
        proof {
            assert(gs[i as int] == group@);
            lemma_registry_count_grows(gs, (i + 1) as nat, gs.len());
        }
        count = count + group.registries.len();
        let module = module_exec(group.id.as_str(), &mut modules);
        put(&mut table, "#[cfg(feature = ");
        put_debug(&mut table, group.id.as_str());
        put(&mut table, ")]\ncrate::RegistryGroup { id: ");
        put_debug(&mut table, group.id.as_str());
        put(&mut table, ", title: ");
        put_debug(&mut table, group.title.as_str());
        put(&mut table, ", registries: ");
        put(&mut table, module.as_str());
        put(&mut table, "::REGISTRIES },\n");
        put(&mut decls, "#[cfg(feature = ");
        put_debug(&mut decls, group.id.as_str());
        put(&mut decls, ")]\n#[doc = ");
        put_debug(&mut decls, group.title.as_str());
        put(&mut decls, "]\npub mod ");
        put(&mut decls, module.as_str());
        put(&mut decls, ";\n");
        let mut path: Vec<char> = Vec::new();
        put(&mut path, "src/generated/");
        put(&mut path, module.as_str());
        put(&mut path, ".rs");
        let source = render_group(group);
        let path_text = crate::text::string_of(&path);
        let ghost before = files@;
        files.push((path_text, source));
        proof {
            assert(files_view(files@) =~= files_view(before).push((path@, source@)));
        }
        i += 1;
    }
    let mut main: Vec<char> = Vec::new();
    put(&mut main, generated_header());
    put(&mut main, "pub const GROUP_COUNT: usize = ");
    extend(&mut main, &crate::numbers::decimal_exec(groups.len() as u128));
    put(&mut main, ";\n");
    put(&mut main, "pub const REGISTRY_COUNT: usize = ");
    extend(&mut main, &crate::numbers::decimal_exec(count as u128));
    put(&mut main, ";\n");
    extend(&mut main, &decls);
    put(&mut main, "#[cfg(feature = \"metadata\")]\npub static GROUPS: &[crate::RegistryGroup] = &[");
    extend(&mut main, &table);
    put(&mut main, "];\n");
    proof {
        assert(main@ =~= crate_text(gs));
    }
    let ghost before = files@;
    files.push((crate::text::string_of(&chars_of("src/generated.rs")), crate::text::string_of(&main)));
    proof {
        assert(files_view(files@) =~= files_view(before).push(("src/generated.rs"@, main@)));
    }
    files
}

// ---------------------------------------------------------------------------
// The feature table of the manifest
// ---------------------------------------------------------------------------

pub open spec fn features_start() -> Seq<char> {
    "# BEGIN GENERATED CATALOG FEATURES\n"@
}

pub open spec fn features_end() -> Seq<char> {
    "# END GENERATED CATALOG FEATURES"@
}

/// Some line of the manifest is `[features]`, give or take white space.
pub open spec fn has_features_table(manifest: Seq<char>) -> bool {
    exists|i: int| 0 <= i < lines(manifest).len() && #[trigger] trim(lines(manifest)[i]) == "[features]"@
}

/// The manifest, with a feature table and empty markers appended where it
/// has neither markers nor a `[features]` table.
pub open spec fn bootstrapped(manifest: Seq<char>) -> Seq<char> {
    if contains(manifest, features_start()) || has_features_table(manifest) {
        manifest
    } else {
        manifest + "\n[features]\ndefault = []\nmetadata = []\n"@ + features_start() + features_end() + "\n"@
    }
}

/// The feature lines of the groups.
pub open spec fn feature_lines(gs: Seq<GroupView>) -> Seq<char>
    decreases gs.len(),
{
    if gs.len() == 0 { seq![] } else { feature_lines(gs.drop_last()) + debug_text(gs.last().id) + " = []\n"@ }
}

/// The first group whose ID is the name of a reserved feature.
pub open spec fn reserved_group(gs: Seq<GroupView>) -> Option<Seq<char>>
    decreases gs.len(),
{
    if gs.len() == 0 {
        None
    } else if gs[0].id == "default"@ || gs[0].id == "metadata"@ {
        Some(gs[0].id)
    } else {
        reserved_group(gs.drop_first())
    }
}

/// The manifest with the text between its markers replaced by one feature
/// per group.
pub open spec fn features_text(manifest: Seq<char>, gs: Seq<GroupView>) -> Result<Seq<char>, ErrorView> {
    match split_once(bootstrapped(manifest), features_start()) {
        None => Err(ErrorView::MissingFeatureStart),
        Some((prefix, rest)) => match split_once(rest, features_end()) {
            None => Err(ErrorView::MissingFeatureEnd),
            Some((_, suffix)) => match reserved_group(gs) {
                Some(id) => Err(ErrorView::ReservedFeature(id)),
                None => Ok(prefix + features_start() + feature_lines(gs) + features_end() + suffix),
            },
        },
    }
}

/// The manifest with one feature per group between its markers (see
/// `features_text`).
#[verifier::loop_isolation(false)]
pub fn render_features(manifest: &str, groups: &Vec<Group>) -> (res: Result<String, Error>)
    ensures
        match res {
            Ok(m) => features_text(manifest@, crate::snapshot::groups_view(groups@)) == Ok::<Seq<char>, ErrorView>(m@),
            Err(e) => features_text(manifest@, crate::snapshot::groups_view(groups@)) == Err::<Seq<char>, ErrorView>(e@),
        },
        // Rendering is idempotent: where the group IDs are valid, the
        // manifest rendered renders to itself.
        res matches Ok(m) ==> ((forall|i: int| 0 <= i < groups@.len() ==> crate::snapshot::is_valid_id(#[trigger] groups@[i].id@))
            ==> features_text(m@, crate::snapshot::groups_view(groups@)) == Ok::<Seq<char>, ErrorView>(m@)),
{
    let ghost gs = crate::snapshot::groups_view(groups@);
    let text = chars_of(manifest);
    let start = chars_of("# BEGIN GENERATED CATALOG FEATURES\n");
    let end = chars_of("# END GENERATED CATALOG FEATURES");
    let mut has_table = false;
    if crate::text::find_exec(&text, &start).is_none() {
        proof { crate::text::lemma_find_some(text@, start@); }
        let all = crate::text::lines_exec(&text);
        let ghost lv = crate::order::views(all@);
        let features = chars_of("[features]");
        let mut i: usize = 0;
        while i < all.len() && !has_table
            invariant
                lv == crate::order::views(all@),
                lv == lines(text@),
                features@ == "[features]"@,
                i <= all@.len(),
                !has_table ==> forall|j: int| 0 <= j < i ==> #[trigger] trim(lv[j]) != "[features]"@,
                has_table ==> has_features_table(text@),
            decreases all@.len() - i,
        {
            let t = crate::text::trim_exec(&all[i]);
            proof { assert(lv[i as int] == all@[i as int]@); }
            if crate::text::chars_eq(&t, &features) {
                has_table = true;
                proof { assert(trim(lines(text@)[i as int]) == "[features]"@); }
            }
            i += 1;
        }
        proof {
            if !has_table {
                assert forall|j: int| 0 <= j < lines(text@).len() implies #[trigger] trim(lines(text@)[j]) != "[features]"@ by {
                    assert(trim(lv[j]) != "[features]"@);
                }
                assert(!has_features_table(text@));
            }
        }
    } else {
        proof {
            crate::text::lemma_find_some(text@, start@);
            let k = crate::text::find(text@, start@)->0;
            assert(crate::text::occurs_at(text@, start@, k));
            assert(contains(text@, start@));
        }
        has_table = true;
    }
    let mut m = text;
    if !has_table {
        put(&mut m, "\n[features]\ndefault = []\nmetadata = []\n");
        extend(&mut m, &start);
        extend(&mut m, &end);
        put(&mut m, "\n");
    }
    proof { assert(m@ =~= bootstrapped(manifest@)); }
    let (prefix, rest) = match crate::text::split_once_exec(&m, &start) {
        None => {
            return Err(Error::MissingFeatureStart);
        },
        Some(p) => p,
    };
    let suffix = match crate::text::split_once_exec(&rest, &end) {
        None => {
            return Err(Error::MissingFeatureEnd);
        },
        Some((_, s)) => s,
    };
    let mut out = prefix;
    extend(&mut out, &start);
    let ghost base = out@;
    let mut i: usize = 0;
    proof {
        assert(gs.skip(0) == gs);
        assert(base + feature_lines(gs.take(0)) == base);
    }
    while i < groups.len()
        invariant
            gs == crate::snapshot::groups_view(groups@),
            i <= groups@.len(),
            reserved_group(gs) == reserved_group(gs.skip(i as int)),
            out@ == base + feature_lines(gs.take(i as int)),
        decreases groups@.len() - i,
    {
        let group = &groups[i];
        proof {
            assert(gs[i as int] == group@);
            assert(gs.skip(i as int)[0] == group@);
            assert(gs.skip(i as int).drop_first() == gs.skip(i + 1));
            assert(gs.take(i + 1).drop_last() == gs.take(i as int));
        }
        if crate::snapshot::str_eq(group.id.as_str(), "default") || crate::snapshot::str_eq(group.id.as_str(), "metadata") {
            return Err(Error::ReservedFeature(group.id.clone()));
        }
        put_debug(&mut out, group.id.as_str());
        put(&mut out, " = []\n");
        proof { assert(out@ =~= base + feature_lines(gs.take(i + 1))); }
        i += 1;
    }
    proof {
        assert(gs.take(gs.len() as int) == gs);
        assert(gs.skip(gs.len() as int).len() == 0);
    }
    extend(&mut out, &end);
    extend(&mut out, &suffix);
    proof {
        if forall|i: int| 0 <= i < groups@.len() ==> crate::snapshot::is_valid_id(#[trigger] groups@[i].id@) {
            assert forall|i: int| 0 <= i < gs.len() implies crate::snapshot::is_valid_id(#[trigger] gs[i].id) by {
                assert(gs[i].id == groups@[i].id@);
            }
            lemma_render_features_idempotent(manifest@, gs);
        }
    }
    Ok(crate::text::string_of(&out))
}

proof fn lemma_feature_lines_no_hash(gs: Seq<GroupView>)
    requires
        forall|i: int| 0 <= i < gs.len() ==> !(#[trigger] debug_text(gs[i].id)).contains('#'),
    ensures
        !feature_lines(gs).contains('#'),
    decreases gs.len(),
{
    if gs.len() > 0 {
        let init = gs.drop_last();
        assert forall|i: int| 0 <= i < init.len() implies !(#[trigger] debug_text(init[i].id)).contains('#') by {
            assert(init[i] == gs[i]);
        }
        lemma_feature_lines_no_hash(init);
        let q = debug_text(gs.last().id);
        assert(!q.contains('#')) by { assert(q == debug_text(gs[gs.len() - 1].id)); }
        let tail = " = []\n"@;
        assert(!tail.contains('#')) by {
            reveal_strlit(" = []\n");
            if tail.contains('#') {
                let k = choose|k: int| 0 <= k < tail.len() && tail[k] == '#';
                assert(tail[k] != '#');
            }
        }
        let l = feature_lines(gs);
        assert(l == feature_lines(init) + q + tail);
        if l.contains('#') {
            let k = choose|k: int| 0 <= k < l.len() && l[k] == '#';
            let a = feature_lines(init).len();
            if k < a {
                assert(feature_lines(init)[k] == '#');
            } else if k < a + q.len() {
                assert(q[k - a] == '#');
            } else {
                assert(tail[k - a - q.len()] == '#');
            }
        }
    }
}

/// A valid group ID is written by `{:?}` between quotes, without a `#`.
proof fn lemma_valid_id_no_hash(id: Seq<char>)
    requires
        crate::snapshot::is_valid_id(id),
    ensures
        debug_text(id) == seq!['"'] + id + seq!['"'],
        !debug_text(id).contains('#'),
{
    assert forall|i: int| 0 <= i < id.len() implies ' ' <= #[trigger] id[i] <= '~' && id[i] != '"' && id[i] != '\\' && id[i] != '\'' by {
        assert(crate::snapshot::is_id_char(id[i]));
    }
    let d = debug_text(id);
    if d.contains('#') {
        let k = choose|k: int| 0 <= k < d.len() && d[k] == '#';
        if 0 < k < d.len() - 1 {
            assert(d[k] == id[k - 1]);
            assert(crate::snapshot::is_id_char(id[k - 1]));
        }
    }
}

/// Rendering the feature table is idempotent: rendering a manifest that
/// was already rendered for the same groups, whose IDs are valid, gives it
/// back unchanged, so a manifest written by generation passes the check
/// that renders it again.
pub proof fn lemma_render_features_idempotent(manifest: Seq<char>, gs: Seq<GroupView>)
    requires
        features_text(manifest, gs) is Ok,
        forall|i: int| 0 <= i < gs.len() ==> crate::snapshot::is_valid_id(#[trigger] gs[i].id),
    ensures
        features_text(features_text(manifest, gs)->Ok_0, gs) == features_text(manifest, gs),
{
    assert forall|i: int| 0 <= i < gs.len() implies !(#[trigger] debug_text(gs[i].id)).contains('#') by {
        lemma_valid_id_no_hash(gs[i].id);
    }
    let start = features_start();
    let end = features_end();
    let b = bootstrapped(manifest);
    crate::text::lemma_find_some(b, start);
    let i = crate::text::find(b, start)->0;
    let prefix = b.take(i);
    let rest = b.skip(i + start.len());
    crate::text::lemma_find_some(rest, end);
    let k = crate::text::find(rest, end)->0;
    let suffix = rest.skip(k + end.len());
    let l = feature_lines(gs);
    let out = prefix + start + l + end + suffix;
    assert(features_text(manifest, gs) == Ok::<Seq<char>, ErrorView>(out));
    // The first start marker of `out` is where it was in `b`.
    assert(crate::text::occurs_at(out, start, i)) by {
        assert(out.subrange(i, i + start.len()) =~= start);
    }
    assert forall|j: int| 0 <= j < i implies !crate::text::occurs_at(out, start, j) by {
        if crate::text::occurs_at(out, start, j) {
            assert(crate::text::occurs_at(b, start, i));
            assert forall|u: int| j <= u < j + start.len() implies #[trigger] b[u] == out[u] by {
                if u < i {
                    assert(b[u] == prefix[u]);
                } else {
                    assert(b.subrange(i, i + start.len())[u - i] == start[u - i]);
                }
            }
            assert(b.subrange(j, j + start.len()) =~= out.subrange(j, j + start.len()));
            assert(crate::text::occurs_at(b, start, j));
        }
    }
    crate::text::lemma_find_is(out, start, i);
    assert(contains(out, start));
    assert(bootstrapped(out) == out);
    assert(out.take(i) =~= prefix);
    let rest2 = out.skip(i + start.len());
    assert(rest2 =~= l + end + suffix);
    // The first end marker of the rest is right after the feature lines.
    assert(crate::text::occurs_at(rest2, end, l.len() as int)) by {
        assert(rest2.subrange(l.len() as int, (l.len() + end.len()) as int) =~= end);
    }
    lemma_feature_lines_no_hash(gs);
    reveal_strlit("# END GENERATED CATALOG FEATURES");
    assert(end.len() > 0 && end[0] == '#');
    assert forall|j: int| 0 <= j < l.len() implies !crate::text::occurs_at(rest2, end, j) by {
        if crate::text::occurs_at(rest2, end, j) {
            assert(rest2.subrange(j, j + end.len())[0] == end[0]);
            assert(rest2[j] == l[j]);
            assert(l[j] == '#');
            assert(l.contains('#'));
        }
    }
    crate::text::lemma_find_is(rest2, end, l.len() as int);
    assert(rest2.skip((l.len() + end.len()) as int) =~= suffix);
}

// ---------------------------------------------------------------------------
// Stale modules
// ---------------------------------------------------------------------------

/// How generated files are reconciled with the tree.
pub enum Mode {
    /// Write what differs.
    Write,
    /// Fail on anything that differs.
    Check,
}

/// The text of each file on disk, where there is one.
pub open spec fn disk_view(on_disk: Seq<Option<String>>) -> Seq<Option<Seq<char>>> {
    on_disk.map_values(|o: Option<String>| crate::xml::opt_view(o))
}

/// Whether file `i` differs from what is on disk (a missing file differs).
pub open spec fn differs(files: Seq<(Seq<char>, Seq<char>)>, on_disk: Seq<Option<Seq<char>>>, i: int) -> bool {
    on_disk[i] != Some(files[i].1)
}

/// The first file, from the `i`-th on, that differs from what is on disk.
pub open spec fn first_differing(files: Seq<(Seq<char>, Seq<char>)>, on_disk: Seq<Option<Seq<char>>>, i: int) -> Option<int>
    decreases files.len() - i,
{
    if 0 <= i < files.len() {
        if differs(files, on_disk, i) { Some(i) } else { first_differing(files, on_disk, i + 1) }
    } else {
        None
    }
}

/// What reconciling the generated files (path and expected text, with what
/// is on disk at each path) asks for. In `Write` mode: the positions of the
/// files to write, those that differ, in increasing order. In `Check` mode:
/// `StaleFile` with the path of the first file that differs, else
/// `ObsoleteModules` where stale modules remain (`stale_count` of them),
/// else nothing to write.
pub fn sync_plan(mode: &Mode, files: &Vec<(String, String)>, on_disk: &Vec<Option<String>>, stale_count: usize)
    -> (res: Result<Vec<usize>, Error>)
    requires
        on_disk@.len() == files@.len(),
    ensures
        ({
            let fv = files_view(files@);
            let dv = disk_view(on_disk@);
            match *mode {
                Mode::Write => res matches Ok(w) && {
                    &&& forall|a: int, b: int| 0 <= a < b < w@.len() ==> #[trigger] w@[a] < #[trigger] w@[b]
                    &&& forall|k: int| 0 <= k < w@.len() ==> #[trigger] w@[k] < files@.len()
                    &&& forall|i: int| 0 <= i < files@.len() ==> (differs(fv, dv, i) <==> w@.contains(i as usize))
                },
                Mode::Check => match first_differing(fv, dv, 0) {
                    Some(k) => res matches Err(Error::StaleFile(p)) && p@ == fv[k].0,
                    None => if stale_count > 0 {
                        res matches Err(Error::ObsoleteModules)
                    } else {
                        res matches Ok(w) && w@.len() == 0
                    },
                },
            }
        }),
{
    let ghost fv = files_view(files@);
    let ghost dv = disk_view(on_disk@);
    let check = match mode {
        Mode::Write => false,
        Mode::Check => true,
    };
    let mut write: Vec<usize> = Vec::new();
    let mut i: usize = 0;
    while i < files.len()
        invariant
            fv == files_view(files@),
            dv == disk_view(on_disk@),
            on_disk@.len() == files@.len(),
            check == (*mode is Check),
            i <= files@.len(),
            check ==> first_differing(fv, dv, 0) == first_differing(fv, dv, i as int),
            check ==> write@.len() == 0,
            forall|a: int, b: int| 0 <= a < b < write@.len() ==> #[trigger] write@[a] < #[trigger] write@[b],
            forall|k: int| 0 <= k < write@.len() ==> #[trigger] write@[k] < i,
            !check ==> forall|j: int| 0 <= j < i ==> (differs(fv, dv, j) <==> write@.contains(j as usize)),
        decreases files@.len() - i,
    {
        let same = match &on_disk[i] {
            Some(text) => crate::snapshot::str_eq(text.as_str(), files[i].1.as_str()),
            None => false,
        };
        proof {
            assert(dv[i as int] == crate::xml::opt_view(on_disk@[i as int]));
            assert(fv[i as int].1 == files@[i as int].1@);
            assert(same == !differs(fv, dv, i as int));
        }
        if !same {
            if check {
                return Err(Error::StaleFile(files[i].0.clone()));
            }
            let ghost before = write@;
            write.push(i);
            proof {
                assert forall|j: int| 0 <= j <= i implies (differs(fv, dv, j) <==> write@.contains(j as usize)) by {
                    if j < i {
                        if before.contains(j as usize) {
                            let k = choose|k: int| 0 <= k < before.len() && before[k] == j as usize;
                            assert(write@[k] == j as usize);
                        }
                        if write@.contains(j as usize) {
                            let k = choose|k: int| 0 <= k < write@.len() && write@[k] == j as usize;
                            if k < before.len() {
                                assert(before[k] == j as usize);
                            }
                        }
                    } else {
                        assert(write@[before.len() as int] == i);
                    }
                }
            }
        } else {
            proof {
                if !check {
                    assert forall|j: int| 0 <= j <= i implies (differs(fv, dv, j) <==> write@.contains(j as usize)) by {
                        if j == i && write@.contains(j as usize) {
                            let k = choose|k: int| 0 <= k < write@.len() && write@[k] == j as usize;
                        }
                    }
                }
            }
        }
        i += 1;
    }
    if check && stale_count > 0 {
        return Err(Error::ObsoleteModules);
    }
    Ok(write)
}

/// Whether a module found under `src/generated/` is stale: the generator
/// wrote it (it starts with the generated header) and the current files do
/// not include it.
pub open spec fn is_stale(relative: Seq<char>, paths: Seq<Seq<char>>, contents: Seq<char>) -> bool {
    !paths.contains(relative) && starts_with(contents, header_text())
}

/// Whether a module is stale (see `is_stale`), given its path relative to
/// the crate, the generated files and its contents.
pub fn stale_module(relative: &str, files: &Vec<(String, String)>, contents: &str) -> (r: bool)
    ensures
        r == is_stale(relative@, files_view(files@).map_values(|p: (Seq<char>, Seq<char>)| p.0), contents@),
{
    let ghost paths = files_view(files@).map_values(|p: (Seq<char>, Seq<char>)| p.0);
    let mut i: usize = 0;
    while i < files.len()
        invariant
            paths == files_view(files@).map_values(|p: (Seq<char>, Seq<char>)| p.0),
            i <= files@.len(),
            forall|j: int| 0 <= j < i ==> paths[j] != relative@,
        decreases files@.len() - i,
    {
        proof { assert(paths[i as int] == files@[i as int].0@); }
        if crate::snapshot::str_eq(files[i].0.as_str(), relative) {
            proof { assert(paths.contains(relative@)); }
            return false;
        }
        i += 1;
    }
    let c = chars_of(contents);
    let h = chars_of(generated_header());
    crate::text::starts_with_exec(&c, &h)
}

} // verus!
