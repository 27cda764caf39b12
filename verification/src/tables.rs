//! What a typed registry of a generated module answers about a value: the
//! behaviour of the numeric and textual registry types, over their tables.
use vstd::prelude::*;
use crate::registry::{RegistryInfo, Status};

verus! {

/// The table behind a numeric registry type: its named values (value and
/// label, in the order written) and the status of each range of values
/// (first and last value, in the order written).
pub struct NumericTable {
    pub info: RegistryInfo,
    pub named: &'static [(u64, &'static str)],
    pub ranges: &'static [(u64, u64, Status)],
}

/// The table behind a textual registry type: its registered values.
pub struct StringTable {
    pub info: RegistryInfo,
    pub values: &'static [&'static str],
}

/// The label of the first named value equal to `v`.
pub open spec fn name_in(named: Seq<(u64, &'static str)>, v: u64) -> Option<Seq<char>>
    decreases named.len(),
{
    if named.len() == 0 {
        None
    } else if named[0].0 == v {
        Some(named[0].1@)
    } else {
        name_in(named.drop_first(), v)
    }
}

/// The status of the first range that holds `v`.
pub open spec fn range_status(ranges: Seq<(u64, u64, Status)>, v: u64) -> Option<Status>
    decreases ranges.len(),
{
    if ranges.len() == 0 {
        None
    } else if ranges[0].0 <= v <= ranges[0].1 {
        Some(ranges[0].2)
    } else {
        range_status(ranges.drop_first(), v)
    }
}

/// The status of a value: `Assigned` where it is named, else that of the
/// first range that holds it, else `Unknown`.
pub open spec fn status_in(named: Seq<(u64, &'static str)>, ranges: Seq<(u64, u64, Status)>, v: u64) -> Status {
    if name_in(named, v) is Some {
        Status::Assigned
    } else {
        match range_status(ranges, v) {
            Some(s) => s,
            None => Status::Unknown,
        }
    }
}

impl NumericTable {
    /// The label of `value`, where the registry names it.
    pub fn name(&self, value: u64) -> (r: Option<&'static str>)
        ensures
            match r {
                Some(label) => name_in(self.named@, value) == Some(label@),
                None => name_in(self.named@, value) is None,
            },
    {
        let mut i: usize = 0;
        proof { assert(self.named@.skip(0) == self.named@); }
        while i < self.named.len()
            invariant
                i <= self.named@.len(),
                name_in(self.named@, value) == name_in(self.named@.skip(i as int), value),
            decreases self.named@.len() - i,
        {
            let (v, label) = self.named[i];
            proof {
                assert(self.named@.skip(i as int)[0] == (v, label));
                assert(self.named@.skip(i as int).drop_first() == self.named@.skip(i + 1));
            }
            if v == value {
                return Some(label);
            }
            i += 1;
        }
        None
    }

    /// Whether the registry names `value`.
    pub fn is_registered(&self, value: u64) -> (r: bool)
        ensures
            r == name_in(self.named@, value) is Some,
    {
        self.name(value).is_some()
    }

    /// The allocation status of `value` (see `status_in`).
    pub fn status(&self, value: u64) -> (r: Status)
        ensures
            r == status_in(self.named@, self.ranges@, value),
    {
        if self.is_registered(value) {
            return Status::Assigned;
        }
        let mut i: usize = 0;
        proof { assert(self.ranges@.skip(0) == self.ranges@); }
        while i < self.ranges.len()
            invariant
                i <= self.ranges@.len(),
                name_in(self.named@, value) is None,
                range_status(self.ranges@, value) == range_status(self.ranges@.skip(i as int), value),
            decreases self.ranges@.len() - i,
        {
            let (start, end, status) = self.ranges[i];
            proof {
                assert(self.ranges@.skip(i as int)[0] == (start, end, status));
                assert(self.ranges@.skip(i as int).drop_first() == self.ranges@.skip(i + 1));
            }
            if start <= value && value <= end {
                return status;
            }
            i += 1;
        }
        Status::Unknown
    }
}

impl StringTable {
    /// Whether `value` is one of the registered values.
    pub fn is_registered(&self, value: &str) -> (r: bool)
        ensures
            r == exists|i: int| 0 <= i < self.values@.len() && (#[trigger] self.values@[i])@ == value@,
    {
        let mut i: usize = 0;
        while i < self.values.len()
            invariant
                i <= self.values@.len(),
                forall|j: int| 0 <= j < i ==> (#[trigger] self.values@[j])@ != value@,
            decreases self.values@.len() - i,
        {
            if crate::snapshot::str_eq(self.values[i], value) {
                return true;
            }
            i += 1;
        }
        false
    }
}

proof fn lemma_listed_value_named(named: Seq<(u64, &'static str)>, i: int)
    requires
        0 <= i < named.len(),
    ensures
        name_in(named, named[i].0) is Some,
    decreases named.len(),
{
    if i > 0 && named[0].0 != named[i].0 {
        assert(named.drop_first()[i - 1] == named[i]);
        lemma_listed_value_named(named.drop_first(), i - 1);
    }
}

/// Every value that a numeric registry lists is registered and has the
/// status `Assigned`, whatever its ranges say of it.
pub proof fn lemma_listed_values_are_assigned(named: Seq<(u64, &'static str)>, ranges: Seq<(u64, u64, Status)>)
    ensures
        forall|i: int| 0 <= i < named.len() ==> name_in(named, #[trigger] named[i].0) is Some
            && status_in(named, ranges, named[i].0) == Status::Assigned,
{
    assert forall|i: int| 0 <= i < named.len() implies name_in(named, #[trigger] named[i].0) is Some
        && status_in(named, ranges, named[i].0) == Status::Assigned by {
        lemma_listed_value_named(named, i);
    }
}

proof fn lemma_name_in_first(named: Seq<(u64, &'static str)>, v: u64)
    ensures
        forall|k: int| 0 <= k < named.len() && named[k].0 == v
            && (forall|j: int| 0 <= j < k ==> named[j].0 != v)
            ==> name_in(named, v) == Some(named[k].1@),
        (forall|k: int| 0 <= k < named.len() ==> named[k].0 != v) ==> name_in(named, v) is None,
    decreases named.len(),
{
    if named.len() > 0 {
        let t = named.drop_first();
        lemma_name_in_first(t, v);
        assert forall|k: int| 0 <= k < named.len() && named[k].0 == v
            && (forall|j: int| 0 <= j < k ==> named[j].0 != v)
            implies name_in(named, v) == Some(named[k].1@) by {
            if k > 0 {
                assert(named[0].0 != v);
                assert(t[k - 1] == named[k]);
                assert forall|j: int| 0 <= j < k - 1 implies t[j].0 != v by {
                    assert(t[j] == named[j + 1]);
                }
            }
        }
        if forall|k: int| 0 <= k < named.len() ==> named[k].0 != v {
            assert forall|k: int| 0 <= k < t.len() implies t[k].0 != v by {
                assert(t[k] == named[k + 1]);
            }
        }
    }
}

proof fn lemma_range_status_first(ranges: Seq<(u64, u64, Status)>, v: u64)
    ensures
        forall|k: int| 0 <= k < ranges.len() && ranges[k].0 <= v && v <= ranges[k].1
            && (forall|j: int| 0 <= j < k ==> !(ranges[j].0 <= v && v <= ranges[j].1))
            ==> range_status(ranges, v) == Some(ranges[k].2),
        (forall|k: int| 0 <= k < ranges.len() ==> !(ranges[k].0 <= v && v <= ranges[k].1))
            ==> range_status(ranges, v) is None,
    decreases ranges.len(),
{
    if ranges.len() > 0 {
        let t = ranges.drop_first();
        lemma_range_status_first(t, v);
        assert forall|k: int| 0 <= k < ranges.len() && ranges[k].0 <= v && v <= ranges[k].1
            && (forall|j: int| 0 <= j < k ==> !(ranges[j].0 <= v && v <= ranges[j].1))
            implies range_status(ranges, v) == Some(ranges[k].2) by {
            if k > 0 {
                assert(!(ranges[0].0 <= v && v <= ranges[0].1));
                assert(t[k - 1] == ranges[k]);
                assert forall|j: int| 0 <= j < k - 1 implies !(t[j].0 <= v && v <= t[j].1) by {
                    assert(t[j] == ranges[j + 1]);
                }
            }
        }
        if forall|k: int| 0 <= k < ranges.len() ==> !(ranges[k].0 <= v && v <= ranges[k].1) {
            assert forall|k: int| 0 <= k < t.len() implies !(t[k].0 <= v && v <= t[k].1) by {
                assert(t[k] == ranges[k + 1]);
            }
        }
    }
}

/// What a numeric registry answers for a value `v`. Its name is the label
/// of the first listed entry with value `v`, and it has none where no entry
/// has that value. Its status is `Assigned` where it is named; else the
/// status of the first range `start ..= end` (both ends included) that
/// holds it; else `Unknown`.
pub proof fn lemma_numeric_answers(named: Seq<(u64, &'static str)>, ranges: Seq<(u64, u64, Status)>, v: u64)
    ensures
        forall|k: int| 0 <= k < named.len() && named[k].0 == v
            && (forall|j: int| 0 <= j < k ==> named[j].0 != v)
            ==> name_in(named, v) == Some(named[k].1@),
        (forall|k: int| 0 <= k < named.len() ==> named[k].0 != v) ==> name_in(named, v) is None,
        (exists|k: int| 0 <= k < named.len() && named[k].0 == v) ==> status_in(named, ranges, v) == Status::Assigned,
        forall|k: int| 0 <= k < ranges.len() && ranges[k].0 <= v && v <= ranges[k].1
            && (forall|j: int| 0 <= j < k ==> !(ranges[j].0 <= v && v <= ranges[j].1))
            && (forall|j: int| 0 <= j < named.len() ==> named[j].0 != v)
            ==> status_in(named, ranges, v) == ranges[k].2,
        (forall|k: int| 0 <= k < ranges.len() ==> !(ranges[k].0 <= v && v <= ranges[k].1))
            && (forall|j: int| 0 <= j < named.len() ==> named[j].0 != v)
            ==> status_in(named, ranges, v) == Status::Unknown,
{
    lemma_name_in_first(named, v);
    lemma_range_status_first(ranges, v);
    if exists|k: int| 0 <= k < named.len() && named[k].0 == v {
        let k = choose|k: int| 0 <= k < named.len() && named[k].0 == v;
        lemma_listed_value_named(named, k);
    }
}

} // verus!
