//! The types that generated registry modules are made of.
use vstd::prelude::*;

verus! {

/// Static identity of an IANA registry.
#[derive(Debug, Clone, Copy, PartialEq, Eq)]
pub struct RegistryInfo {
    pub group: &'static str,
    pub id: &'static str,
    pub title: &'static str,
    pub parent: Option<&'static str>,
}

/// A registry with the XML it was read from, including fields, references and rules.
#[derive(Debug)]
pub struct Registry {
    pub info: RegistryInfo,
    pub xml: &'static str,
    pub records: &'static [Record],
}

/// One IANA XML group in the complete discovered catalog.
#[derive(Debug)]
pub struct RegistryGroup {
    pub id: &'static str,
    pub title: &'static str,
    pub registries: &'static [Registry],
}

/// An XML record's columns, in source order. Repeated columns are retained.
#[derive(Debug)]
pub struct Record {
    pub fields: &'static [(&'static str, &'static str)],
}

/// The columns of a record as text.
pub open spec fn fields_view(fields: Seq<(&'static str, &'static str)>) -> Seq<(Seq<char>, Seq<char>)> {
    fields.map_values(|p: (&'static str, &'static str)| (p.0@, p.1@))
}

impl Record {
    /// The value of the first column called `name`.
    pub fn field(&self, name: &str) -> (r: Option<&'static str>)
        ensures
            match r {
                Some(v) => crate::snapshot::field_of(fields_view(self.fields@), name@) == Some(v@),
                None => crate::snapshot::field_of(fields_view(self.fields@), name@) is None,
            },
    {
        let ghost fv = fields_view(self.fields@);
        let mut i: usize = 0;
        proof { assert(fv.skip(0) == fv); }
        while i < self.fields.len()
            invariant
                fv == fields_view(self.fields@),
                i <= self.fields@.len(),
                crate::snapshot::field_of(fv, name@) == crate::snapshot::field_of(fv.skip(i as int), name@),
            decreases self.fields@.len() - i,
        {
            let (key, value) = self.fields[i];
            proof {
                assert(fv.skip(i as int)[0] == (key@, value@));
                assert(fv.skip(i as int).drop_first() == fv.skip(i + 1));
            }
            if crate::snapshot::str_eq(key, name) {
                return Some(value);
            }
            i += 1;
        }
        None
    }
}

/// Allocation classification recorded by IANA, independent of deprecation.
#[derive(Debug, Clone, Copy, PartialEq, Eq, Structural)]
pub enum Status {
    Assigned,
    Unassigned,
    Reserved,
    PrivateUse,
    Experimental,
    Unknown,
}

} // verus!
