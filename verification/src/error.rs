//! The errors of the generator.
use vstd::prelude::*;
use crate::render::put;

verus! {

/// Why an operation of the generator failed.
#[derive(Debug)]
pub enum Error {
    /// The command line does not follow the usage.
    Usage,
    /// A registry group ID holds a character other than `[A-Za-z0-9_-]` or is empty.
    InvalidGroupId(String),
    /// A catalog line has no tab.
    InvalidCatalogEntry,
    /// A discovered group ID appears twice in the catalog.
    DuplicateCatalogEntry(String),
    /// A catalog line names a canonical group that has no snapshot: (alias, canonical).
    MissingSnapshot(String, String),
    /// The catalog has no entry.
    EmptyCatalog,
    /// The XML parser refused the snapshot, with its message.
    Xml(String),
    /// The root element is not an IANA `registry`.
    NotRegistryXml,
    /// The root registry has no `id` attribute.
    MissingGroupId,
    /// A nested registry has no `id` attribute.
    MissingRegistryId,
    /// Two registries of one snapshot share an ID.
    DuplicateRegistryId(String),
    /// Two snapshots describe the same group.
    DuplicateGroup(String),
    /// There is no snapshot at all.
    NoSnapshots,
    /// An error in the named snapshot file.
    InFile(String, Box<Error>),
    /// The manifest has no start marker for the generated features.
    MissingFeatureStart,
    /// The manifest has no end marker for the generated features.
    MissingFeatureEnd,
    /// A group ID is the name of a reserved feature.
    ReservedFeature(String),
    /// The index page links to no registry group.
    NoGroupsDiscovered,
    /// Downloads failed, with their messages in sorted order.
    DownloadsFailed(Vec<String>),
    /// A generated file on disk differs from what generation gives (its path).
    StaleFile(String),
    /// Generated modules that no group produces remain.
    ObsoleteModules,
}

/// The mathematical value of an [`Error`].
pub enum ErrorView {
    Usage,
    InvalidGroupId(Seq<char>),
    InvalidCatalogEntry,
    DuplicateCatalogEntry(Seq<char>),
    MissingSnapshot(Seq<char>, Seq<char>),
    EmptyCatalog,
    Xml(Seq<char>),
    NotRegistryXml,
    MissingGroupId,
    MissingRegistryId,
    DuplicateRegistryId(Seq<char>),
    DuplicateGroup(Seq<char>),
    NoSnapshots,
    InFile(Seq<char>, Box<ErrorView>),
    MissingFeatureStart,
    MissingFeatureEnd,
    ReservedFeature(Seq<char>),
    NoGroupsDiscovered,
    DownloadsFailed(Seq<Seq<char>>),
    StaleFile(Seq<char>),
    ObsoleteModules,
}

impl View for Error {
    type V = ErrorView;

    open spec fn view(&self) -> ErrorView
        decreases self,
    {
        match self {
            Error::Usage => ErrorView::Usage,
            Error::InvalidGroupId(s) => ErrorView::InvalidGroupId(s@),
            Error::InvalidCatalogEntry => ErrorView::InvalidCatalogEntry,
            Error::DuplicateCatalogEntry(s) => ErrorView::DuplicateCatalogEntry(s@),
            Error::MissingSnapshot(a, c) => ErrorView::MissingSnapshot(a@, c@),
            Error::EmptyCatalog => ErrorView::EmptyCatalog,
            Error::Xml(s) => ErrorView::Xml(s@),
            Error::NotRegistryXml => ErrorView::NotRegistryXml,
            Error::MissingGroupId => ErrorView::MissingGroupId,
            Error::MissingRegistryId => ErrorView::MissingRegistryId,
            Error::DuplicateRegistryId(s) => ErrorView::DuplicateRegistryId(s@),
            Error::DuplicateGroup(s) => ErrorView::DuplicateGroup(s@),
            Error::NoSnapshots => ErrorView::NoSnapshots,
            Error::InFile(p, e) => ErrorView::InFile(p@, Box::new((**e)@)),
            Error::MissingFeatureStart => ErrorView::MissingFeatureStart,
            Error::MissingFeatureEnd => ErrorView::MissingFeatureEnd,
            Error::ReservedFeature(s) => ErrorView::ReservedFeature(s@),
            Error::NoGroupsDiscovered => ErrorView::NoGroupsDiscovered,
            Error::DownloadsFailed(v) => ErrorView::DownloadsFailed(v@.map_values(|s: String| s@)),
            Error::StaleFile(p) => ErrorView::StaleFile(p@),
            Error::ObsoleteModules => ErrorView::ObsoleteModules,
        }
    }
}

/// The lines joined with `\n` between them.
pub open spec fn joined_lines(ms: Seq<Seq<char>>) -> Seq<char>
    decreases ms.len(),
{
    if ms.len() == 0 {
        seq![]
    } else if ms.len() == 1 {
        ms[0]
    } else {
        joined_lines(ms.drop_last()) + seq!['\n'] + ms.last()
    }
}

pub open spec fn usage_text() -> Seq<char> {
    "usage: cargo run -p xtask -- iana <discover|fetch [GROUP...|--all]|update [GROUP...|--all]|generate|check>"@
}

/// The message that reports an error.
pub open spec fn message_of(e: ErrorView) -> Seq<char>
    decreases e,
{
    match e {
        ErrorView::Usage => usage_text(),
        ErrorView::InvalidGroupId(id) => "invalid registry group ID: "@ + crate::render::debug_text(id),
        ErrorView::InvalidCatalogEntry => "invalid catalog entry"@,
        ErrorView::DuplicateCatalogEntry(a) => "duplicate catalog entry "@ + a,
        ErrorView::MissingSnapshot(a, c) => "catalog group "@ + a + " is missing snapshot "@ + c,
        ErrorView::EmptyCatalog => "empty discovery catalog"@,
        ErrorView::Xml(m) => m,
        ErrorView::NotRegistryXml => "expected IANA registry XML root"@,
        ErrorView::MissingGroupId => "missing group ID"@,
        ErrorView::MissingRegistryId => "missing registry ID"@,
        ErrorView::DuplicateRegistryId(id) => "duplicate registry ID "@ + id,
        ErrorView::DuplicateGroup(id) => "duplicate group "@ + id,
        ErrorView::NoSnapshots => "no XML snapshots found"@,
        ErrorView::InFile(p, inner) => p + ": "@ + message_of(*inner),
        ErrorView::MissingFeatureStart => "missing generated feature start marker"@,
        ErrorView::MissingFeatureEnd => "missing generated feature end marker"@,
        ErrorView::ReservedFeature(id) => "catalog ID conflicts with reserved feature: "@ + id,
        ErrorView::NoGroupsDiscovered => "IANA catalog contained no registry groups"@,
        ErrorView::DownloadsFailed(ms) => crate::numbers::decimal(ms.len()) + " snapshot downloads failed:\n"@
            + joined_lines(ms),
        ErrorView::StaleFile(p) => p + " is stale; run cargo run -p xtask -- iana generate"@,
        ErrorView::ObsoleteModules => "obsolete generated modules; run cargo run -p xtask -- iana generate"@,
    }
}

impl Error {
    /// The message that reports the error (see `message_of`).
    pub fn message(&self) -> (r: String)
        ensures
            r@ == message_of(self@),
        decreases self,
    {
        let mut out: Vec<char> = Vec::new();
        self.put_message(&mut out);
        proof { assert(out@ =~= message_of(self@)); }
        crate::text::string_of(&out)
    }

    fn put_message(&self, out: &mut Vec<char>)
        ensures
            final(out)@ == old(out)@ + message_of(self@),
        decreases self,
    {
        match self {
            Error::Usage => put(out, "usage: cargo run -p xtask -- iana <discover|fetch [GROUP...|--all]|update [GROUP...|--all]|generate|check>"),
            Error::InvalidGroupId(id) => {
                put(out, "invalid registry group ID: ");
                crate::render::put_debug(out, id.as_str());
            },
            Error::InvalidCatalogEntry => put(out, "invalid catalog entry"),
            Error::DuplicateCatalogEntry(a) => {
                put(out, "duplicate catalog entry ");
                put(out, a.as_str());
            },
            Error::MissingSnapshot(a, c) => {
                put(out, "catalog group ");
                put(out, a.as_str());
                put(out, " is missing snapshot ");
                put(out, c.as_str());
            },
            Error::EmptyCatalog => put(out, "empty discovery catalog"),
            Error::Xml(m) => put(out, m.as_str()),
            Error::NotRegistryXml => put(out, "expected IANA registry XML root"),
            Error::MissingGroupId => put(out, "missing group ID"),
            Error::MissingRegistryId => put(out, "missing registry ID"),
            Error::DuplicateRegistryId(id) => {
                put(out, "duplicate registry ID ");
                put(out, id.as_str());
            },
            Error::DuplicateGroup(id) => {
                put(out, "duplicate group ");
                put(out, id.as_str());
            },
            Error::NoSnapshots => put(out, "no XML snapshots found"),
            Error::InFile(p, inner) => {
                put(out, p.as_str());
                put(out, ": ");
                inner.put_message(out);
            },
            Error::MissingFeatureStart => put(out, "missing generated feature start marker"),
            Error::MissingFeatureEnd => put(out, "missing generated feature end marker"),
            Error::ReservedFeature(id) => {
                put(out, "catalog ID conflicts with reserved feature: ");
                put(out, id.as_str());
            },
            Error::NoGroupsDiscovered => put(out, "IANA catalog contained no registry groups"),
            Error::DownloadsFailed(ms) => {
                let n = crate::numbers::decimal_exec(ms.len() as u128);
                crate::text::extend(out, &n);
                put(out, " snapshot downloads failed:\n");
                let ghost start = out@;
                let ghost mv = ms@.map_values(|s: String| s@);
                let mut i: usize = 0;
                proof { assert(start + joined_lines(mv.take(0)) == start); }
                while i < ms.len()
                    invariant
                        mv == ms@.map_values(|s: String| s@),
                        i <= ms@.len(),
                        out@ == start + joined_lines(mv.take(i as int)),
                    decreases ms@.len() - i,
                {
                    if i > 0 {
                        out.push('\n');
                    }
                    put(out, ms[i].as_str());
                    proof {
                        let t = mv.take(i + 1);
                        assert(t.drop_last() == mv.take(i as int));
                        assert(t.last() == ms@[i as int]@);
                        if i == 0 {
                            assert(t.len() == 1);
                        }
                        assert(out@ =~= start + joined_lines(t));
                    }
                    i += 1;
                }
                proof { assert(mv.take(ms@.len() as int) == mv); }
            },
            Error::StaleFile(p) => {
                put(out, p.as_str());
                put(out, " is stale; run cargo run -p xtask -- iana generate");
            },
            Error::ObsoleteModules => put(out, "obsolete generated modules; run cargo run -p xtask -- iana generate"),
        }
    }
}

} // verus!
