//! The document model: dependency tables as lists of keyed entries,
//! the source specification, and the library's error kinds.

use vstd::prelude::*;

verus! {

use crate::bytes::eq_bytes;
use crate::version::{semver_parse, parse_version, Version, VersionV};

/// The error kinds the tool distinguishes.
#[derive(Clone, Copy, PartialEq, Eq, Structural, Debug)]
pub enum Error {
    /// A revision together with a branch, or a path together with either.
    ConflictingSources,
    /// No version, revision, branch or path was given at all.
    NoSourceGiven,
    /// A version string that does not parse as a semantic version.
    VersionParse,
    /// A build-metadata override that does not parse.
    BuildMetadataParse,
    /// Zero or several entries for the looked-up crate in the lock document.
    LockResolution,
    /// Neither a workspace-level nor a package-level version table exists.
    MissingVersionTable,
    /// The release script lacks the opening token of the crate list.
    MissingListStart,
    /// The release script lacks the closing token of the crate list.
    MissingListEnd,
}

/// The fields of a dependency entry written as a table.
#[derive(Debug)]
pub struct DepFields {
    pub version: Option<Vec<u8>>,
    pub features: Option<Vec<Vec<u8>>>,
    pub git: Option<Vec<u8>>,
    pub branch: Option<Vec<u8>>,
    pub rev: Option<Vec<u8>>,
    pub path: Option<Vec<u8>>,
}

/// A dependency entry: the bare-version shorthand, a table of fields, or
/// an entry of the document that the operation leaves untouched.
#[derive(Debug)]
pub enum Dep {
    Bare(Vec<u8>),
    Fields(DepFields),
    Keep,
}

/// One entry of a dependency or patch table.
#[derive(Debug)]
pub struct Row {
    pub key: Vec<u8>,
    pub dep: Dep,
}

#[verifier::ext_equal]
pub struct FieldsV {
    pub version: Option<Seq<u8>>,
    pub features: Option<Seq<Seq<u8>>>,
    pub git: Option<Seq<u8>>,
    pub branch: Option<Seq<u8>>,
    pub rev: Option<Seq<u8>>,
    pub path: Option<Seq<u8>>,
}

#[verifier::ext_equal]
pub enum DepV {
    Bare(Seq<u8>),
    Fields(FieldsV),
    Keep,
}

#[verifier::ext_equal]
pub struct RowV {
    pub key: Seq<u8>,
    pub dep: DepV,
}

pub open spec fn ov(o: Option<Vec<u8>>) -> Option<Seq<u8>> {
    match o {
        Some(v) => Some(v@),
        None => None,
    }
}

pub open spec fn names_v(s: Seq<Vec<u8>>) -> Seq<Seq<u8>> {
    s.map_values(|v: Vec<u8>| v@)
}

pub open spec fn ovv(o: Option<Vec<Vec<u8>>>) -> Option<Seq<Seq<u8>>> {
    match o {
        Some(v) => Some(names_v(v@)),
        None => None,
    }
}

impl View for DepFields {
    type V = FieldsV;

    open spec fn view(&self) -> FieldsV {
        FieldsV {
            version: ov(self.version),
            features: ovv(self.features),
            git: ov(self.git),
            branch: ov(self.branch),
            rev: ov(self.rev),
            path: ov(self.path),
        }
    }
}

impl View for Dep {
    type V = DepV;

    open spec fn view(&self) -> DepV {
        match self {
            Dep::Bare(v) => DepV::Bare(v@),
            Dep::Fields(f) => DepV::Fields(f@),
            Dep::Keep => DepV::Keep,
        }
    }
}

impl View for Row {
    type V = RowV;

    open spec fn view(&self) -> RowV {
        RowV { key: self.key@, dep: self.dep@ }
    }
}

/// The view of a whole table.
pub open spec fn tv(rows: Seq<Row>) -> Seq<RowV> {
    rows.map_values(|r: Row| r@)
}

/// The keys of a table, in order.
pub open spec fn keys_of(rs: Seq<RowV>) -> Seq<Seq<u8>> {
    rs.map_values(|r: RowV| r.key)
}

/// A well-formed table names each key once.
pub open spec fn unique_keys(rs: Seq<RowV>) -> bool {
    keys_of(rs).no_duplicates()
}

/// Whether the table has an entry under `k`.
pub open spec fn has_key(rs: Seq<RowV>, k: Seq<u8>) -> bool {
    exists|i: int| 0 <= i < rs.len() && rs[i].key == k
}

/// An index of the entry under `k`.
pub open spec fn idx_of(rs: Seq<RowV>, k: Seq<u8>) -> int {
    choose|i: int| 0 <= i < rs.len() && rs[i].key == k
}

/// The entry under `k`; meaningful when `has_key(rs, k)` holds.
pub open spec fn dep_of(rs: Seq<RowV>, k: Seq<u8>) -> DepV {
    rs[idx_of(rs, k)].dep
}

/// In a well-formed table, every position holding `k` is `idx_of(rs, k)`.
pub proof fn lemma_unique_key_index(rs: Seq<RowV>, i: int)
    requires
        unique_keys(rs),
        0 <= i < rs.len(),
    ensures
        has_key(rs, rs[i].key),
        idx_of(rs, rs[i].key) == i,
        dep_of(rs, rs[i].key) == rs[i].dep,
{
    assert(has_key(rs, rs[i].key));
    let j = idx_of(rs, rs[i].key);
    assert(keys_of(rs)[i] == rs[i].key);
    assert(keys_of(rs)[j] == rs[j].key);
}

/// Holding a key and appearing among the table's keys are the same thing.
pub proof fn lemma_has_key_keys(rs: Seq<RowV>, k: Seq<u8>)
    ensures
        has_key(rs, k) == keys_of(rs).contains(k),
{
    if has_key(rs, k) {
        let i = choose|i: int| 0 <= i < rs.len() && rs[i].key == k;
        assert(keys_of(rs)[i] == k);
    }
    if keys_of(rs).contains(k) {
        let i = choose|i: int| 0 <= i < keys_of(rs).len() && keys_of(rs)[i] == k;
        assert(rs[i].key == k);
    }
}

/// Decides whether `name` occurs in `names`.
pub fn contains_name(names: &Vec<Vec<u8>>, name: &Vec<u8>) -> (r: bool)
    ensures
        r == names_v(names@).contains(name@),
{
    let mut i: usize = 0;
    while i < names.len()
        invariant
            i <= names@.len(),
            forall|j: int| 0 <= j < i ==> names_v(names@)[j] != name@,
        decreases names@.len() - i,
    {
        if eq_bytes(&names[i], name) {
            proof {
                assert(names_v(names@)[i as int] == name@);
            }
            return true;
        }
        i += 1;
    }
    false
}

/// Where a dependency group is to be sourced from. Exactly one of the four
/// shapes the tool accepts: a registry version, a git revision, a git
/// branch, or a local path, with the version optionally accompanying the
/// git and path forms.
#[derive(Debug)]
pub struct SourceSpec {
    pub version: Option<Version>,
    pub rev: Option<Vec<u8>>,
    pub branch: Option<Vec<u8>>,
    pub path: Option<Vec<u8>>,
}

#[verifier::ext_equal]
pub struct SourceSpecV {
    pub version: Option<VersionV>,
    pub rev: Option<Seq<u8>>,
    pub branch: Option<Seq<u8>>,
    pub path: Option<Seq<u8>>,
}

impl View for SourceSpec {
    type V = SourceSpecV;

    open spec fn view(&self) -> SourceSpecV {
        SourceSpecV {
            version: match self.version {
                Some(v) => Some(v@),
                None => None,
            },
            rev: ov(self.rev),
            branch: ov(self.branch),
            path: ov(self.path),
        }
    }
}

impl SourceSpecV {
    /// A revision excludes a branch; a path excludes both; and at least
    /// one of the four parts must be present.
    pub open spec fn wf(self) -> bool {
        &&& !(self.rev is Some && self.branch is Some)
        &&& self.path is Some ==> self.rev is None && self.branch is None
        &&& self.version is Some || self.rev is Some || self.branch is Some || self.path is Some
    }

    /// Whether the spec asks for anything beyond a registry version.
    pub open spec fn is_override(self) -> bool {
        self.rev is Some || self.branch is Some || self.path is Some
    }
}

impl SourceSpec {
    /// Validated construction of a source spec from the user's choices.
    /// Fails on a conflicting combination, on an empty one, and on a
    /// version string that does not parse.
    pub fn new(
        version: Option<Vec<u8>>,
        rev: Option<Vec<u8>>,
        branch: Option<Vec<u8>>,
        path: Option<Vec<u8>>,
    ) -> (r: Result<SourceSpec, Error>)
        ensures
            ({
                let conflict = (rev is Some && branch is Some) || (path is Some && (rev is Some
                    || branch is Some));
                let empty = version is None && rev is None && branch is None && path is None;
                let bad_version = match version {
                    Some(t) => semver_parse(t@) is None,
                    None => false,
                };
                match r {
                    Ok(s) => {
                        &&& !conflict
                        &&& !empty
                        &&& !bad_version
                        &&& s@.wf()
                        &&& s@.rev == ov(rev)
                        &&& s@.branch == ov(branch)
                        &&& s@.path == ov(path)
                        &&& s@.version == (match version {
                            Some(t) => semver_parse(t@),
                            None => None,
                        })
                    },
                    Err(e) => {
                        &&& conflict || empty || bad_version
                        &&& e == (if conflict {
                            Error::ConflictingSources
                        } else if empty {
                            Error::NoSourceGiven
                        } else {
                            Error::VersionParse
                        })
                    },
                }
            }),
    {
        let conflict = (rev.is_some() && branch.is_some()) || (path.is_some() && (rev.is_some()
            || branch.is_some()));
        if conflict {
            return Err(Error::ConflictingSources);
        }
        if version.is_none() && rev.is_none() && branch.is_none() && path.is_none() {
            return Err(Error::NoSourceGiven);
        }
        let parsed = match version {
            Some(t) => match parse_version(&t) {
                Some(v) => Some(v),
                None => {
                    return Err(Error::VersionParse);
                },
            },
            None => None,
        };
        Ok(SourceSpec { version: parsed, rev, branch, path })
    }
}

} // verus!
