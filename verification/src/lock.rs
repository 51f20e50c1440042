//! Reading the lock document: version resolution and the synchronisation
//! of the project's own version with the anchor toolchain crate.

use vstd::prelude::*;

verus! {

use vstd::string::StringSliceAdditionalSpecFns;
use vstd::string::StrSliceExecFns;
use crate::bytes::{copy_bytes, eq_bytes};
use crate::model::{ov, Error};
use crate::version::{
    check_build, parse_version, render, render_version, semver_parse, valid_build, Version,
    VersionV,
};

/// One package record of the lock document: its name and version text.
#[derive(Debug)]
pub struct LockPackage {
    pub name: Vec<u8>,
    pub version: Vec<u8>,
}

#[verifier::ext_equal]
pub struct LockPackageV {
    pub name: Seq<u8>,
    pub version: Seq<u8>,
}

impl View for LockPackage {
    type V = LockPackageV;

    open spec fn view(&self) -> LockPackageV {
        LockPackageV { name: self.name@, version: self.version@ }
    }
}

/// The lock document as the tool reads it: the package records, and the
/// names from the unused-patch records when that structure is present.
#[derive(Debug)]
pub struct LockModel {
    pub packages: Vec<LockPackage>,
    pub unused_patches: Option<Vec<Vec<u8>>>,
}

pub open spec fn pv(pkgs: Seq<LockPackage>) -> Seq<LockPackageV> {
    pkgs.map_values(|p: LockPackage| p@)
}

/// How many package records carry the given name.
pub open spec fn matches_count(pkgs: Seq<LockPackageV>, name: Seq<u8>) -> int
    decreases pkgs.len(),
{
    if pkgs.len() == 0 {
        0
    } else {
        (if pkgs[0].name == name {
            1int
        } else {
            0int
        }) + matches_count(pkgs.drop_first(), name)
    }
}

/// The version text of the first package record carrying the given name.
pub open spec fn first_match(pkgs: Seq<LockPackageV>, name: Seq<u8>) -> Seq<u8>
    decreases pkgs.len(),
{
    if pkgs.len() == 0 {
        Seq::empty()
    } else if pkgs[0].name == name {
        pkgs[0].version
    } else {
        first_match(pkgs.drop_first(), name)
    }
}

/// Resolves the authoritative version of `name` from the lock document.
/// It succeeds only when exactly one record matches — an absent or
/// ambiguous entry is an error, never a guess — and the matched version
/// text is a well-formed semantic version.
pub fn resolve_version(lock: &LockModel, name: &Vec<u8>) -> (r: Result<Version, Error>)
    ensures
        ({
            let pkgs = pv(lock.packages@);
            let cnt = matches_count(pkgs, name@);
            let first = first_match(pkgs, name@);
            match r {
                Ok(v) => cnt == 1 && semver_parse(first) == Some(v@),
                Err(e) => {
                    &&& cnt != 1 || semver_parse(first) is None
                    &&& e == (if cnt != 1 {
                        Error::LockResolution
                    } else {
                        Error::VersionParse
                    })
                },
            }
        }),
{
    let ghost pkgs = pv(lock.packages@);
    let mut count: usize = 0;
    let mut found: usize = 0;
    let mut i: usize = 0;
    proof {
        assert(pkgs.skip(0) =~= pkgs);
    }
    while i < lock.packages.len()
        invariant
            pkgs == pv(lock.packages@),
            i <= lock.packages@.len(),
            count <= i,
            matches_count(pkgs, name@) == count + matches_count(pkgs.skip(i as int), name@),
            count == 0 ==> first_match(pkgs, name@) == first_match(pkgs.skip(i as int), name@),
            count > 0 ==> found < i && pkgs[found as int].name == name@ && first_match(pkgs, name@)
                == pkgs[found as int].version,
        decreases lock.packages@.len() - i,
    {
        proof {
            assert(pkgs.skip(i as int)[0] == pkgs[i as int]);
            assert(pkgs[i as int] == lock.packages@[i as int]@);
            assert(pkgs.skip(i as int).drop_first() =~= pkgs.skip(i + 1));
        }
        if eq_bytes(&lock.packages[i].name, name) {
            if count == 0 {
                found = i;
            }
            count += 1;
        }
        i += 1;
    }
    proof {
        assert(pkgs.skip(i as int).len() == 0);
        assert(matches_count(pkgs.skip(i as int), name@) == 0);
        assert(first_match(pkgs.skip(i as int), name@) == Seq::<u8>::empty());
    }
    if count != 1 {
        return Err(Error::LockResolution);
    }
    match parse_version(&lock.packages[found].version) {
        Some(v) => Ok(v),
        None => Err(Error::VersionParse),
    }
}

/// The name of the anchor crate whose lock entry fixes the version the
/// project itself is expected to carry.
pub open spec fn anchor_name() -> Seq<u8> {
    "cairo-lang-compiler".spec_bytes()
}

/// Gets the version of the anchor toolchain crate from the lock document,
/// which is the version expected of the project itself.
pub fn expected_version(lock: &LockModel) -> (r: Result<Version, Error>)
    ensures
        ({
            let pkgs = pv(lock.packages@);
            let cnt = matches_count(pkgs, anchor_name());
            let first = first_match(pkgs, anchor_name());
            match r {
                Ok(v) => cnt == 1 && semver_parse(first) == Some(v@),
                Err(e) => {
                    &&& cnt != 1 || semver_parse(first) is None
                    &&& e == (if cnt != 1 {
                        Error::LockResolution
                    } else {
                        Error::VersionParse
                    })
                },
            }
        }),
{
    let name = "cairo-lang-compiler".as_bytes_vec();
    resolve_version(lock, &name)
}

/// The optional adjustments of the version-synchronisation operation.
#[derive(Debug)]
pub struct SyncOverrides {
    pub build: Option<Vec<u8>>,
    pub no_pre_release: bool,
}

/// A version after the synchronisation adjustments: the build metadata
/// replaced when one is supplied, the pre-release identifier cleared when
/// asked.
pub open spec fn synced(v: VersionV, build: Option<Seq<u8>>, no_pre: bool) -> VersionV {
    VersionV {
        core: v.core,
        pre: if no_pre {
            Seq::empty()
        } else {
            v.pre
        },
        build: match build {
            Some(b) => b,
            None => v.build,
        },
    }
}

/// The version text the project is to carry: the anchor crate's resolved
/// version with the requested adjustments applied.
pub fn synced_version(lock: &LockModel, overrides: &SyncOverrides) -> (r: Result<Vec<u8>, Error>)
    ensures
        ({
            let pkgs = pv(lock.packages@);
            let cnt = matches_count(pkgs, anchor_name());
            let first = first_match(pkgs, anchor_name());
            let bad_build = match overrides.build {
                Some(b) => !valid_build(b@),
                None => false,
            };
            match r {
                Ok(text) => {
                    &&& cnt == 1
                    &&& semver_parse(first) is Some
                    &&& !bad_build
                    &&& text@ == render(
                        synced(
                            semver_parse(first).unwrap(),
                            ov(overrides.build),
                            overrides.no_pre_release,
                        ),
                    )
                },
                Err(e) => {
                    &&& cnt != 1 || semver_parse(first) is None || bad_build
                    &&& e == (if cnt != 1 {
                        Error::LockResolution
                    } else if semver_parse(first) is None {
                        Error::VersionParse
                    } else {
                        Error::BuildMetadataParse
                    })
                },
            }
        }),
{
    let mut v = match expected_version(lock) {
        Ok(v) => v,
        Err(e) => {
            return Err(e);
        },
    };
    match &overrides.build {
        Some(b) => {
            if !check_build(b) {
                return Err(Error::BuildMetadataParse);
            }
            v.build = copy_bytes(b);
        },
        None => {},
    }
    if overrides.no_pre_release {
        v.pre = Vec::new();
    }
    Ok(render_version(&v))
}

/// The table that receives the project's version: the workspace-level
/// package table when one exists, else the package-level one; neither
/// existing is a malformed project layout.
#[derive(Clone, Copy, PartialEq, Eq, Structural, Debug)]
pub enum VersionTarget {
    WorkspacePackage,
    Package,
}

/// Picks the table the synchronised version is written into.
pub fn version_target(has_workspace_package: bool, has_package: bool) -> (r: Result<
    VersionTarget,
    Error,
>)
    ensures
        has_workspace_package ==> r == Ok::<VersionTarget, Error>(VersionTarget::WorkspacePackage),
        !has_workspace_package && has_package ==> r == Ok::<VersionTarget, Error>(
            VersionTarget::Package,
        ),
        !has_workspace_package && !has_package ==> r == Err::<VersionTarget, Error>(
            Error::MissingVersionTable,
        ),
{
    if has_workspace_package {
        Ok(VersionTarget::WorkspacePackage)
    } else if has_package {
        Ok(VersionTarget::Package)
    } else {
        Err(Error::MissingVersionTable)
    }
}

} // verus!
