//! The version model and the boundary with the `semver` crate.

use vstd::prelude::*;

verus! {

use crate::bytes::{append_bytes, copy_bytes};

/// A semantic version, split as the tool uses it: the numeric core
/// (`major.minor.patch` as text), the pre-release identifier and the
/// build metadata, the latter two empty when absent.
#[derive(Debug)]
pub struct Version {
    pub core: Vec<u8>,
    pub pre: Vec<u8>,
    pub build: Vec<u8>,
}

#[verifier::ext_equal]
pub struct VersionV {
    pub core: Seq<u8>,
    pub pre: Seq<u8>,
    pub build: Seq<u8>,
}

impl View for Version {
    type V = VersionV;

    open spec fn view(&self) -> VersionV {
        VersionV { core: self.core@, pre: self.pre@, build: self.build@ }
    }
}

/// What `semver::Version::parse` yields on a given byte string: `None` on
/// a parse failure, otherwise the three parts of the version.
pub uninterp spec fn semver_parse(s: Seq<u8>) -> Option<VersionV>;

/// Whether `semver::BuildMetadata::new` accepts a given byte string.
pub uninterp spec fn valid_build(s: Seq<u8>) -> bool;

/// Relies on `semver::Version::parse`: splits a version string into its
/// numeric core, pre-release identifier and build metadata, or fails.
/// The outcome depends on the input bytes alone.
#[verifier::external_body]
pub(crate) fn parse_version(s: &Vec<u8>) -> (r: Option<Version>)
    ensures
        r is Some == semver_parse(s@) is Some,
        r matches Some(v) ==> semver_parse(s@) == Some(v@),
{
    let text = match std::str::from_utf8(s.as_slice()) {
        Ok(t) => t,
        Err(_) => return None,
    };
    match semver::Version::parse(text) {
        Ok(v) => Some(Version {
            core: format!("{}.{}.{}", v.major, v.minor, v.patch).into_bytes(),
            pre: v.pre.as_str().as_bytes().to_vec(),
            build: v.build.as_str().as_bytes().to_vec(),
        }),
        Err(_) => None,
    }
}

/// Relies on `semver::BuildMetadata::new`: accepts exactly the well-formed
/// build-metadata strings. The outcome depends on the input bytes alone.
#[verifier::external_body]
pub(crate) fn check_build(s: &Vec<u8>) -> (r: bool)
    ensures
        r == valid_build(s@),
{
    match std::str::from_utf8(s.as_slice()) {
        Ok(t) => semver::BuildMetadata::new(t).is_ok(),
        Err(_) => false,
    }
}

/// The canonical text of a version: the core, then `-` and the pre-release
/// identifier when present, then `+` and the build metadata when present.
pub open spec fn render(v: VersionV) -> Seq<u8> {
    v.core + (if v.pre.len() > 0 {
        seq![45u8] + v.pre
    } else {
        Seq::<u8>::empty()
    }) + (if v.build.len() > 0 {
        seq![43u8] + v.build
    } else {
        Seq::<u8>::empty()
    })
}

/// Writes a version back as text.
pub fn render_version(v: &Version) -> (r: Vec<u8>)
    ensures
        r@ == render(v@),
{
    let mut r = copy_bytes(&v.core);
    if v.pre.len() > 0 {
        r.push(45);
        append_bytes(&mut r, &v.pre);
    }
    if v.build.len() > 0 {
        r.push(43);
        append_bytes(&mut r, &v.build);
    }
    proof {
        assert(r@ =~= render(v@));
    }
    r
}

} // verus!
