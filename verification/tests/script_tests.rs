use toolup::model::{Error, SourceSpec};
use toolup::script::{
    release_crate_names, release_ref, release_script_url, tool_repo, tool_static_crates, Tool,
};

fn bv(s: &str) -> Vec<u8> {
    s.as_bytes().to_vec()
}

const SAMPLE_SCRIPT: &str = "#!/bin/env bash\n\
    set -e\n\
    CRATES_TO_PUBLISH=(\n\
        cairo-lang-utils\n\
        cairo-lang-compiler\n\
        cairo-lang-parser\n\
        cairo-test\n\
        some-other-tool\n\
    )\n\
    for crate in \"${CRATES_TO_PUBLISH[@]}\"; do\n\
        echo \"$crate\"\n\
    done\n";

#[test]
fn test_pull_cairo_packages_from_cairo_repository() {
    let list = release_crate_names(&bv(SAMPLE_SCRIPT)).unwrap();
    assert!(!list.is_empty());
    assert!(list.contains(&bv("cairo-lang-compiler")));
    assert!(!list.contains(&bv("cairo-test")));
    assert!(list.is_sorted());
}

#[test]
fn test_release_crate_names_sorted_and_filtered() {
    let list = release_crate_names(&bv(SAMPLE_SCRIPT)).unwrap();
    assert_eq!(
        list,
        vec![bv("cairo-lang-compiler"), bv("cairo-lang-parser"), bv("cairo-lang-utils")]
    );
}

#[test]
fn test_release_crate_names_missing_start() {
    let r = release_crate_names(&bv("#!/bin/env bash\necho nothing here\n"));
    assert_eq!(r.unwrap_err(), Error::MissingListStart);
}

#[test]
fn test_release_crate_names_missing_end() {
    let r = release_crate_names(&bv("CRATES_TO_PUBLISH=(\ncairo-lang-utils\n"));
    assert_eq!(r.unwrap_err(), Error::MissingListEnd);
}

#[test]
fn test_release_ref_forms() {
    let by_version = SourceSpec::new(Some(bv("2.6.3")), None, None, None).unwrap();
    assert_eq!(release_ref(&by_version), bv("refs/tags/v2.6.3"));

    let by_rev = SourceSpec::new(None, Some(bv("abcd123")), None, None).unwrap();
    assert_eq!(release_ref(&by_rev), bv("abcd123"));

    let by_branch = SourceSpec::new(None, None, Some(bv("dev-next")), None).unwrap();
    assert_eq!(release_ref(&by_branch), bv("refs/heads/dev-next"));

    let by_path = SourceSpec::new(None, None, None, Some(bv("/work/cairo"))).unwrap();
    assert_eq!(release_ref(&by_path), bv("refs/heads/main"));
}

#[test]
fn test_release_script_url_template() {
    let url = release_script_url(&bv("refs/heads/main"));
    assert_eq!(
        url,
        bv("https://raw.githubusercontent.com/starkware-libs/cairo/refs/heads/main/scripts/release_crates.sh")
    );
}

#[test]
fn test_tool_repositories() {
    assert_eq!(tool_repo(Tool::Cairo), bv("https://github.com/starkware-libs/cairo"));
    assert_eq!(tool_repo(Tool::CairoLs), bv("https://github.com/software-mansion/cairols"));
    assert_eq!(tool_repo(Tool::CairoLint), bv("https://github.com/software-mansion/cairo-lint"));
}

#[test]
fn test_tool_static_crate_sets() {
    assert!(tool_static_crates(Tool::Cairo).is_none());
    assert_eq!(tool_static_crates(Tool::CairoLs).unwrap(), vec![bv("cairo-language-server")]);
    assert_eq!(tool_static_crates(Tool::CairoLint).unwrap(), vec![bv("cairo-lint-core")]);
}

#[test]
fn test_source_spec_validation() {
    let conflict = SourceSpec::new(None, Some(bv("abc")), Some(bv("main")), None);
    assert_eq!(conflict.unwrap_err(), Error::ConflictingSources);

    let path_conflict = SourceSpec::new(None, Some(bv("abc")), None, Some(bv("/w")));
    assert_eq!(path_conflict.unwrap_err(), Error::ConflictingSources);

    let empty = SourceSpec::new(None, None, None, None);
    assert_eq!(empty.unwrap_err(), Error::NoSourceGiven);

    let bad_version = SourceSpec::new(Some(bv("1.0")), None, None, None);
    assert_eq!(bad_version.unwrap_err(), Error::VersionParse);

    let ok = SourceSpec::new(Some(bv("1.2.3")), Some(bv("abc")), None, None).unwrap();
    assert_eq!(ok.rev, Some(bv("abc")));
    assert_eq!(ok.branch, None);
    assert_eq!(ok.path, None);
    let v = ok.version.unwrap();
    assert_eq!(v.core, bv("1.2.3"));
}
