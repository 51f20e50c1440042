use toolup::model::{Dep, DepFields, Row, SourceSpec};
use toolup::patch::{apply_patch_overrides, prune_unused_patches};
use toolup::rewrite::rewrite_group;
use toolup::script::{tool_repo, Tool};

fn bv(s: &str) -> Vec<u8> {
    s.as_bytes().to_vec()
}

fn names(list: &[&str]) -> Vec<Vec<u8>> {
    list.iter().map(|s| bv(s)).collect()
}

fn keep(key: &str) -> Row {
    Row { key: bv(key), dep: Dep::Keep }
}

fn fields_of(dep: &Dep) -> &DepFields {
    match dep {
        Dep::Fields(f) => f,
        _ => panic!("expected a table entry"),
    }
}

#[test]
fn test_version_only_spec_leaves_no_patches() {
    let spec = SourceSpec::new(Some(bv("2.6.3")), None, None, None).unwrap();
    let owned = names(&["cairo-lang-compiler", "cairo-lang-utils"]);
    let repo = tool_repo(Tool::Cairo);
    let table = vec![keep("left-alone"), keep("cairo-lang-compiler")];
    let out = apply_patch_overrides(table, &owned, &spec, &repo);
    assert_eq!(out.len(), 1);
    assert_eq!(out[0].key, bv("left-alone"));
}

#[test]
fn test_revision_spec_patches_every_owned_crate() {
    let spec = SourceSpec::new(None, Some(bv("abcd123")), None, None).unwrap();
    let owned = names(&["cairo-lang-utils", "cairo-lang-compiler"]);
    let repo = tool_repo(Tool::Cairo);
    let out = apply_patch_overrides(Vec::new(), &owned, &spec, &repo);
    assert_eq!(out.len(), 2);
    // sorted by key
    assert_eq!(out[0].key, bv("cairo-lang-compiler"));
    assert_eq!(out[1].key, bv("cairo-lang-utils"));
    for row in &out {
        let f = fields_of(&row.dep);
        assert_eq!(f.git, Some(bv("https://github.com/starkware-libs/cairo")));
        assert_eq!(f.rev, Some(bv("abcd123")));
        assert_eq!(f.branch, None);
        assert_eq!(f.path, None);
        assert_eq!(f.version, None);
        assert_eq!(f.features, None);
    }
}

#[test]
fn test_branch_spec_carries_git_and_branch() {
    let spec = SourceSpec::new(None, None, Some(bv("main")), None).unwrap();
    let owned = names(&["cairo-language-server"]);
    let repo = tool_repo(Tool::CairoLs);
    let out = apply_patch_overrides(Vec::new(), &owned, &spec, &repo);
    assert_eq!(out.len(), 1);
    let f = fields_of(&out[0].dep);
    assert_eq!(f.git, Some(bv("https://github.com/software-mansion/cairols")));
    assert_eq!(f.branch, Some(bv("main")));
    assert_eq!(f.rev, None);
    assert_eq!(f.path, None);
}

#[test]
fn test_path_spec_joins_crate_subpath_without_git() {
    let spec = SourceSpec::new(None, None, None, Some(bv("/work/cairo"))).unwrap();
    let owned = names(&["cairo-lang-utils"]);
    let repo = tool_repo(Tool::Cairo);
    let out = apply_patch_overrides(Vec::new(), &owned, &spec, &repo);
    assert_eq!(out.len(), 1);
    let f = fields_of(&out[0].dep);
    assert_eq!(f.git, None);
    assert_eq!(f.path, Some(bv("/work/cairo/crates/cairo-lang-utils")));
}

#[test]
fn test_patch_leaves_foreign_entries() {
    let spec = SourceSpec::new(None, Some(bv("abcd123")), None, None).unwrap();
    let owned = names(&["cairo-lang-compiler"]);
    let repo = tool_repo(Tool::Cairo);
    let table = vec![keep("serde"), keep("cairo-lang-compiler")];
    let out = apply_patch_overrides(table, &owned, &spec, &repo);
    assert_eq!(out.len(), 2);
    assert_eq!(out[0].key, bv("cairo-lang-compiler"));
    assert_eq!(out[1].key, bv("serde"));
    assert!(matches!(out[1].dep, Dep::Keep));
    assert!(matches!(out[0].dep, Dep::Fields(_)));
}

#[test]
fn test_prune_removes_exactly_listed_keys() {
    let table = vec![keep("alpha"), keep("beta"), keep("gamma")];
    let unused = Some(vec![bv("beta"), bv("not-present")]);
    let out = prune_unused_patches(table, &unused);
    assert_eq!(out.len(), 2);
    assert_eq!(out[0].key, bv("alpha"));
    assert_eq!(out[1].key, bv("gamma"));
}

#[test]
fn test_prune_without_record_is_a_no_op() {
    let table = vec![keep("alpha"), keep("beta")];
    let out = prune_unused_patches(table, &None);
    assert_eq!(out.len(), 2);
    assert_eq!(out[0].key, bv("alpha"));
    assert_eq!(out[1].key, bv("beta"));
}

#[test]
fn test_switch_dependency_to_revision_end_to_end() {
    // a manifest that depends on the compiler at a fixed version, moved
    // to a git revision: the dependency becomes a wildcard and the patch
    // table gains one git override
    let deps = vec![Row { key: bv("cairo-lang-compiler"), dep: Dep::Bare(bv("1.0.0")) }];
    let owned = names(&["cairo-lang-compiler"]);
    let spec = SourceSpec::new(None, Some(bv("abcd123")), None, None).unwrap();
    let repo = tool_repo(Tool::Cairo);

    let new_deps = rewrite_group(deps, &owned, &spec);
    assert_eq!(new_deps.len(), 1);
    assert_eq!(new_deps[0].key, bv("cairo-lang-compiler"));
    assert!(matches!(&new_deps[0].dep, Dep::Bare(v) if v == &bv("*")));

    let patches = apply_patch_overrides(Vec::new(), &owned, &spec, &repo);
    assert_eq!(patches.len(), 1);
    assert_eq!(patches[0].key, bv("cairo-lang-compiler"));
    let f = fields_of(&patches[0].dep);
    assert_eq!(f.git, Some(bv("https://github.com/starkware-libs/cairo")));
    assert_eq!(f.rev, Some(bv("abcd123")));
    assert_eq!(f.branch, None);
    assert_eq!(f.path, None);
}
