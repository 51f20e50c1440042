use toolup::model::{Dep, DepFields, Row, SourceSpec};
use toolup::rewrite::rewrite_group;

fn bv(s: &str) -> Vec<u8> {
    s.as_bytes().to_vec()
}

fn names(list: &[&str]) -> Vec<Vec<u8>> {
    list.iter().map(|s| bv(s)).collect()
}

fn bare(key: &str, version: &str) -> Row {
    Row { key: bv(key), dep: Dep::Bare(bv(version)) }
}

fn keep(key: &str) -> Row {
    Row { key: bv(key), dep: Dep::Keep }
}

fn version_spec(text: &str) -> SourceSpec {
    SourceSpec::new(Some(bv(text)), None, None, None).unwrap()
}

fn rev_spec(rev: &str) -> SourceSpec {
    SourceSpec::new(None, Some(bv(rev)), None, None).unwrap()
}

fn dep_eq(a: &Dep, b: &Dep) -> bool {
    match (a, b) {
        (Dep::Bare(x), Dep::Bare(y)) => x == y,
        (Dep::Keep, Dep::Keep) => true,
        (Dep::Fields(x), Dep::Fields(y)) => {
            x.version == y.version && x.features == y.features && x.git == y.git
                && x.branch == y.branch && x.rev == y.rev && x.path == y.path
        },
        _ => false,
    }
}

fn table_eq(a: &Vec<Row>, b: &Vec<Row>) -> bool {
    a.len() == b.len() && a.iter().zip(b.iter()).all(|(x, y)| x.key == y.key && dep_eq(
        &x.dep,
        &y.dep,
    ))
}

#[test]
fn test_rewrite_sets_requested_version() {
    let table = vec![bare("cairo-lang-compiler", "1.0.0")];
    let owned = names(&["cairo-lang-compiler"]);
    let out = rewrite_group(table, &owned, &version_spec("2.6.3"));
    assert_eq!(out.len(), 1);
    assert_eq!(out[0].key, bv("cairo-lang-compiler"));
    assert!(dep_eq(&out[0].dep, &Dep::Bare(bv("2.6.3"))));
}

#[test]
fn test_rewrite_wildcard_without_version() {
    let table = vec![bare("cairo-lang-compiler", "1.0.0")];
    let owned = names(&["cairo-lang-compiler"]);
    let out = rewrite_group(table, &owned, &rev_spec("abcd123"));
    assert_eq!(out.len(), 1);
    assert!(dep_eq(&out[0].dep, &Dep::Bare(bv("*"))));
}

#[test]
fn test_rewrite_preserves_features() {
    let table = vec![Row {
        key: bv("cairo-lang-compiler"),
        dep: Dep::Fields(DepFields {
            version: Some(bv("1.0.0")),
            features: Some(vec![bv("serde"), bv("testing")]),
            git: None,
            branch: None,
            rev: None,
            path: None,
        }),
    }];
    let owned = names(&["cairo-lang-compiler"]);
    let out = rewrite_group(table, &owned, &version_spec("2.0.0"));
    assert_eq!(out.len(), 1);
    match &out[0].dep {
        Dep::Fields(f) => {
            assert_eq!(f.version, Some(bv("2.0.0")));
            assert_eq!(f.features, Some(vec![bv("serde"), bv("testing")]));
            assert_eq!(f.git, None);
            assert_eq!(f.branch, None);
            assert_eq!(f.rev, None);
            assert_eq!(f.path, None);
        },
        _ => panic!("expected a table with features"),
    }
}

#[test]
fn test_rewrite_leaves_foreign_entries() {
    let table = vec![keep("serde"), bare("cairo-lang-compiler", "1.0.0"), keep("anyhow")];
    let owned = names(&["cairo-lang-compiler"]);
    let out = rewrite_group(table, &owned, &version_spec("2.0.0"));
    assert_eq!(out.len(), 3);
    // sorted by key: anyhow, cairo-lang-compiler, serde
    assert_eq!(out[0].key, bv("anyhow"));
    assert!(dep_eq(&out[0].dep, &Dep::Keep));
    assert_eq!(out[1].key, bv("cairo-lang-compiler"));
    assert!(dep_eq(&out[1].dep, &Dep::Bare(bv("2.0.0"))));
    assert_eq!(out[2].key, bv("serde"));
    assert!(dep_eq(&out[2].dep, &Dep::Keep));
}

#[test]
fn test_rewrite_is_idempotent_on_values() {
    let table = vec![keep("serde"), bare("cairo-lang-compiler", "1.0.0"), Row {
        key: bv("cairo-lang-utils"),
        dep: Dep::Fields(DepFields {
            version: Some(bv("1.0.0")),
            features: Some(vec![bv("schemars")]),
            git: None,
            branch: None,
            rev: None,
            path: None,
        }),
    }];
    let owned = names(&["cairo-lang-compiler", "cairo-lang-utils"]);
    let spec = version_spec("2.6.3");
    let once = rewrite_group(table, &owned, &spec);
    let copy: Vec<Row> = once
        .iter()
        .map(|r| Row {
            key: r.key.clone(),
            dep: match &r.dep {
                Dep::Bare(v) => Dep::Bare(v.clone()),
                Dep::Keep => Dep::Keep,
                Dep::Fields(f) => Dep::Fields(DepFields {
                    version: f.version.clone(),
                    features: f.features.clone(),
                    git: f.git.clone(),
                    branch: f.branch.clone(),
                    rev: f.rev.clone(),
                    path: f.path.clone(),
                }),
            },
        })
        .collect();
    let twice = rewrite_group(copy, &owned, &spec);
    assert!(table_eq(&once, &twice));
}
