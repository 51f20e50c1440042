//! Maintaining the patch table: clearing and repopulating the entries for
//! a group's crates, and pruning entries the resolver reports as unused.

use vstd::prelude::*;

verus! {

use vstd::relations::sorted_by;
use vstd::string::StringSliceAdditionalSpecFns;
use vstd::string::StrSliceExecFns;
use crate::bytes::{append_bytes, copy_bytes, key_le};
use crate::model::{
    dep_of, has_key, idx_of, keys_of, lemma_has_key_keys, lemma_unique_key_index, names_v, tv,
    unique_keys, contains_name, Dep, DepFields, DepV, FieldsV, Row, RowV, SourceSpec, SourceSpecV,
};
use crate::sort::sort_rows;

/// Joining a path with one further component, in the conventional way:
/// a single separator between the two.
pub open spec fn join_path(p: Seq<u8>, child: Seq<u8>) -> Seq<u8> {
    if p.len() == 0 {
        child
    } else if p.last() == 47u8 {
        p + child
    } else {
        p + seq![47u8] + child
    }
}

/// Joins a path and a component.
pub fn join_path_exec(p: &Vec<u8>, child: &Vec<u8>) -> (r: Vec<u8>)
    ensures
        r@ == join_path(p@, child@),
{
    let mut r = copy_bytes(p);
    if r.len() > 0 {
        if r[r.len() - 1] != 47 {
            r.push(47);
        }
    }
    append_bytes(&mut r, child);
    proof {
        assert(r@ =~= join_path(p@, child@));
    }
    r
}

/// The path a local override points at: `<root>/crates/<crate-name>`.
pub open spec fn override_path(root: Seq<u8>, name: Seq<u8>) -> Seq<u8> {
    join_path(join_path(root, "crates".spec_bytes()), name)
}

/// The override entry inserted for one owned crate: the repository URL
/// when a revision or branch is requested, the revision or branch itself,
/// and the conventional subpath when a local root is given.
pub open spec fn patch_entry(name: Seq<u8>, src: SourceSpecV, repo: Seq<u8>) -> DepV {
    DepV::Fields(
        FieldsV {
            version: None,
            features: None,
            git: if src.rev is Some || src.branch is Some {
                Some(repo)
            } else {
                None
            },
            branch: src.branch,
            rev: src.rev,
            path: match src.path {
                Some(root) => Some(override_path(root, name)),
                None => None,
            },
        },
    )
}

/// The rows that remain when every entry keyed by one of `names` is
/// removed; the remaining rows keep their relative order.
pub open spec fn retain_rows(rs: Seq<RowV>, names: Seq<Seq<u8>>) -> Seq<RowV>
    decreases rs.len(),
{
    if rs.len() == 0 {
        Seq::empty()
    } else if names.contains(rs[0].key) {
        retain_rows(rs.drop_first(), names)
    } else {
        seq![rs[0]] + retain_rows(rs.drop_first(), names)
    }
}

/// Removes every entry keyed by one of `names`, keeping the rest in order.
pub fn remove_keys(rows: Vec<Row>, names: &Vec<Vec<u8>>) -> (r: Vec<Row>)
    requires
        unique_keys(tv(rows@)),
    ensures
        tv(r@) == retain_rows(tv(rows@), names_v(names@)),
        unique_keys(tv(r@)),
        forall|k: Seq<u8>| #[trigger]
            has_key(tv(r@), k) == (has_key(tv(rows@), k) && !names_v(names@).contains(k)),
        forall|k: Seq<u8>|
            #[trigger] has_key(tv(r@), k) ==> dep_of(tv(r@), k) == dep_of(tv(rows@), k),
{
    let ghost input = tv(rows@);
    let ghost names_s = names_v(names@);
    let ghost mut done: int = 0;
    let mut rest = rows;
    let mut out: Vec<Row> = Vec::new();
    proof {
        assert(tv(rest@) =~= input.skip(0));
    }
    while rest.len() > 0
        invariant
            names_s == names_v(names@),
            input == tv(rows@),
            unique_keys(input),
            0 <= done <= input.len(),
            tv(rest@) == input.skip(done),
            retain_rows(input, names_s) == tv(out@) + retain_rows(tv(rest@), names_s),
            unique_keys(tv(out@)),
            forall|j: int|
                0 <= j < tv(out@).len() ==> !names_s.contains(#[trigger] tv(out@)[j].key),
            forall|j: int|
                0 <= j < tv(out@).len() ==> exists|i: int|
                    0 <= i < done && #[trigger] tv(out@)[j] == input[i],
            forall|i: int|
                0 <= i < done && !names_s.contains(#[trigger] input[i].key) ==> has_key(
                    tv(out@),
                    input[i].key,
                ),
        decreases rest@.len(),
    {
        let ghost rv = rest@;
        let ghost rest_old = tv(rest@);
        let ghost ov = tv(out@);
        let x = rest.remove(0);
        proof {
            assert(rest_old.len() == rv.len());
            assert(input.skip(done).len() == input.len() - done);
            assert(x == rv[0]);
            assert(rest_old[0] == rv[0]@);
            assert(rest_old[0] == input.skip(done)[0]);
            assert(x@ == input[done]);
            assert(tv(rest@) =~= rest_old.drop_first());
            assert(rest_old.drop_first() =~= input.skip(done + 1));
        }
        let listed = contains_name(names, &x.key);
        proof {
            assert(listed == names_s.contains(input[done].key));
        }
        if !listed {
            out.push(x);
            proof {
                assert(out@[ov.len() as int] == x);
                assert(tv(out@) =~= ov.push(x@));
                assert(retain_rows(rest_old, names_s) == seq![rest_old[0]] + retain_rows(
                    rest_old.drop_first(),
                    names_s,
                ));
                assert(tv(out@) + retain_rows(tv(rest@), names_s) =~= ov + retain_rows(
                    rest_old,
                    names_s,
                ));
                // every row of `out` still comes from the processed prefix
                assert forall|j: int| 0 <= j < tv(out@).len() implies exists|i: int|
                    0 <= i < done + 1 && #[trigger] tv(out@)[j] == input[i] by {
                    if j < ov.len() {
                        assert(tv(out@)[j] == ov[j]);
                        let i = choose|i: int| 0 <= i < done && #[trigger] ov[j] == input[i];
                        assert(tv(out@)[j] == input[i]);
                    } else {
                        assert(tv(out@)[j] == input[done]);
                    }
                }
                // the new key is fresh, so keys stay duplicate-free
                assert forall|j1: int, j2: int|
                    0 <= j1 < j2 < tv(out@).len() implies keys_of(tv(out@))[j1] != keys_of(
                    tv(out@),
                )[j2] by {
                    assert(keys_of(tv(out@))[j1] == tv(out@)[j1].key);
                    assert(keys_of(tv(out@))[j2] == tv(out@)[j2].key);
                    if j2 < ov.len() {
                        assert(tv(out@)[j1] == ov[j1] && tv(out@)[j2] == ov[j2]);
                        assert(keys_of(ov)[j1] != keys_of(ov)[j2]);
                        assert(keys_of(ov)[j1] == ov[j1].key && keys_of(ov)[j2] == ov[j2].key);
                    } else {
                        assert(tv(out@)[j1] == ov[j1]);
                        let i = choose|i: int| 0 <= i < done && #[trigger] ov[j1] == input[i];
                        assert(keys_of(input)[i] == input[i].key);
                        assert(keys_of(input)[done] == input[done].key);
                        assert(input[i].key != input[done].key);
                        assert(tv(out@)[j2] == input[done]);
                    }
                }
                // each processed, unlisted key is present
                assert forall|i: int|
                    0 <= i < done + 1 && !names_s.contains(#[trigger] input[i].key) implies has_key(
                    tv(out@),
                    input[i].key,
                ) by {
                    if i < done {
                        assert(has_key(ov, input[i].key));
                        let j = choose|j: int| 0 <= j < ov.len() && ov[j].key == input[i].key;
                        assert(tv(out@)[j] == ov[j]);
                        assert(has_key(tv(out@), input[i].key));
                    } else {
                        assert(tv(out@)[ov.len() as int].key == input[done].key);
                        assert(has_key(tv(out@), input[done].key));
                    }
                }
            }
        } else {
            proof {
                assert(retain_rows(rest_old, names_s) == retain_rows(
                    rest_old.drop_first(),
                    names_s,
                ));
            }
        }
        proof {
            done = done + 1;
        }
    }
    proof {
        assert(tv(rest@).len() == 0);
        assert(done == input.len());
        assert(retain_rows(tv(rest@), names_s) =~= Seq::<RowV>::empty());
        assert(tv(out@) + retain_rows(tv(rest@), names_s) =~= tv(out@));
        assert(tv(out@) == retain_rows(input, names_s));
        assert forall|k: Seq<u8>| #[trigger] has_key(tv(out@), k) == (has_key(input, k)
            && !names_s.contains(k)) by {
            if has_key(tv(out@), k) {
                let j = choose|j: int| 0 <= j < tv(out@).len() && tv(out@)[j].key == k;
                let i = choose|i: int| 0 <= i < done && #[trigger] tv(out@)[j] == input[i];
                assert(input[i].key == k);
                assert(has_key(input, k));
            }
            if has_key(input, k) && !names_s.contains(k) {
                let i = choose|i: int| 0 <= i < input.len() && input[i].key == k;
                assert(has_key(tv(out@), input[i].key));
            }
        }
        assert forall|k: Seq<u8>| #[trigger] has_key(tv(out@), k) implies dep_of(tv(out@), k)
            == dep_of(input, k) by {
            let j = idx_of(tv(out@), k);
            assert(0 <= j < tv(out@).len() && tv(out@)[j].key == k);
            let i = choose|i: int| 0 <= i < done && #[trigger] tv(out@)[j] == input[i];
            lemma_unique_key_index(input, i);
            lemma_unique_key_index(tv(out@), j);
        }
    }
    out
}

/// What `apply_patch_overrides` promises: the group's old entries are
/// cleared; when the source is more than a registry version, one override
/// per owned crate is inserted, whether or not the project depends on it;
/// every other entry is kept unchanged; the table is re-sorted by key.
pub open spec fn patch_post(
    input: Seq<RowV>,
    owned: Seq<Seq<u8>>,
    src: SourceSpecV,
    repo: Seq<u8>,
    out: Seq<RowV>,
) -> bool {
    &&& sorted_by(keys_of(out), key_le())
    &&& unique_keys(out)
    &&& forall|k: Seq<u8>| #[trigger]
        has_key(out, k) == ((has_key(input, k) && !owned.contains(k)) || (src.is_override()
            && owned.contains(k)))
    &&& forall|i: int|
        0 <= i < out.len() ==> #[trigger] out[i].dep == (if owned.contains(out[i].key) {
            patch_entry(out[i].key, src, repo)
        } else {
            dep_of(input, out[i].key)
        })
}

/// Clears the group's entries from the patch table and, unless the source
/// is a plain registry version, inserts one override per owned crate.
pub fn apply_patch_overrides(
    rows: Vec<Row>,
    owned: &Vec<Vec<u8>>,
    src: &SourceSpec,
    repo: &Vec<u8>,
) -> (r: Vec<Row>)
    requires
        unique_keys(tv(rows@)),
        names_v(owned@).no_duplicates(),
    ensures
        patch_post(tv(rows@), names_v(owned@), src@, repo@, tv(r@)),
{
    let ghost input = tv(rows@);
    let ghost owned_s = names_v(owned@);
    let mut table = remove_keys(rows, owned);
    let ghost kept = tv(table@);
    let is_override = src.rev.is_some() || src.branch.is_some() || src.path.is_some();
    if is_override {
        let mut i: usize = 0;
        while i < owned.len()
            invariant
                i <= owned@.len(),
                owned_s == names_v(owned@),
                tv(table@).len() == kept.len() + i,
                forall|j: int| 0 <= j < kept.len() ==> #[trigger] tv(table@)[j] == kept[j],
                forall|j: int|
                    kept.len() <= j < tv(table@).len() ==> #[trigger] tv(table@)[j].key
                        == owned_s[j - kept.len()],
                forall|j: int|
                    kept.len() <= j < tv(table@).len() ==> #[trigger] tv(table@)[j].dep
                        == patch_entry(owned_s[j - kept.len()], src@, repo@),
            decreases owned@.len() - i,
        {
            let ghost old_t = tv(table@);
            let name = &owned[i];
            let git: Option<Vec<u8>> = if src.rev.is_some() || src.branch.is_some() {
                Some(copy_bytes(repo))
            } else {
                None
            };
            let branch: Option<Vec<u8>> = match &src.branch {
                Some(b) => Some(copy_bytes(b)),
                None => None,
            };
            let rev: Option<Vec<u8>> = match &src.rev {
                Some(v) => Some(copy_bytes(v)),
                None => None,
            };
            let path: Option<Vec<u8>> = match &src.path {
                Some(root) => {
                    let crates_dir = "crates".as_bytes_vec();
                    let base = join_path_exec(root, &crates_dir);
                    Some(join_path_exec(&base, name))
                },
                None => None,
            };
            let key = copy_bytes(name);
            let dep = Dep::Fields(DepFields { version: None, features: None, git, branch, rev, path });
            proof {
                assert(name@ == owned@[i as int]@);
                assert(names_v(owned@)[i as int] == owned@[i as int]@);
                assert(dep@ =~= patch_entry(owned_s[i as int], src@, repo@));
            }
            table.push(Row { key, dep });
            proof {
                assert(table@[old_t.len() as int] == Row { key, dep });
                assert(tv(table@)[old_t.len() as int].key == owned_s[i as int]);
                assert(tv(table@)[old_t.len() as int].dep == patch_entry(
                    owned_s[i as int],
                    src@,
                    repo@,
                ));
                assert forall|j: int| 0 <= j < old_t.len() implies #[trigger] tv(table@)[j]
                    == old_t[j] by {
                    assert(table@[j] == table@.drop_last()[j]);
                }
            }
            i += 1;
        }
    }
    let ghost t = tv(table@);
    proof {
        // the combined table still names each key once
        assert forall|j1: int, j2: int| 0 <= j1 < j2 < t.len() implies keys_of(t)[j1] != keys_of(
            t,
        )[j2] by {
            assert(keys_of(t)[j1] == t[j1].key);
            assert(keys_of(t)[j2] == t[j2].key);
            if j2 < kept.len() {
                assert(t[j1] == kept[j1] && t[j2] == kept[j2]);
                assert(keys_of(kept)[j1] == kept[j1].key && keys_of(kept)[j2] == kept[j2].key);
            } else if j1 < kept.len() {
                assert(t[j1] == kept[j1]);
                assert(has_key(kept, kept[j1].key));
                assert(!owned_s.contains(kept[j1].key));
                assert(owned_s.contains(t[j2].key));
            } else {
                assert(t[j1].key == owned_s[j1 - kept.len()]);
                assert(t[j2].key == owned_s[j2 - kept.len()]);
            }
        }
        assert(unique_keys(t));
    }
    let sorted = sort_rows(table);
    proof {
        broadcast use vstd::seq_lib::group_to_multiset_ensures;
        broadcast use vstd::multiset::group_multiset_axioms;

        let s = tv(sorted@);
        keys_of(t).lemma_multiset_has_no_duplicates();
        assert forall|x: Seq<u8>| keys_of(s).to_multiset().contains(x) implies keys_of(
            s,
        ).to_multiset().count(x) == 1 by {
            assert(keys_of(t).to_multiset().contains(x));
        }
        keys_of(s).lemma_multiset_has_no_duplicates_conv();
        assert(unique_keys(s));
        assert forall|k: Seq<u8>| #[trigger] has_key(s, k) == ((has_key(input, k)
            && !owned_s.contains(k)) || (src@.is_override() && owned_s.contains(k))) by {
            lemma_has_key_keys(s, k);
            lemma_has_key_keys(t, k);
            assert(keys_of(s).contains(k) == (keys_of(s).to_multiset().count(k) > 0));
            assert(keys_of(t).contains(k) == (keys_of(t).to_multiset().count(k) > 0));
            if has_key(t, k) {
                let j = choose|j: int| 0 <= j < t.len() && t[j].key == k;
                if j < kept.len() {
                    assert(t[j] == kept[j]);
                    assert(has_key(kept, k));
                } else {
                    assert(owned_s.contains(k)) by {
                        assert(t[j].key == owned_s[j - kept.len()]);
                    }
                    assert(src@.is_override());
                }
            }
            if has_key(input, k) && !owned_s.contains(k) {
                assert(has_key(kept, k));
                let j = choose|j: int| 0 <= j < kept.len() && kept[j].key == k;
                assert(t[j] == kept[j]);
                assert(has_key(t, k));
            }
            if src@.is_override() && owned_s.contains(k) {
                let x = choose|x: int| 0 <= x < owned_s.len() && owned_s[x] == k;
                assert(t[kept.len() + x].key == k);
                assert(has_key(t, k));
            }
        }
        assert forall|i: int| 0 <= i < s.len() implies #[trigger] s[i].dep == (
        if owned_s.contains(s[i].key) {
            patch_entry(s[i].key, src@, repo@)
        } else {
            dep_of(input, s[i].key)
        }) by {
            assert(s.contains(s[i]));
            assert(s.to_multiset().count(s[i]) > 0);
            assert(t.to_multiset().count(s[i]) > 0);
            assert(t.contains(s[i]));
            let j = choose|j: int| 0 <= j < t.len() && t[j] == s[i];
            if j < kept.len() {
                assert(t[j] == kept[j]);
                let k = kept[j].key;
                assert(has_key(kept, k));
                assert(!owned_s.contains(k));
                lemma_unique_key_index(kept, j);
                assert(s[i].dep == dep_of(kept, k));
                assert(dep_of(kept, k) == dep_of(input, k));
            } else {
                assert(t[j].key == owned_s[j - kept.len()]);
                assert(owned_s.contains(s[i].key));
                assert(t[j].dep == patch_entry(owned_s[j - kept.len()], src@, repo@));
            }
        }
    }
    sorted
}

/// Removes from the patch table exactly the entries named by the lock
/// document's unused-patch record; a lock document without the record
/// leaves the table unchanged, since nothing was ever patched.
pub fn prune_unused_patches(rows: Vec<Row>, unused: &Option<Vec<Vec<u8>>>) -> (r: Vec<Row>)
    requires
        unique_keys(tv(rows@)),
    ensures
        match *unused {
            None => tv(r@) == tv(rows@),
            Some(u) => {
                &&& tv(r@) == retain_rows(tv(rows@), names_v(u@))
                &&& unique_keys(tv(r@))
                &&& forall|k: Seq<u8>| #[trigger]
                    has_key(tv(r@), k) == (has_key(tv(rows@), k) && !names_v(u@).contains(k))
                &&& forall|k: Seq<u8>|
                    #[trigger] has_key(tv(r@), k) ==> dep_of(tv(r@), k) == dep_of(tv(rows@), k)
            },
        },
{
    match unused {
        None => rows,
        Some(u) => remove_keys(rows, u),
    }
}

/// With a plain version-only source, the group's crates end up with no
/// patch entries at all: the version constraint alone suffices.
pub proof fn lemma_version_only_no_patches(
    input: Seq<RowV>,
    owned: Seq<Seq<u8>>,
    src: SourceSpecV,
    repo: Seq<u8>,
    out: Seq<RowV>,
    k: Seq<u8>,
)
    requires
        patch_post(input, owned, src, repo, out),
        !src.is_override(),
        owned.contains(k),
    ensures
        !has_key(out, k),
{
}

/// With a revision requested, every owned crate gets exactly one entry
/// carrying the repository URL and the revision, and no branch or path.
pub proof fn lemma_revision_patches(
    input: Seq<RowV>,
    owned: Seq<Seq<u8>>,
    src: SourceSpecV,
    repo: Seq<u8>,
    out: Seq<RowV>,
    k: Seq<u8>,
)
    requires
        patch_post(input, owned, src, repo, out),
        src.rev is Some,
        src.branch is None,
        src.path is None,
        owned.contains(k),
    ensures
        has_key(out, k),
        dep_of(out, k) == DepV::Fields(
            FieldsV {
                version: None,
                features: None,
                git: Some(repo),
                branch: None,
                rev: src.rev,
                path: None,
            },
        ),
{
    assert(src.is_override());
    assert(has_key(out, k));
    let i = idx_of(out, k);
    assert(0 <= i < out.len() && out[i].key == k);
    assert(out[i].dep == patch_entry(k, src, repo));
    lemma_unique_key_index(out, i);
}

/// An entry whose key the group does not own is never modified by the
/// patch rewrite: it is present afterwards exactly as the input held it.
pub proof fn lemma_patch_foreign_unchanged(
    input: Seq<RowV>,
    owned: Seq<Seq<u8>>,
    src: SourceSpecV,
    repo: Seq<u8>,
    out: Seq<RowV>,
    k: Seq<u8>,
)
    requires
        patch_post(input, owned, src, repo, out),
        has_key(input, k),
        !owned.contains(k),
    ensures
        has_key(out, k),
        dep_of(out, k) == dep_of(input, k),
{
    assert(has_key(out, k));
    let i = idx_of(out, k);
    assert(0 <= i < out.len() && out[i].key == k);
    assert(out[i].dep == dep_of(input, k));
}

} // verus!
