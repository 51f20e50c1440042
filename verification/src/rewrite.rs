//! Rewriting a dependency table's entries for the crates a group owns.

use vstd::prelude::*;

verus! {

use vstd::relations::sorted_by;
use vstd::string::StringSliceAdditionalSpecFns;
use vstd::string::StrSliceExecFns;
use crate::bytes::{copy_bytes, key_le};
use crate::model::{
    dep_of, has_key, idx_of, keys_of, lemma_has_key_keys, lemma_unique_key_index, names_v, tv,
    unique_keys, contains_name, Dep, DepFields, DepV, FieldsV, Row, RowV, SourceSpec, SourceSpecV,
};
use crate::sort::sort_rows;
use crate::version::{render, render_version};

/// The feature list of an entry, when it is a table that carries one.
pub open spec fn features_of(d: DepV) -> Option<Seq<Seq<u8>>> {
    match d {
        DepV::Fields(f) => f.features,
        _ => None,
    }
}

/// The version text owned entries are rewritten to: the requested version
/// when one was given, else the wildcard, which a patch-table override is
/// expected to supersede.
pub open spec fn requested_version(src: SourceSpecV) -> Seq<u8> {
    match src.version {
        Some(v) => render(v),
        None => "*".spec_bytes(),
    }
}

/// An owned entry after the rewrite: the requested version in the bare
/// shorthand form, widened to a table only to carry an existing feature
/// list over.
pub open spec fn rewritten_dep(old_dep: DepV, ver: Seq<u8>) -> DepV {
    match features_of(old_dep) {
        None => DepV::Bare(ver),
        Some(f) => DepV::Fields(
            FieldsV {
                version: Some(ver),
                features: Some(f),
                git: None,
                branch: None,
                rev: None,
                path: None,
            },
        ),
    }
}

/// What `rewrite_group` promises: a table with exactly the input's keys,
/// re-sorted; entries of owned crates rewritten, every other entry exactly
/// the one the input held under the same key.
pub open spec fn rewrite_post(
    input: Seq<RowV>,
    owned: Seq<Seq<u8>>,
    ver: Seq<u8>,
    out: Seq<RowV>,
) -> bool {
    &&& sorted_by(keys_of(out), key_le())
    &&& unique_keys(out)
    &&& out.len() == input.len()
    &&& forall|k: Seq<u8>| #[trigger] has_key(out, k) == has_key(input, k)
    &&& forall|i: int|
        0 <= i < out.len() ==> #[trigger] out[i].dep == (if owned.contains(out[i].key) {
            rewritten_dep(dep_of(input, out[i].key), ver)
        } else {
            dep_of(input, out[i].key)
        })
}

/// Rewrites every entry owned by the group to the requested source and
/// re-sorts the table by key.
pub fn rewrite_group(rows: Vec<Row>, owned: &Vec<Vec<u8>>, src: &SourceSpec) -> (r: Vec<Row>)
    requires
        unique_keys(tv(rows@)),
    ensures
        rewrite_post(tv(rows@), names_v(owned@), requested_version(src@), tv(r@)),
{
    let ver: Vec<u8> = match &src.version {
        Some(v) => render_version(v),
        None => "*".as_bytes_vec(),
    };
    let ghost input = tv(rows@);
    let ghost ver_s = requested_version(src@);
    let ghost owned_s = names_v(owned@);
    let mut rest = rows;
    let mut mapped: Vec<Row> = Vec::new();
    proof {
        assert(tv(rest@) =~= input.skip(0));
    }
    while rest.len() > 0
        invariant
            ver@ == ver_s,
            owned_s == names_v(owned@),
            mapped@.len() <= input.len(),
            tv(rest@) == input.skip(mapped@.len() as int),
            forall|i: int|
                0 <= i < mapped@.len() ==> #[trigger] tv(mapped@)[i].key == input[i].key,
            forall|i: int|
                0 <= i < mapped@.len() ==> #[trigger] tv(mapped@)[i].dep == (if owned_s.contains(
                    input[i].key,
                ) {
                    rewritten_dep(input[i].dep, ver_s)
                } else {
                    input[i].dep
                }),
        decreases rest@.len(),
    {
        let ghost rest_old = tv(rest@);
        let ghost rv = rest@;
        let ghost done = mapped@.len() as int;
        let ghost mv = mapped@;
        let x = rest.remove(0);
        proof {
            assert(rest_old.len() == rv.len());
            assert(input.skip(done).len() == input.len() - done);
            assert(x == rv[0]);
            assert(rest_old[0] == rv[0]@);
            assert(rest_old[0] == input.skip(done)[0]);
            assert(x@ == input[done]);
            assert(tv(rest@) =~= rest_old.drop_first());
            assert(rest_old.drop_first() =~= input.skip(done + 1));
        }
        let x_owned = contains_name(owned, &x.key);
        proof {
            assert(x_owned == names_v(owned@).contains(x.key@));
            assert(x.key@ == input[done].key);
            assert(x_owned == owned_s.contains(input[done].key));
        }
        if x_owned {
            let Row { key: xkey, dep: xdep } = x;
            let feats = match xdep {
                Dep::Fields(f) => f.features,
                _ => None,
            };
            let vcopy = copy_bytes(&ver);
            let new_dep = match feats {
                Some(f) => Dep::Fields(
                    DepFields {
                        version: Some(vcopy),
                        features: Some(f),
                        git: None,
                        branch: None,
                        rev: None,
                        path: None,
                    },
                ),
                None => Dep::Bare(vcopy),
            };
            mapped.push(Row { key: xkey, dep: new_dep });
            proof {
                assert(mapped@[done] == Row { key: xkey, dep: new_dep });
                assert(tv(mapped@)[done] == mapped@[done]@);
                assert(tv(mapped@)[done].key == input[done].key);
                assert(owned_s.contains(input[done].key));
                assert(tv(mapped@)[done].dep =~= rewritten_dep(input[done].dep, ver_s));
                assert(tv(mapped@)[done].dep == rewritten_dep(input[done].dep, ver_s));
            }
        } else {
            mapped.push(x);
            proof {
                assert(mapped@[done] == x);
                assert(tv(mapped@)[done] == x@);
                assert(!owned_s.contains(input[done].key));
                assert(tv(mapped@)[done].dep == input[done].dep);
            }
        }
        proof {
            assert forall|i: int| 0 <= i < done implies #[trigger] tv(mapped@)[i].key
                == input[i].key by {
                assert(mapped@[i] == mv[i]);
                assert(tv(mapped@)[i] == tv(mv)[i]);
                assert(tv(mv)[i].key == input[i].key);
            }
            assert forall|i: int| 0 <= i < done implies #[trigger] tv(mapped@)[i].dep == (
            if owned_s.contains(input[i].key) {
                rewritten_dep(input[i].dep, ver_s)
            } else {
                input[i].dep
            }) by {
                assert(mapped@[i] == mv[i]);
                assert(tv(mapped@)[i] == tv(mv)[i]);
                assert(tv(mv)[i].dep == (if owned_s.contains(input[i].key) {
                    rewritten_dep(input[i].dep, ver_s)
                } else {
                    input[i].dep
                }));
            }
        }
    }
    proof {
        assert(keys_of(tv(mapped@)) =~= keys_of(input));
    }
    let sorted = sort_rows(mapped);
    proof {
        broadcast use vstd::seq_lib::group_to_multiset_ensures;
        broadcast use vstd::multiset::group_multiset_axioms;

        let m = tv(mapped@);
        let s = tv(sorted@);
        // same length
        assert(s.len() == m.len()) by {
            assert(s.len() == s.to_multiset().len());
            assert(m.len() == m.to_multiset().len());
        }
        // unique keys carry over through the permutation of keys
        keys_of(m).lemma_multiset_has_no_duplicates();
        assert forall|x: Seq<u8>| keys_of(s).to_multiset().contains(x) implies keys_of(
            s,
        ).to_multiset().count(x) == 1 by {
            assert(keys_of(m).to_multiset().contains(x));
        }
        keys_of(s).lemma_multiset_has_no_duplicates_conv();
        assert(unique_keys(s));
        // same key membership
        assert forall|k: Seq<u8>| #[trigger] has_key(s, k) == has_key(input, k) by {
            lemma_has_key_keys(s, k);
            lemma_has_key_keys(m, k);
            assert(keys_of(s).contains(k) == (keys_of(s).to_multiset().count(k) > 0));
            assert(has_key(m, k) == has_key(input, k)) by {
                if has_key(m, k) {
                    let i = choose|i: int| 0 <= i < m.len() && m[i].key == k;
                    assert(input[i].key == k);
                }
                if has_key(input, k) {
                    let i = choose|i: int| 0 <= i < input.len() && input[i].key == k;
                    assert(m[i].key == k);
                }
            }
        }
        // each output row is one of the mapped rows, under its own key
        assert forall|i: int| 0 <= i < s.len() implies #[trigger] s[i].dep == (if owned_s.contains(
            s[i].key,
        ) {
            rewritten_dep(dep_of(input, s[i].key), ver_s)
        } else {
            dep_of(input, s[i].key)
        }) by {
            assert(s.contains(s[i]));
            assert(s.to_multiset().count(s[i]) > 0);
            assert(m.to_multiset().count(s[i]) > 0);
            assert(m.contains(s[i]));
            let j = choose|j: int| 0 <= j < m.len() && m[j] == s[i];
            assert(input[j].key == s[i].key);
            lemma_unique_key_index(input, j);
        }
    }
    sorted
}

/// Rewriting a group is idempotent: a second application with the same
/// group and the same source spec returns the table unchanged.
pub proof fn lemma_rewrite_idempotent(
    input: Seq<RowV>,
    owned: Seq<Seq<u8>>,
    ver: Seq<u8>,
    once: Seq<RowV>,
    twice: Seq<RowV>,
)
    requires
        unique_keys(input),
        rewrite_post(input, owned, ver, once),
        rewrite_post(once, owned, ver, twice),
    ensures
        twice == once,
{
    broadcast use vstd::seq_lib::group_to_multiset_ensures;
    broadcast use vstd::multiset::group_multiset_axioms;

    crate::bytes::lemma_key_le_total_ordering();
    // the two key sequences are both sorted, duplicate-free and have the
    // same members, so they are the same sequence
    keys_of(once).lemma_multiset_has_no_duplicates();
    keys_of(twice).lemma_multiset_has_no_duplicates();
    assert forall|k: Seq<u8>|
        keys_of(twice).to_multiset().count(k) == #[trigger] keys_of(once).to_multiset().count(
            k,
        ) by {
        lemma_has_key_keys(once, k);
        lemma_has_key_keys(twice, k);
        assert(has_key(twice, k) == has_key(once, k));
        if keys_of(once).contains(k) {
            assert(keys_of(once).to_multiset().count(k) == 1);
            assert(keys_of(twice).to_multiset().count(k) == 1);
        } else {
            assert(!keys_of(twice).contains(k));
            assert(keys_of(once).to_multiset().count(k) == 0);
            assert(keys_of(twice).to_multiset().count(k) == 0);
        }
    }
    assert(keys_of(twice).to_multiset() =~= keys_of(once).to_multiset());
    vstd::seq_lib::lemma_sorted_unique(keys_of(twice), keys_of(once), key_le());
    assert(keys_of(twice) == keys_of(once));
    // entry by entry, the second rewrite reproduces the first
    assert forall|i: int| 0 <= i < twice.len() implies twice[i] == once[i] by {
        assert(keys_of(twice)[i] == keys_of(once)[i]);
        let k = once[i].key;
        assert(twice[i].key == k);
        lemma_unique_key_index(once, i);
        assert(dep_of(once, k) == once[i].dep);
        if owned.contains(k) {
            assert(once[i].dep == rewritten_dep(dep_of(input, k), ver));
            assert(features_of(rewritten_dep(dep_of(input, k), ver)) == features_of(
                dep_of(input, k),
            ));
            assert(twice[i].dep == rewritten_dep(once[i].dep, ver));
            assert(twice[i].dep =~= once[i].dep);
        } else {
            assert(twice[i].dep == dep_of(once, k));
        }
        assert(twice[i] =~= once[i]);
    }
    assert(twice =~= once);
}

/// An entry whose key the group does not own is never modified: it is
/// present after the rewrite exactly as the input held it.
pub proof fn lemma_rewrite_foreign_unchanged(
    input: Seq<RowV>,
    owned: Seq<Seq<u8>>,
    ver: Seq<u8>,
    out: Seq<RowV>,
    k: Seq<u8>,
)
    requires
        rewrite_post(input, owned, ver, out),
        has_key(input, k),
        !owned.contains(k),
    ensures
        has_key(out, k),
        dep_of(out, k) == dep_of(input, k),
{
    assert(has_key(out, k));
    let i = idx_of(out, k);
    assert(0 <= i < out.len() && out[i].key == k);
    assert(out[i].dep == dep_of(input, k));
}

/// A feature list present on an owned entry before the rewrite is present
/// and unchanged after it.
pub proof fn lemma_rewrite_keeps_features(
    input: Seq<RowV>,
    owned: Seq<Seq<u8>>,
    ver: Seq<u8>,
    out: Seq<RowV>,
    k: Seq<u8>,
)
    requires
        rewrite_post(input, owned, ver, out),
        has_key(input, k),
        owned.contains(k),
        features_of(dep_of(input, k)) is Some,
    ensures
        has_key(out, k),
        features_of(dep_of(out, k)) == features_of(dep_of(input, k)),
{
    assert(has_key(out, k));
    let i = idx_of(out, k);
    assert(0 <= i < out.len() && out[i].key == k);
    assert(out[i].dep == rewritten_dep(dep_of(input, k), ver));
}

} // verus!
