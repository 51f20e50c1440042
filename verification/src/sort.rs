//! Sorting table entries by key, for deterministic output.

use vstd::prelude::*;

verus! {

use vstd::relations::sorted_by;
use crate::bytes::{key_le, le_bytes, lex_le, lemma_lex_le_connected, lemma_lex_le_transitive};
use crate::model::{keys_of, tv, Row};

/// `s.insert(i, x)` adds `x` to the multiset of `s`'s elements.
pub proof fn lemma_to_multiset_insert<A>(s: Seq<A>, i: int, x: A)
    requires
        0 <= i <= s.len(),
    ensures
        s.insert(i, x).to_multiset() == s.to_multiset().insert(x),
{
    broadcast use vstd::seq_lib::group_to_multiset_ensures;
    broadcast use vstd::multiset::group_multiset_axioms;

    let t = s.insert(i, x);
    assert(t.remove(i) =~= s);
    assert(t[i] == x);
    assert(t.remove(i).to_multiset() =~= t.to_multiset().remove(x));
    assert(t.to_multiset().contains(x)) by {
        assert(t.contains(x));
    }
    assert(t.to_multiset().remove(x).insert(x) =~= t.to_multiset());
    assert(s.to_multiset().insert(x) =~= t.to_multiset());
}

/// Inserts a row into a table sorted by key, keeping it sorted.
fn insert_row(v: &mut Vec<Row>, x: Row)
    requires
        sorted_by(keys_of(tv(old(v)@)), key_le()),
    ensures
        sorted_by(keys_of(tv(final(v)@)), key_le()),
        tv(final(v)@).to_multiset() == tv(old(v)@).to_multiset().insert(x@),
        keys_of(tv(final(v)@)).to_multiset() == keys_of(tv(old(v)@)).to_multiset().insert(x@.key),
{
    let mut lo: usize = 0;
    loop
        invariant
            lo <= v@.len(),
            v@ == old(v)@,
            forall|j: int| 0 <= j < lo ==> !lex_le(x@.key, #[trigger] tv(v@)[j].key),
        ensures
            lo <= v@.len(),
            v@ == old(v)@,
            lo == v@.len() || lex_le(x@.key, tv(v@)[lo as int].key),
            forall|j: int| 0 <= j < lo ==> !lex_le(x@.key, #[trigger] tv(v@)[j].key),
        decreases v@.len() - lo,
    {
        if lo >= v.len() {
            break ;
        }
        if le_bytes(&x.key, &v[lo].key) {
            break ;
        }
        lo += 1;
    }
    let ghost s_old = tv(v@);
    let ghost pos = lo as int;
    v.insert(lo, x);
    proof {
        assert(tv(v@) =~= s_old.insert(pos, x@));
        assert(keys_of(tv(v@)) =~= keys_of(s_old).insert(pos, x@.key));
        lemma_to_multiset_insert(s_old, pos, x@);
        lemma_to_multiset_insert(keys_of(s_old), pos, x@.key);
        let ks = keys_of(tv(v@));
        assert forall|i: int, j: int| 0 <= i < j < ks.len() implies key_le()(ks[i], ks[j]) by {
            let ks_old = keys_of(s_old);
            if j < pos {
                assert(ks[i] == ks_old[i] && ks[j] == ks_old[j]);
            } else if i < pos && j == pos {
                assert(ks[i] == ks_old[i]);
                lemma_lex_le_connected(x@.key, ks_old[i]);
            } else if i < pos && j > pos {
                assert(ks[i] == ks_old[i] && ks[j] == ks_old[j - 1]);
            } else if i == pos {
                assert(ks[j] == ks_old[j - 1]);
                if pos < ks_old.len() {
                    assert(lex_le(x@.key, ks_old[pos]));
                    if j - 1 > pos {
                        assert(key_le()(ks_old[pos], ks_old[j - 1]));
                        lemma_lex_le_transitive(x@.key, ks_old[pos], ks_old[j - 1]);
                    }
                }
            } else {
                assert(ks[i] == ks_old[i - 1] && ks[j] == ks_old[j - 1]);
            }
        }
    }
}

/// Re-orders a table's entries by key. The entries themselves are kept
/// exactly as they are.
pub fn sort_rows(rows: Vec<Row>) -> (r: Vec<Row>)
    ensures
        sorted_by(keys_of(tv(r@)), key_le()),
        tv(r@).to_multiset() == tv(rows@).to_multiset(),
        keys_of(tv(r@)).to_multiset() == keys_of(tv(rows@)).to_multiset(),
{
    broadcast use vstd::seq_lib::group_to_multiset_ensures;
    broadcast use vstd::multiset::group_multiset_axioms;

    let mut rest = rows;
    let mut out: Vec<Row> = Vec::new();
    proof {
        assert(tv(out@).to_multiset().add(tv(rest@).to_multiset()) =~= tv(rows@).to_multiset());
        assert(keys_of(tv(out@)).to_multiset().add(keys_of(tv(rest@)).to_multiset()) =~= keys_of(
            tv(rows@),
        ).to_multiset());
    }
    while rest.len() > 0
        invariant
            sorted_by(keys_of(tv(out@)), key_le()),
            tv(out@).to_multiset().add(tv(rest@).to_multiset()) == tv(rows@).to_multiset(),
            keys_of(tv(out@)).to_multiset().add(keys_of(tv(rest@)).to_multiset()) == keys_of(
                tv(rows@),
            ).to_multiset(),
        decreases rest@.len(),
    {
        let ghost rest_old = tv(rest@);
        let ghost out_old = tv(out@);
        let x = rest.remove(0);
        insert_row(&mut out, x);
        proof {
            broadcast use vstd::seq_lib::group_to_multiset_ensures;
            broadcast use vstd::multiset::group_multiset_axioms;

            assert(tv(rest@) =~= rest_old.remove(0));
            assert(keys_of(tv(rest@)) =~= keys_of(rest_old).remove(0));
            assert(rest_old.remove(0).to_multiset() =~= rest_old.to_multiset().remove(
                rest_old[0],
            ));
            assert(keys_of(rest_old).remove(0).to_multiset() =~= keys_of(
                rest_old,
            ).to_multiset().remove(keys_of(rest_old)[0]));
            assert(rest_old[0] == x@);
            assert(keys_of(rest_old)[0] == x@.key);
            assert(rest_old.to_multiset().contains(x@)) by {
                assert(rest_old.contains(x@));
            }
            assert(keys_of(rest_old).to_multiset().contains(x@.key)) by {
                assert(keys_of(rest_old).contains(x@.key));
            }
            assert(tv(out@).to_multiset().add(tv(rest@).to_multiset()) =~= tv(
                rows@,
            ).to_multiset());
            assert(keys_of(tv(out@)).to_multiset().add(keys_of(tv(rest@)).to_multiset()) =~= keys_of(
                tv(rows@),
            ).to_multiset());
        }
    }
    proof {
        assert(tv(rest@).to_multiset() =~= vstd::multiset::Multiset::<crate::model::RowV>::empty()) by {
            assert(tv(rest@).len() == 0);
        }
        assert(tv(out@).to_multiset() =~= tv(rows@).to_multiset());
        assert(keys_of(tv(out@)).to_multiset() =~= keys_of(tv(rows@)).to_multiset());
    }
    out
}

} // verus!
