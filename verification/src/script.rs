//! The dependency groups, and the derivation of the primary group's
//! crate set from the toolchain repository's release script.

use vstd::prelude::*;

verus! {

use vstd::relations::sorted_by;
use vstd::string::StringSliceAdditionalSpecFns;
use vstd::string::StrSliceExecFns;
use crate::bytes::{
    append_bytes, copy_bytes, find_bytes, find_sub, is_prefix, key_le, le_bytes, lex_le,
    lemma_lex_le_connected, lemma_lex_le_transitive, starts_with, sub_bytes,
};
use crate::model::{names_v, Error, SourceSpec, SourceSpecV};
use crate::sort::lemma_to_multiset_insert;
use crate::version::render;
use crate::version::render_version;

/// The dependency groups the tool manages.
#[derive(Clone, Copy, PartialEq, Eq, Structural, Debug)]
pub enum Tool {
    Cairo,
    CairoLs,
    CairoLint,
}

/// The source repository of each group.
pub open spec fn spec_tool_repo(t: Tool) -> Seq<u8> {
    match t {
        Tool::Cairo => "https://github.com/starkware-libs/cairo".spec_bytes(),
        Tool::CairoLs => "https://github.com/software-mansion/cairols".spec_bytes(),
        Tool::CairoLint => "https://github.com/software-mansion/cairo-lint".spec_bytes(),
    }
}

/// The source repository URL of a group.
pub fn tool_repo(t: Tool) -> (r: Vec<u8>)
    ensures
        r@ == spec_tool_repo(t),
{
    match t {
        Tool::Cairo => "https://github.com/starkware-libs/cairo".as_bytes_vec(),
        Tool::CairoLs => "https://github.com/software-mansion/cairols".as_bytes_vec(),
        Tool::CairoLint => "https://github.com/software-mansion/cairo-lint".as_bytes_vec(),
    }
}

/// The crates a statically-known group owns. The primary toolchain
/// group's set is not static: it is derived from the release script by
/// `release_crate_names`, once per run.
pub fn tool_static_crates(t: Tool) -> (r: Option<Vec<Vec<u8>>>)
    ensures
        match t {
            Tool::Cairo => r is None,
            Tool::CairoLs => match r {
                Some(v) => names_v(v@) =~= seq!["cairo-language-server".spec_bytes()],
                None => false,
            },
            Tool::CairoLint => match r {
                Some(v) => names_v(v@) =~= seq!["cairo-lint-core".spec_bytes()],
                None => false,
            },
        },
{
    match t {
        Tool::Cairo => None,
        Tool::CairoLs => {
            let mut v: Vec<Vec<u8>> = Vec::new();
            v.push("cairo-language-server".as_bytes_vec());
            proof {
                assert(names_v(v@) =~= seq!["cairo-language-server".spec_bytes()]);
            }
            Some(v)
        },
        Tool::CairoLint => {
            let mut v: Vec<Vec<u8>> = Vec::new();
            v.push("cairo-lint-core".as_bytes_vec());
            proof {
                assert(names_v(v@) =~= seq!["cairo-lint-core".spec_bytes()]);
            }
            Some(v)
        },
    }
}

/// The git ref the release script is fetched at: the version's tag, the
/// explicit revision, the branch, or the default branch when none given.
pub open spec fn spec_release_ref(src: SourceSpecV) -> Seq<u8> {
    if src.version is Some {
        "refs/tags/v".spec_bytes() + render(src.version.unwrap())
    } else if src.rev is Some {
        src.rev.unwrap()
    } else if src.branch is Some {
        "refs/heads/".spec_bytes() + src.branch.unwrap()
    } else {
        "refs/heads/main".spec_bytes()
    }
}

/// The ref at which to fetch the release script.
pub fn release_ref(src: &SourceSpec) -> (r: Vec<u8>)
    ensures
        r@ == spec_release_ref(src@),
{
    match &src.version {
        Some(v) => {
            let mut r = "refs/tags/v".as_bytes_vec();
            let tail = render_version(v);
            append_bytes(&mut r, &tail);
            r
        },
        None => match &src.rev {
            Some(rev) => copy_bytes(rev),
            None => match &src.branch {
                Some(b) => {
                    let mut r = "refs/heads/".as_bytes_vec();
                    append_bytes(&mut r, b);
                    r
                },
                None => "refs/heads/main".as_bytes_vec(),
            },
        },
    }
}

/// The raw-content URL the release script is fetched from, at a ref.
pub open spec fn spec_release_script_url(ref_part: Seq<u8>) -> Seq<u8> {
    "https://raw.githubusercontent.com/starkware-libs/cairo/".spec_bytes() + ref_part
        + "/scripts/release_crates.sh".spec_bytes()
}

/// The URL of the release script at the given ref.
pub fn release_script_url(ref_part: &Vec<u8>) -> (r: Vec<u8>)
    ensures
        r@ == spec_release_script_url(ref_part@),
{
    let mut r = "https://raw.githubusercontent.com/starkware-libs/cairo/".as_bytes_vec();
    append_bytes(&mut r, ref_part);
    let tail = "/scripts/release_crates.sh".as_bytes_vec();
    append_bytes(&mut r, &tail);
    r
}

/// The ASCII whitespace characters, which are the ones that separate the
/// entries of the script's crate list.
pub open spec fn is_ws(b: u8) -> bool {
    b == 32 || b == 9 || b == 10 || b == 13 || b == 12
}

fn is_ws_byte(b: u8) -> (r: bool)
    ensures
        r == is_ws(b),
{
    b == 32 || b == 9 || b == 10 || b == 13 || b == 12
}

/// The length of the leading whitespace-free run.
pub open spec fn token_len(s: Seq<u8>) -> int
    decreases s.len(),
{
    if s.len() == 0 || is_ws(s[0]) {
        0
    } else {
        1 + token_len(s.drop_first())
    }
}

proof fn lemma_token_len_bounds(s: Seq<u8>)
    ensures
        0 <= token_len(s) <= s.len(),
    decreases s.len(),
{
    if s.len() != 0 && !is_ws(s[0]) {
        lemma_token_len_bounds(s.drop_first());
    }
}

proof fn lemma_token_len_exact(s: Seq<u8>, n: int)
    requires
        0 <= n <= s.len(),
        forall|m: int| 0 <= m < n ==> !is_ws(#[trigger] s[m]),
        n == s.len() || is_ws(s[n]),
    ensures
        token_len(s) == n,
    decreases n,
{
    if n == 0 {
    } else {
        assert(!is_ws(s[0]));
        lemma_token_len_exact(s.drop_first(), n - 1);
    }
}

/// The whitespace-separated tokens of a byte string, in order.
pub open spec fn split_ws(s: Seq<u8>) -> Seq<Seq<u8>>
    decreases s.len(),
    via split_ws_decreases
{
    if s.len() == 0 {
        Seq::empty()
    } else if is_ws(s[0]) {
        split_ws(s.drop_first())
    } else {
        seq![s.take(token_len(s))] + split_ws(s.skip(token_len(s)))
    }
}

#[via_fn]
proof fn split_ws_decreases(s: Seq<u8>) {
    if s.len() != 0 && !is_ws(s[0]) {
        lemma_token_len_bounds(s);
        lemma_token_len_bounds(s.drop_first());
        assert(token_len(s) == 1 + token_len(s.drop_first()));
    }
}

/// Splits a byte string on runs of whitespace.
pub fn split_whitespace_bytes(s: &Vec<u8>) -> (r: Vec<Vec<u8>>)
    ensures
        names_v(r@) == split_ws(s@),
{
    let mut out: Vec<Vec<u8>> = Vec::new();
    let mut i: usize = 0;
    proof {
        assert(s@.skip(0) =~= s@);
        assert(names_v(out@) + split_ws(s@) =~= split_ws(s@));
    }
    while i < s.len()
        invariant
            i <= s@.len(),
            split_ws(s@) == names_v(out@) + split_ws(s@.skip(i as int)),
        decreases s@.len() - i,
    {
        if is_ws_byte(s[i]) {
            proof {
                assert(s@.skip(i as int)[0] == s@[i as int]);
                assert(s@.skip(i as int).drop_first() =~= s@.skip(i + 1));
            }
            i += 1;
        } else {
            let start = i;
            let mut j = i;
            while j < s.len() && !is_ws_byte(s[j])
                invariant
                    start <= j <= s@.len(),
                    forall|m: int| start <= m < j ==> !is_ws(#[trigger] s@[m]),
                decreases s@.len() - j,
            {
                j += 1;
            }
            let tok = sub_bytes(s, start, j);
            let ghost before = names_v(out@);
            out.push(tok);
            proof {
                let rest = s@.skip(start as int);
                assert forall|m: int| 0 <= m < j - start implies !is_ws(#[trigger] rest[m]) by {
                    assert(rest[m] == s@[start + m]);
                }
                if j < s@.len() {
                    assert(rest[j - start] == s@[j as int]);
                }
                lemma_token_len_exact(rest, j - start);
                assert(!is_ws(rest[0]));
                assert(rest.take(j - start) =~= s@.subrange(start as int, j as int));
                assert(rest.skip(j - start) =~= s@.skip(j as int));
                assert(split_ws(rest) == seq![tok@] + split_ws(s@.skip(j as int)));
                assert(names_v(out@) =~= before.push(tok@));
                assert(names_v(out@) + split_ws(s@.skip(j as int)) =~= before + split_ws(rest));
            }
            i = j;
        }
    }
    proof {
        assert(split_ws(s@.skip(i as int)) =~= Seq::<Seq<u8>>::empty());
        assert(names_v(out@) + split_ws(s@.skip(i as int)) =~= names_v(out@));
    }
    out
}

/// The tokens that carry the toolchain's crate-name prefix, in order.
pub open spec fn keep_prefixed(toks: Seq<Seq<u8>>, prefix: Seq<u8>) -> Seq<Seq<u8>>
    decreases toks.len(),
{
    if toks.len() == 0 {
        Seq::empty()
    } else if is_prefix(prefix, toks[0]) {
        seq![toks[0]] + keep_prefixed(toks.drop_first(), prefix)
    } else {
        keep_prefixed(toks.drop_first(), prefix)
    }
}

/// Keeps the tokens that start with `prefix`.
fn filter_prefixed(toks: Vec<Vec<u8>>, prefix: &Vec<u8>) -> (r: Vec<Vec<u8>>)
    ensures
        names_v(r@) == keep_prefixed(names_v(toks@), prefix@),
{
    let ghost input = names_v(toks@);
    let mut rest = toks;
    let mut out: Vec<Vec<u8>> = Vec::new();
    proof {
        assert(names_v(rest@) =~= input.skip(0));
        assert(names_v(out@) + keep_prefixed(input, prefix@) =~= keep_prefixed(input, prefix@));
    }
    while rest.len() > 0
        invariant
            keep_prefixed(input, prefix@) == names_v(out@) + keep_prefixed(
                names_v(rest@),
                prefix@,
            ),
        decreases rest@.len(),
    {
        let ghost rv = rest@;
        let ghost rest_old = names_v(rest@);
        let ghost before = names_v(out@);
        let x = rest.remove(0);
        proof {
            assert(x == rv[0]);
            assert(rest_old[0] == rv[0]@);
            assert(names_v(rest@) =~= rest_old.drop_first());
        }
        if starts_with(&x, prefix) {
            out.push(x);
            proof {
                assert(names_v(out@) =~= before.push(rest_old[0]));
                assert(keep_prefixed(rest_old, prefix@) == seq![rest_old[0]] + keep_prefixed(
                    rest_old.drop_first(),
                    prefix@,
                ));
                assert(names_v(out@) + keep_prefixed(names_v(rest@), prefix@) =~= before
                    + keep_prefixed(rest_old, prefix@));
            }
        } else {
            proof {
                assert(keep_prefixed(rest_old, prefix@) == keep_prefixed(
                    rest_old.drop_first(),
                    prefix@,
                ));
            }
        }
    }
    proof {
        assert(names_v(rest@).len() == 0);
        assert(keep_prefixed(names_v(rest@), prefix@) =~= Seq::<Seq<u8>>::empty());
        assert(names_v(out@) + keep_prefixed(names_v(rest@), prefix@) =~= names_v(out@));
    }
    out
}

/// Inserts a name into a sorted list, keeping it sorted.
fn insert_name(v: &mut Vec<Vec<u8>>, x: Vec<u8>)
    requires
        sorted_by(names_v(old(v)@), key_le()),
    ensures
        sorted_by(names_v(final(v)@), key_le()),
        names_v(final(v)@).to_multiset() == names_v(old(v)@).to_multiset().insert(x@),
{
    let mut lo: usize = 0;
    loop
        invariant
            lo <= v@.len(),
            v@ == old(v)@,
            forall|j: int| 0 <= j < lo ==> !lex_le(x@, #[trigger] names_v(v@)[j]),
        ensures
            lo <= v@.len(),
            v@ == old(v)@,
            lo == v@.len() || lex_le(x@, names_v(v@)[lo as int]),
            forall|j: int| 0 <= j < lo ==> !lex_le(x@, #[trigger] names_v(v@)[j]),
        decreases v@.len() - lo,
    {
        if lo >= v.len() {
            break ;
        }
        if le_bytes(&x, &v[lo]) {
            break ;
        }
        lo += 1;
    }
    let ghost s_old = names_v(v@);
    let ghost pos = lo as int;
    v.insert(lo, x);
    proof {
        assert(names_v(v@) =~= s_old.insert(pos, x@));
        lemma_to_multiset_insert(s_old, pos, x@);
        let ks = names_v(v@);
        assert forall|i: int, j: int| 0 <= i < j < ks.len() implies key_le()(ks[i], ks[j]) by {
            if j < pos {
                assert(ks[i] == s_old[i] && ks[j] == s_old[j]);
            } else if i < pos && j == pos {
                assert(ks[i] == s_old[i]);
                lemma_lex_le_connected(x@, s_old[i]);
            } else if i < pos && j > pos {
                assert(ks[i] == s_old[i] && ks[j] == s_old[j - 1]);
            } else if i == pos {
                assert(ks[j] == s_old[j - 1]);
                if pos < s_old.len() {
                    assert(lex_le(x@, s_old[pos]));
                    if j - 1 > pos {
                        assert(key_le()(s_old[pos], s_old[j - 1]));
                        lemma_lex_le_transitive(x@, s_old[pos], s_old[j - 1]);
                    }
                }
            } else {
                assert(ks[i] == s_old[i - 1] && ks[j] == s_old[j - 1]);
            }
        }
    }
}

/// Sorts a list of names alphabetically (byte-wise).
pub fn sort_names(names: Vec<Vec<u8>>) -> (r: Vec<Vec<u8>>)
    ensures
        sorted_by(names_v(r@), key_le()),
        names_v(r@).to_multiset() == names_v(names@).to_multiset(),
{
    broadcast use vstd::seq_lib::group_to_multiset_ensures;
    broadcast use vstd::multiset::group_multiset_axioms;

    let mut rest = names;
    let mut out: Vec<Vec<u8>> = Vec::new();
    proof {
        assert(names_v(out@).to_multiset().add(names_v(rest@).to_multiset()) =~= names_v(
            names@,
        ).to_multiset());
    }
    while rest.len() > 0
        invariant
            sorted_by(names_v(out@), key_le()),
            names_v(out@).to_multiset().add(names_v(rest@).to_multiset()) == names_v(
                names@,
            ).to_multiset(),
        decreases rest@.len(),
    {
        let ghost rv = rest@;
        let ghost rest_old = names_v(rest@);
        let x = rest.remove(0);
        insert_name(&mut out, x);
        proof {
            broadcast use vstd::seq_lib::group_to_multiset_ensures;
            broadcast use vstd::multiset::group_multiset_axioms;

            assert(x == rv[0]);
            assert(rest_old[0] == rv[0]@);
            assert(names_v(rest@) =~= rest_old.remove(0));
            assert(rest_old.remove(0).to_multiset() =~= rest_old.to_multiset().remove(
                rest_old[0],
            ));
            assert(rest_old.to_multiset().contains(x@)) by {
                assert(rest_old.contains(x@));
            }
            assert(names_v(out@).to_multiset().add(names_v(rest@).to_multiset()) =~= names_v(
                names@,
            ).to_multiset());
        }
    }
    proof {
        assert(names_v(rest@).to_multiset() =~= vstd::multiset::Multiset::<Seq<u8>>::empty()) by {
            assert(names_v(rest@).len() == 0);
        }
        assert(names_v(out@).to_multiset() =~= names_v(names@).to_multiset());
    }
    out
}

/// The token that opens the release script's crate list.
pub open spec fn open_token() -> Seq<u8> {
    "CRATES_TO_PUBLISH=(".spec_bytes()
}

/// The token that closes the release script's crate list.
pub open spec fn close_token() -> Seq<u8> {
    ")".spec_bytes()
}

/// The crate-name prefix that the toolchain's published crates carry.
pub open spec fn name_prefix() -> Seq<u8> {
    "cairo-lang-".spec_bytes()
}

/// The names the primary toolchain group owns, read off a release script:
/// the whitespace-separated entries of the single delimited list in it
/// that carry the toolchain's name prefix, sorted alphabetically. Fails
/// when either delimiter of the list cannot be found.
pub fn release_crate_names(script: &Vec<u8>) -> (r: Result<Vec<Vec<u8>>, Error>)
    ensures
        ({
            match find_sub(script@, open_token()) {
                None => r == Err::<Vec<Vec<u8>>, Error>(Error::MissingListStart),
                Some(a) => {
                    let rest = script@.skip(a + open_token().len());
                    match find_sub(rest, close_token()) {
                        None => r == Err::<Vec<Vec<u8>>, Error>(Error::MissingListEnd),
                        Some(b) => match r {
                            Ok(names) => {
                                &&& sorted_by(names_v(names@), key_le())
                                &&& names_v(names@).to_multiset() == keep_prefixed(
                                    split_ws(rest.take(b)),
                                    name_prefix(),
                                ).to_multiset()
                            },
                            Err(_) => false,
                        },
                    }
                },
            }
        }),
{
    let open_tok = "CRATES_TO_PUBLISH=(".as_bytes_vec();
    let close_tok = ")".as_bytes_vec();
    let a = match find_bytes(script, &open_tok) {
        Some(a) => a,
        None => {
            return Err(Error::MissingListStart);
        },
    };
    proof {
        crate::bytes::lemma_find_sub_in_range(script@, open_tok@);
    }
    let total = script.len();
    let list_start = a + open_tok.len();
    let rest = sub_bytes(script, list_start, total);
    proof {
        assert(rest@ =~= script@.skip(a + open_token().len()));
    }
    let b = match find_bytes(&rest, &close_tok) {
        Some(b) => b,
        None => {
            return Err(Error::MissingListEnd);
        },
    };
    proof {
        crate::bytes::lemma_find_sub_in_range(rest@, close_tok@);
    }
    let body = sub_bytes(&rest, 0, b);
    proof {
        assert(body@ =~= rest@.take(b as int));
    }
    let toks = split_whitespace_bytes(&body);
    let prefix = "cairo-lang-".as_bytes_vec();
    let kept = filter_prefixed(toks, &prefix);
    Ok(sort_names(kept))
}

} // verus!
