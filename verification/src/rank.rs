//! The candidate ranker: decodes the ciphertext under every candidate key
//! in corpus order, scores each decoding against the dictionary, and sorts
//! the results by score, highest first. No candidate is skipped or
//! deduplicated; ties keep their relative order (stable insertion sort).

use vstd::multiset::group_multiset_axioms;
use vstd::prelude::*;
use vstd::seq_lib::{to_multiset_contains, to_multiset_insert, to_multiset_remove};

use crate::cipher::{decode_full, decode_vizhener};
use crate::dict::Dictionary;
use crate::score::{score, score_of};

verus! {

/// One decoding attempt: the candidate key, the text the ciphertext
/// decodes to under it, and the number of decoded tokens that are
/// dictionary words.
pub struct DecodingResult {
    pub key: String,
    pub decoded: String,
    pub score: usize,
}

/// A result is correct for a ciphertext and a dictionary when its decoded
/// text is the decoding of the ciphertext under its key, and its score is
/// the dictionary score of that text.
pub open spec fn result_ok(r: DecodingResult, cipher: Seq<char>, dict: Set<Seq<char>>) -> bool {
    &&& r.decoded@ == decode_full(cipher, r.key@)
    &&& r.score as nat == score_of(r.decoded@, dict)
}

/// Sorted by score, highest first.
pub open spec fn sorted_desc(rs: Seq<DecodingResult>) -> bool {
    forall|a: int, b: int|
        0 <= a <= b < rs.len() ==> (#[trigger] rs[a]).score >= (#[trigger] rs[b]).score
}

/// The key views of a result sequence.
pub open spec fn key_views(rs: Seq<DecodingResult>) -> Seq<Seq<char>> {
    rs.map_values(|r: DecodingResult| r.key@)
}

/// The views of a sequence of strings.
pub open spec fn string_views(ss: Seq<String>) -> Seq<Seq<char>> {
    ss.map_values(|s: String| s@)
}

/// Decodes and scores the ciphertext under every candidate key, in corpus
/// order, producing one result per candidate.
pub fn evaluate_candidates(cipher: &str, candidates: &Vec<String>, dict: &Dictionary) -> (rs: Vec<
    DecodingResult,
>)
    ensures
        rs@.len() == candidates@.len(),
        forall|i: int| 0 <= i < rs@.len() ==> (#[trigger] rs@[i]).key@ == candidates@[i]@,
        forall|i: int| 0 <= i < rs@.len() ==> result_ok(#[trigger] rs@[i], cipher@, dict@),
{
    let mut rs: Vec<DecodingResult> = Vec::new();
    let mut i: usize = 0;
    while i < candidates.len()
        invariant
            i <= candidates@.len(),
            rs@.len() == i,
            forall|j: int| 0 <= j < i ==> (#[trigger] rs@[j]).key@ == candidates@[j]@,
            forall|j: int| 0 <= j < i ==> result_ok(#[trigger] rs@[j], cipher@, dict@),
        decreases candidates@.len() - i,
    {
        let decoded = decode_vizhener(cipher, candidates[i].as_str());
        let sc = score(decoded.as_str(), dict);
        rs.push(DecodingResult { key: candidates[i].clone(), decoded, score: sc });
        i = i + 1;
    }
    rs
}

/// Sorts results by score, highest first, keeping the relative order of
/// equal scores (insertion sort). The results themselves are unchanged: the
/// sorted sequence holds the same results, and the same keys, as before.
pub fn sort_results(rs: &mut Vec<DecodingResult>)
    ensures
        final(rs)@.len() == old(rs)@.len(),
        sorted_desc(final(rs)@),
        final(rs)@.to_multiset() == old(rs)@.to_multiset(),
        key_views(final(rs)@).to_multiset() == key_views(old(rs)@).to_multiset(),
{
    let ghost orig = rs@;
    let n = rs.len();
    if n == 0 {
        return ;
    }
    let mut i: usize = 1;
    while i < n
        invariant
            1 <= i <= n,
            n == rs@.len(),
            rs@.len() == orig.len(),
            forall|a: int, b: int|
                0 <= a <= b < i ==> (#[trigger] rs@[a]).score >= (#[trigger] rs@[b]).score,
            rs@.to_multiset() == orig.to_multiset(),
            key_views(rs@).to_multiset() == key_views(orig).to_multiset(),
        decreases n - i,
    {
        let xscore = rs[i].score;
        let mut j: usize = 0;
        while j < i && rs[j].score >= xscore
            invariant
                j <= i,
                i < rs@.len(),
                xscore == rs@[i as int].score,
                forall|a: int| 0 <= a < j ==> (#[trigger] rs@[a]).score >= xscore,
            decreases i - j,
        {
            j = j + 1;
        }
        if j < i {
            let ghost pre = rs@;
            let x = rs.remove(i);
            let ghost mid = rs@;
            rs.insert(j, x);
            proof {
                broadcast use to_multiset_remove, to_multiset_insert, to_multiset_contains, group_multiset_axioms;

                assert(pre[i as int] == x);
                assert(mid.to_multiset() == pre.to_multiset().remove(x));
                assert(rs@.to_multiset() == mid.to_multiset().insert(x));
                assert(pre.contains(x));
                assert(pre.to_multiset().count(x) > 0);
                assert(rs@.to_multiset() =~= pre.to_multiset());

                assert(key_views(mid) =~= key_views(pre).remove(i as int));
                assert(key_views(rs@) =~= key_views(mid).insert(j as int, x.key@));
                assert(key_views(pre)[i as int] == x.key@);
                assert(key_views(mid).to_multiset() == key_views(pre).to_multiset().remove(
                    x.key@,
                ));
                assert(key_views(pre).contains(x.key@));
                assert(key_views(pre).to_multiset().count(x.key@) > 0);
                assert(key_views(rs@).to_multiset() =~= key_views(pre).to_multiset());

                assert(forall|k: int| 0 <= k < j ==> rs@[k] == pre[k]);
                assert(rs@[j as int] == x);
                assert(forall|k: int| j < k <= i ==> rs@[k] == pre[k - 1]);
                assert forall|a: int, b: int|
                    0 <= a <= b < i + 1 implies (#[trigger] rs@[a]).score >= (
                #[trigger] rs@[b]).score by {
                    if b < j as int {
                        assert(pre[a].score >= pre[b].score);
                    } else if b == j as int {
                        if a < b {
                            assert(pre[a].score >= xscore);
                        }
                    } else {
                        if a < j as int {
                            assert(pre[a].score >= xscore);
                            assert(xscore > pre[j as int].score);
                            assert(pre[j as int].score >= pre[b - 1].score);
                        } else if a == j as int {
                            assert(xscore > pre[j as int].score);
                            assert(pre[j as int].score >= pre[b - 1].score);
                        } else {
                            assert(pre[a - 1].score >= pre[b - 1].score);
                        }
                    }
                }
            }
        } else {
            proof {
                assert forall|a: int, b: int|
                    0 <= a <= b < i + 1 implies (#[trigger] rs@[a]).score >= (
                #[trigger] rs@[b]).score by {
                    if b == i as int && a < b {
                        assert(rs@[a].score >= xscore);
                    }
                }
            }
        }
        i = i + 1;
    }
}

/// Ranks the candidates: one result per candidate key, sorted by score,
/// highest first; every result is the correct decoding and score for its
/// key, and the ranked keys are exactly the candidate keys.
pub fn rank(cipher: &str, candidates: &Vec<String>, dict: &Dictionary) -> (rs: Vec<DecodingResult>)
    ensures
        rs@.len() == candidates@.len(),
        sorted_desc(rs@),
        forall|i: int| 0 <= i < rs@.len() ==> result_ok(#[trigger] rs@[i], cipher@, dict@),
        key_views(rs@).to_multiset() == string_views(candidates@).to_multiset(),
{
    let mut rs = evaluate_candidates(cipher, candidates, dict);
    let ghost ev = rs@;
    proof {
        assert(key_views(ev) =~= string_views(candidates@));
    }
    sort_results(&mut rs);
    proof {
        broadcast use to_multiset_contains, group_multiset_axioms;

        assert forall|i: int|
            0 <= i < rs@.len() implies result_ok(#[trigger] rs@[i], cipher@, dict@) by {
            let r = rs@[i];
            assert(rs@.contains(r));
            assert(rs@.to_multiset().count(r) > 0);
            assert(ev.to_multiset().count(r) > 0);
            assert(ev.contains(r));
            let k = choose|k: int| 0 <= k < ev.len() && ev[k] == r;
            assert(result_ok(ev[k], cipher@, dict@));
        }
    }
    rs
}

/// The first `k` results of a ranked sequence: the top of the report (all
/// results when there are fewer than `k`).
pub fn top_results(rs: &Vec<DecodingResult>, k: usize) -> (out: Vec<DecodingResult>)
    ensures
        out@.len() == (if k as int <= rs@.len() {
            k as int
        } else {
            rs@.len() as int
        }),
        forall|i: int| 0 <= i < out@.len() ==> out@[i] == rs@[i],
{
    let m: usize = if k <= rs.len() {
        k
    } else {
        rs.len()
    };
    let mut out: Vec<DecodingResult> = Vec::new();
    let mut i: usize = 0;
    while i < m
        invariant
            m <= rs@.len(),
            i <= m,
            out@.len() == i,
            forall|a: int| 0 <= a < i ==> out@[a] == rs@[a],
        decreases m - i,
    {
        out.push(
            DecodingResult {
                key: rs[i].key.clone(),
                decoded: rs[i].decoded.clone(),
                score: rs[i].score,
            },
        );
        i = i + 1;
    }
    out
}

} // verus!
