//! The similarity engine: scores every candidate against the registered
//! reference fingerprints, keeps the best score per candidate, and returns
//! the ranked, thresholded, capped result set.

use crate::fingerprint::{
    calculate_similarity, hamming, similarity_of, Fingerprint, MAX_COMPARABLE_BYTES,
};
use crate::store::{sel_views, RecordV, ReferenceImageRepository};
use crate::EngineError;
use vstd::prelude::*;

verus! {

/// Least similarity score a candidate needs to be reported.
pub const SIMILARITY_THRESHOLD: u32 = 90;

/// Largest number of results one search reports.
pub const MAX_RESULTS: usize = 10;

/// One search hit: a candidate file close to some reference image.  Its
/// position in the result sequence is its id.  The deletion pipeline
/// later marks it deleted or records why it could not be.
#[derive(Debug, Clone, PartialEq)]
pub struct SimilarImage {
    pub filepath: String,
    pub similarity: u32,
    pub is_deleted: bool,
    pub error_message: Option<String>,
}

/// The fingerprint bytes of the stored reference records, in store order.
pub open spec fn ref_hashes(recs: Seq<RecordV>) -> Seq<Seq<u8>> {
    recs.map_values(|r: RecordV| r.hash)
}

/// Whether a candidate fingerprint can be scored against every reference:
/// lengths agree everywhere and the score scale cannot be exceeded.
pub open spec fn comparable(fp: Seq<u8>, refs: Seq<Seq<u8>>) -> bool {
    fp.len() <= MAX_COMPARABLE_BYTES && forall|j: int|
        0 <= j < refs.len() ==> #[trigger] refs[j].len() == fp.len()
}

/// The best similarity of a fingerprint over a set of references.
pub open spec fn best_score(fp: Seq<u8>, refs: Seq<Seq<u8>>) -> int
    decreases refs.len(),
{
    if refs.len() == 0 {
        0
    } else {
        let rest = best_score(fp, refs.drop_last());
        let s = similarity_of(fp, refs.last());
        if s > rest {
            s
        } else {
            rest
        }
    }
}

/// Candidates with their best scores, in scan order; a candidate that
/// cannot be compared against every reference is excluded rather than
/// failing the search.
pub open spec fn scored_seq(cands: Seq<(Seq<char>, Seq<u8>)>, refs: Seq<Seq<u8>>) -> Seq<
    (Seq<char>, int),
>
    decreases cands.len(),
{
    if cands.len() == 0 {
        Seq::empty()
    } else if comparable(cands.last().1, refs) {
        scored_seq(cands.drop_last(), refs).push(
            (cands.last().0, best_score(cands.last().1, refs)),
        )
    } else {
        scored_seq(cands.drop_last(), refs)
    }
}

/// A rank key: a candidate's position in the scored list and its score.
/// One key beats another when its score is higher, or equal and earlier.
pub open spec fn ranks_before(a: (int, int), b: (int, int)) -> bool {
    a.1 > b.1 || (a.1 == b.1 && a.0 < b.0)
}

/// Inserts a key behind every key that beats it and before the rest.
pub open spec fn rank_inserted(x: (int, int), s: Seq<(int, int)>) -> Seq<(int, int)>
    decreases s.len(),
{
    if s.len() == 0 {
        seq![x]
    } else if ranks_before(s[0], x) {
        seq![s[0]] + rank_inserted(x, s.drop_first())
    } else {
        seq![x] + s
    }
}

/// The keys sorted best-first, by repeated insertion.
pub open spec fn rank_sorted(s: Seq<(int, int)>) -> Seq<(int, int)>
    decreases s.len(),
{
    if s.len() == 0 {
        s
    } else {
        rank_inserted(s.last(), rank_sorted(s.drop_last()))
    }
}

/// Whether keys come best-first: no key beats an earlier one.
pub open spec fn rank_ordered(s: Seq<(int, int)>) -> bool {
    forall|i: int, j: int| 0 <= i < j < s.len() ==> !ranks_before(s[j], s[i])
}

/// The keys of a scored list: each position paired with its score.
pub open spec fn keys_of(scored: Seq<(Seq<char>, int)>) -> Seq<(int, int)> {
    Seq::new(scored.len(), |i: int| (i, scored[i].1))
}

/// Keeps, in order, the keys that meet the threshold, at most `budget`
/// of them.
pub open spec fn selected_keys(s: Seq<(int, int)>, budget: int) -> Seq<(int, int)>
    decreases s.len(),
{
    if s.len() == 0 || budget <= 0 {
        Seq::empty()
    } else if s[0].1 >= SIMILARITY_THRESHOLD {
        seq![s[0]] + selected_keys(s.drop_first(), budget - 1)
    } else {
        selected_keys(s.drop_first(), budget)
    }
}

/// The ranked selection of a scored list: its keys sorted best-first,
/// filtered to the threshold, capped at the result limit.
pub open spec fn ranked_selection(scored: Seq<(Seq<char>, int)>) -> Seq<(int, int)> {
    selected_keys(rank_sorted(keys_of(scored)), MAX_RESULTS as int)
}

/// Where `rank_inserted` places its key.
pub open spec fn rank_insert_pos(x: (int, int), s: Seq<(int, int)>) -> int
    decreases s.len(),
{
    if s.len() == 0 {
        0
    } else if ranks_before(s[0], x) {
        1 + rank_insert_pos(x, s.drop_first())
    } else {
        0
    }
}

/// `rank_inserted` splits the sequence at `rank_insert_pos` and puts the
/// key between the halves.
pub proof fn lemma_rank_inserted_split(x: (int, int), s: Seq<(int, int)>)
    ensures
        0 <= rank_insert_pos(x, s) <= s.len(),
        rank_inserted(x, s) == s.take(rank_insert_pos(x, s)) + seq![x] + s.skip(
            rank_insert_pos(x, s),
        ),
        forall|j: int| 0 <= j < rank_insert_pos(x, s) ==> ranks_before(s[j], x),
        rank_insert_pos(x, s) < s.len() ==> !ranks_before(s[rank_insert_pos(x, s)], x),
    decreases s.len(),
{
    if s.len() == 0 {
        assert(rank_inserted(x, s) =~= s.take(0) + seq![x] + s.skip(0));
    } else if ranks_before(s[0], x) {
        lemma_rank_inserted_split(x, s.drop_first());
        let k = rank_insert_pos(x, s);
        assert(s.drop_first().take(k - 1) =~= s.take(k).drop_first());
        assert(s.drop_first().skip(k - 1) =~= s.skip(k));
        assert(seq![s[0]] + (s.drop_first().take(k - 1) + seq![x] + s.drop_first().skip(k - 1))
            =~= s.take(k) + seq![x] + s.skip(k));
        assert(forall|j: int| 1 <= j < k ==> s[j] == s.drop_first()[j - 1]);
    } else {
        assert(rank_inserted(x, s) =~= s.take(0) + seq![x] + s.skip(0));
    }
}

/// Inserting into a best-first sequence keeps it best-first.
pub proof fn lemma_rank_inserted_ordered(x: (int, int), s: Seq<(int, int)>)
    requires
        rank_ordered(s),
    ensures
        rank_ordered(rank_inserted(x, s)),
{
    lemma_rank_inserted_split(x, s);
    let k = rank_insert_pos(x, s);
    let t = rank_inserted(x, s);
    assert forall|i: int, j: int| 0 <= i < j < t.len() implies !ranks_before(t[j], t[i]) by {
        if i < k && j == k {
        } else if i == k && j > k + 1 {
            assert(!ranks_before(s[j - 1], s[k]));
        } else {
        }
    }
}

/// Every key of the sorted sequence is valid for the scored list it was
/// drawn from: in range and carrying that candidate's score.
pub open spec fn keys_valid(s: Seq<(int, int)>, scored: Seq<(Seq<char>, int)>) -> bool {
    forall|k: int|
        0 <= k < s.len() ==> 0 <= #[trigger] s[k].0 < scored.len() && s[k].1 == scored[s[k].0].1
}

proof fn lemma_rank_inserted_valid(x: (int, int), s: Seq<(int, int)>, scored: Seq<(Seq<char>, int)>)
    requires
        keys_valid(s, scored),
        0 <= x.0 < scored.len(),
        x.1 == scored[x.0].1,
    ensures
        keys_valid(rank_inserted(x, s), scored),
{
    lemma_rank_inserted_split(x, s);
    let k = rank_insert_pos(x, s);
    let t = rank_inserted(x, s);
    assert forall|m: int| 0 <= m < t.len() implies 0 <= #[trigger] t[m].0 < scored.len() && t[m].1
        == scored[t[m].0].1 by {
        if m < k {
            assert(t[m] == s[m]);
        } else if m == k {
        } else {
            assert(t[m] == s[m - 1]);
        }
    }
}

/// No two keys point at the same candidate.
pub open spec fn keys_distinct(s: Seq<(int, int)>) -> bool {
    forall|i: int, j: int| 0 <= i < j < s.len() ==> s[i].0 != s[j].0
}

/// Sorting the keys yields a best-first sequence of the same length
/// whose keys all stay valid.
pub proof fn lemma_rank_sorted_basic(s: Seq<(int, int)>, scored: Seq<(Seq<char>, int)>)
    requires
        keys_valid(s, scored),
    ensures
        rank_sorted(s).len() == s.len(),
        rank_ordered(rank_sorted(s)),
        keys_valid(rank_sorted(s), scored),
    decreases s.len(),
{
    if s.len() > 0 {
        assert(keys_valid(s.drop_last(), scored));
        lemma_rank_sorted_basic(s.drop_last(), scored);
        lemma_rank_inserted_ordered(s.last(), rank_sorted(s.drop_last()));
        lemma_rank_inserted_valid(s.last(), rank_sorted(s.drop_last()), scored);
        lemma_rank_inserted_split(s.last(), rank_sorted(s.drop_last()));
    }
}

/// Every sorted key was among the input keys.
pub proof fn lemma_rank_sorted_fwd(s: Seq<(int, int)>)
    ensures
        rank_sorted(s).len() == s.len(),
        forall|k: int|
            0 <= k < rank_sorted(s).len() ==> exists|m: int|
                0 <= m < s.len() && s[m] == #[trigger] rank_sorted(s)[k],
    decreases s.len(),
{
    if s.len() > 0 {
        lemma_rank_sorted_fwd(s.drop_last());
        let prev = rank_sorted(s.drop_last());
        let x = s.last();
        lemma_rank_inserted_split(x, prev);
        let k = rank_insert_pos(x, prev);
        let t = rank_sorted(s);
        assert forall|m: int| 0 <= m < t.len() implies exists|w: int|
            0 <= w < s.len() && s[w] == #[trigger] t[m] by {
            if m < k {
                assert(t[m] == prev[m]);
                let w0 = choose|w0: int| 0 <= w0 < s.drop_last().len() && s.drop_last()[w0]
                    == prev[m];
                assert(s[w0] == t[m]);
            } else if m == k {
                assert(t[m] == s[s.len() - 1]);
            } else {
                assert(t[m] == prev[m - 1]);
                let w0 = choose|w0: int| 0 <= w0 < s.drop_last().len() && s.drop_last()[w0]
                    == prev[m - 1];
                assert(s[w0] == t[m]);
            }
        }
    }
}

/// Every input key appears among the sorted keys.
pub proof fn lemma_rank_sorted_rev(s: Seq<(int, int)>)
    ensures
        rank_sorted(s).len() == s.len(),
        forall|m: int|
            0 <= m < s.len() ==> exists|k: int|
                0 <= k < rank_sorted(s).len() && rank_sorted(s)[k] == #[trigger] s[m],
    decreases s.len(),
{
    if s.len() > 0 {
        lemma_rank_sorted_rev(s.drop_last());
        let prev = rank_sorted(s.drop_last());
        let x = s.last();
        lemma_rank_inserted_split(x, prev);
        let k = rank_insert_pos(x, prev);
        let t = rank_sorted(s);
        assert forall|m: int| 0 <= m < s.len() implies exists|w: int|
            0 <= w < t.len() && t[w] == #[trigger] s[m] by {
            if m == s.len() - 1 {
                assert(t[k] == s[m]);
            } else {
                assert(s.drop_last()[m] == s[m]);
                let k0 = choose|k0: int| 0 <= k0 < prev.len() && prev[k0] == s.drop_last()[m];
                if k0 < k {
                    assert(t[k0] == prev[k0]);
                } else {
                    assert(t[k0 + 1] == prev[k0]);
                }
            }
        }
    }
}

/// Sorting keeps distinct keys distinct.
pub proof fn lemma_rank_sorted_distinct(s: Seq<(int, int)>)
    requires
        keys_distinct(s),
    ensures
        rank_sorted(s).len() == s.len(),
        keys_distinct(rank_sorted(s)),
    decreases s.len(),
{
    if s.len() > 0 {
        assert(keys_distinct(s.drop_last()));
        lemma_rank_sorted_distinct(s.drop_last());
        lemma_rank_sorted_fwd(s.drop_last());
        let prev = rank_sorted(s.drop_last());
        let x = s.last();
        lemma_rank_inserted_split(x, prev);
        let k = rank_insert_pos(x, prev);
        let t = rank_sorted(s);
        assert forall|i: int, j: int| 0 <= i < j < t.len() implies t[i].0 != t[j].0 by {
            if i != k && j != k {
                let pi = if i < k {
                    i
                } else {
                    i - 1
                };
                let pj = if j < k {
                    j
                } else {
                    j - 1
                };
                assert(t[i] == prev[pi] && t[j] == prev[pj]);
            } else {
                // one of the two is the key inserted last; its candidate
                // position is absent from every earlier key
                let other = if i == k {
                    j
                } else {
                    i
                };
                let po = if other < k {
                    other
                } else {
                    other - 1
                };
                assert(t[other] == prev[po]);
                let w0 = choose|w0: int| 0 <= w0 < s.drop_last().len() && s.drop_last()[w0]
                    == prev[po];
                assert(s[w0].0 != s[s.len() - 1].0);
            }
        }
    }
}

/// Sorting the keys yields a best-first, valid, distinct permutation.
pub proof fn lemma_rank_sorted_ensures(s: Seq<(int, int)>, scored: Seq<(Seq<char>, int)>)
    requires
        keys_valid(s, scored),
        keys_distinct(s),
    ensures
        rank_sorted(s).len() == s.len(),
        rank_ordered(rank_sorted(s)),
        keys_valid(rank_sorted(s), scored),
        keys_distinct(rank_sorted(s)),
        forall|k: int|
            0 <= k < rank_sorted(s).len() ==> exists|m: int|
                0 <= m < s.len() && s[m] == #[trigger] rank_sorted(s)[k],
        forall|m: int|
            0 <= m < s.len() ==> exists|k: int|
                0 <= k < rank_sorted(s).len() && rank_sorted(s)[k] == #[trigger] s[m],
{
    lemma_rank_sorted_basic(s, scored);
    lemma_rank_sorted_fwd(s);
    lemma_rank_sorted_rev(s);
    lemma_rank_sorted_distinct(s);
}

/// What selection keeps: at most `budget` keys, each meeting the
/// threshold, each an element of the input; a best-first input yields a
/// best-first selection.
pub proof fn lemma_selected_keys_props(s: Seq<(int, int)>, budget: int)
    ensures
        selected_keys(s, budget).len() <= (if budget >= 0 {
            budget
        } else {
            0
        }),
        forall|k: int|
            0 <= k < selected_keys(s, budget).len() ==> #[trigger] selected_keys(s, budget)[k].1
                >= SIMILARITY_THRESHOLD,
        forall|k: int|
            0 <= k < selected_keys(s, budget).len() ==> exists|m: int|
                0 <= m < s.len() && s[m] == #[trigger] selected_keys(s, budget)[k],
        rank_ordered(s) ==> rank_ordered(selected_keys(s, budget)),
        keys_distinct(s) ==> keys_distinct(selected_keys(s, budget)),
        selected_keys(s, budget).len() <= s.len(),
    decreases s.len(),
{
    if s.len() == 0 || budget <= 0 {
    } else {
        lemma_selected_keys_props(s.drop_first(), budget - 1);
        lemma_selected_keys_props(s.drop_first(), budget);
        let sel = selected_keys(s, budget);
        if s[0].1 >= SIMILARITY_THRESHOLD {
            let rest = selected_keys(s.drop_first(), budget - 1);
            assert forall|k: int| 0 <= k < sel.len() implies exists|m: int|
                0 <= m < s.len() && s[m] == #[trigger] sel[k] by {
                if k == 0 {
                    assert(s[0] == sel[0]);
                } else {
                    let m0 = choose|m0: int|
                        0 <= m0 < s.drop_first().len() && s.drop_first()[m0] == rest[k - 1];
                    assert(s[m0 + 1] == sel[k]);
                }
            }
            if rank_ordered(s) {
                assert(rank_ordered(s.drop_first())) by {
                    assert(forall|i: int, j: int|
                        0 <= i < j < s.drop_first().len() ==> s.drop_first()[i] == s[i + 1]
                            && s.drop_first()[j] == s[j + 1]);
                }
                assert forall|i: int, j: int| 0 <= i < j < sel.len() implies !ranks_before(
                    sel[j],
                    sel[i],
                ) by {
                    if i == 0 {
                        let m0 = choose|m0: int|
                            0 <= m0 < s.drop_first().len() && s.drop_first()[m0] == rest[j - 1];
                        assert(s[m0 + 1] == sel[j]);
                        assert(!ranks_before(s[m0 + 1], s[0]));
                    }
                }
            }
            if keys_distinct(s) {
                assert(keys_distinct(s.drop_first())) by {
                    assert(forall|i: int, j: int|
                        0 <= i < j < s.drop_first().len() ==> s.drop_first()[i] == s[i + 1]
                            && s.drop_first()[j] == s[j + 1]);
                }
                assert forall|i: int, j: int| 0 <= i < j < sel.len() implies sel[i].0
                    != sel[j].0 by {
                    if i == 0 {
                        let m0 = choose|m0: int|
                            0 <= m0 < s.drop_first().len() && s.drop_first()[m0] == rest[j - 1];
                        assert(s[m0 + 1] == sel[j]);
                        assert(s[0].0 != s[m0 + 1].0);
                    }
                }
            }
        } else {
            assert forall|k: int| 0 <= k < sel.len() implies exists|m: int|
                0 <= m < s.len() && s[m] == #[trigger] sel[k] by {
                let m0 = choose|m0: int|
                    0 <= m0 < s.drop_first().len() && s.drop_first()[m0] == sel[k];
                assert(s[m0 + 1] == sel[k]);
            }
            if rank_ordered(s) {
                assert(rank_ordered(s.drop_first())) by {
                    assert(forall|i: int, j: int|
                        0 <= i < j < s.drop_first().len() ==> s.drop_first()[i] == s[i + 1]
                            && s.drop_first()[j] == s[j + 1]);
                }
            }
            if keys_distinct(s) {
                assert(keys_distinct(s.drop_first())) by {
                    assert(forall|i: int, j: int|
                        0 <= i < j < s.drop_first().len() ==> s.drop_first()[i] == s[i + 1]
                            && s.drop_first()[j] == s[j + 1]);
                }
            }
        }
    }
}

/// The keys at or above the threshold, in order.
pub open spec fn eligible_keys(s: Seq<(int, int)>) -> Seq<(int, int)>
    decreases s.len(),
{
    if s.len() == 0 {
        s
    } else if s[0].1 >= SIMILARITY_THRESHOLD {
        seq![s[0]] + eligible_keys(s.drop_first())
    } else {
        eligible_keys(s.drop_first())
    }
}

/// Selection keeps exactly the first `budget` eligible keys.
pub proof fn lemma_selected_keys_eligible(s: Seq<(int, int)>, budget: int)
    requires
        budget >= 0,
    ensures
        selected_keys(s, budget) == (if eligible_keys(s).len() <= budget {
            eligible_keys(s)
        } else {
            eligible_keys(s).take(budget)
        }),
    decreases s.len(),
{
    if s.len() == 0 {
    } else if s[0].1 >= SIMILARITY_THRESHOLD {
        if budget == 0 {
            assert(eligible_keys(s).take(0) =~= Seq::<(int, int)>::empty());
        } else {
            lemma_selected_keys_eligible(s.drop_first(), budget - 1);
            let e = eligible_keys(s.drop_first());
            if e.len() > budget - 1 {
                assert((seq![s[0]] + e).take(budget) =~= seq![s[0]] + e.take(budget - 1));
            }
        }
    } else {
        lemma_selected_keys_eligible(s.drop_first(), budget);
    }
}

/// The cap in full: the result keys are exactly the eligible keys of
/// the rank-sorted list, in order, up to the first ten.  A candidate at
/// the threshold is left out only when ten eligible keys rank before it.
pub proof fn lemma_selection_is_capped_eligible(scored: Seq<(Seq<char>, int)>)
    ensures
        ranked_selection(scored) == (if eligible_keys(rank_sorted(keys_of(scored))).len()
            <= MAX_RESULTS {
            eligible_keys(rank_sorted(keys_of(scored)))
        } else {
            eligible_keys(rank_sorted(keys_of(scored))).take(MAX_RESULTS as int)
        }),
{
    lemma_selected_keys_eligible(rank_sorted(keys_of(scored)), MAX_RESULTS as int);
}

/// While the cap is not reached, every key at the threshold is kept: a
/// selection shorter than the budget misses nothing eligible.
pub proof fn lemma_selected_keys_complete(s: Seq<(int, int)>, budget: int)
    requires
        selected_keys(s, budget).len() < budget,
    ensures
        forall|m: int|
            0 <= m < s.len() && #[trigger] s[m].1 >= SIMILARITY_THRESHOLD ==> exists|k: int|
                0 <= k < selected_keys(s, budget).len() && selected_keys(s, budget)[k] == s[m],
    decreases s.len(),
{
    if s.len() == 0 || budget <= 0 {
    } else {
        let sel = selected_keys(s, budget);
        if s[0].1 >= SIMILARITY_THRESHOLD {
            let rest = selected_keys(s.drop_first(), budget - 1);
            lemma_selected_keys_complete(s.drop_first(), budget - 1);
            assert forall|m: int|
                0 <= m < s.len() && #[trigger] s[m].1 >= SIMILARITY_THRESHOLD implies exists|
                k: int,
            | 0 <= k < sel.len() && sel[k] == s[m] by {
                if m == 0 {
                    assert(sel[0] == s[0]);
                } else {
                    assert(s.drop_first()[m - 1] == s[m]);
                    let k0 = choose|k0: int| 0 <= k0 < rest.len() && rest[k0] == s.drop_first()[m
                        - 1];
                    assert(sel[k0 + 1] == s[m]);
                }
            }
        } else {
            lemma_selected_keys_complete(s.drop_first(), budget);
            let rest = selected_keys(s.drop_first(), budget);
            assert forall|m: int|
                0 <= m < s.len() && #[trigger] s[m].1 >= SIMILARITY_THRESHOLD implies exists|
                k: int,
            | 0 <= k < sel.len() && sel[k] == s[m] by {
                if m > 0 {
                    assert(s.drop_first()[m - 1] == s[m]);
                }
            }
        }
    }
}

/// The result set of a search: never more than ten hits, every hit at
/// the threshold with the score of the candidate it points at, in
/// descending score order with ties kept in scan order.
pub proof fn lemma_ranked_selection_properties(scored: Seq<(Seq<char>, int)>)
    ensures
        ranked_selection(scored).len() <= MAX_RESULTS,
        keys_valid(ranked_selection(scored), scored),
        forall|k: int|
            0 <= k < ranked_selection(scored).len() ==> #[trigger] ranked_selection(scored)[k].1
                >= SIMILARITY_THRESHOLD,
        forall|i: int, j: int|
            0 <= i < j < ranked_selection(scored).len() ==> ranked_selection(scored)[i].1
                >= ranked_selection(scored)[j].1,
        forall|i: int, j: int|
            0 <= i < j < ranked_selection(scored).len() && ranked_selection(scored)[i].1
                == ranked_selection(scored)[j].1 ==> ranked_selection(scored)[i].0
                < ranked_selection(scored)[j].0,
{
    let keys = keys_of(scored);
    assert(keys_valid(keys, scored));
    assert(keys_distinct(keys));
    lemma_rank_sorted_ensures(keys, scored);
    let sorted = rank_sorted(keys);
    lemma_selected_keys_props(sorted, MAX_RESULTS as int);
    let sel = ranked_selection(scored);
    assert forall|k: int| 0 <= k < sel.len() implies 0 <= #[trigger] sel[k].0 < scored.len()
        && sel[k].1 == scored[sel[k].0].1 by {
        let m = choose|m: int| 0 <= m < sorted.len() && sorted[m] == sel[k];
    }
    assert forall|i: int, j: int| 0 <= i < j < sel.len() implies sel[i].1 >= sel[j].1 && (sel[i].1
        == sel[j].1 ==> sel[i].0 < sel[j].0) by {
        assert(!ranks_before(sel[j], sel[i]));
        assert(sel[i].0 != sel[j].0);
    }
}

/// Against a single comparable reference, the best score is that
/// reference's similarity: the distance subtracted from 100.
pub proof fn lemma_best_score_single(fp: Seq<u8>, r: Seq<u8>)
    requires
        fp.len() == r.len(),
        fp.len() <= MAX_COMPARABLE_BYTES,
    ensures
        best_score(fp, seq![r]) == 100 - hamming(fp, r),
{
    assert(seq![r].drop_last() =~= Seq::<Seq<u8>>::empty());
    assert(best_score(fp, Seq::<Seq<u8>>::empty()) == 0);
    crate::fingerprint::lemma_hamming_bounds(fp, r);
}

/// With fewer candidates than the result cap, a candidate is reported
/// exactly when its score meets the threshold.
pub proof fn lemma_threshold_membership(scored: Seq<(Seq<char>, int)>)
    requires
        scored.len() < MAX_RESULTS,
    ensures
        forall|m: int|
            0 <= m < scored.len() ==> ((exists|k: int|
                0 <= k < ranked_selection(scored).len() && #[trigger] ranked_selection(
                    scored,
                )[k].0 == m) <==> scored[m].1 >= SIMILARITY_THRESHOLD),
{
    let keys = keys_of(scored);
    assert(keys_valid(keys, scored));
    assert(keys_distinct(keys));
    lemma_rank_sorted_ensures(keys, scored);
    let sorted = rank_sorted(keys);
    lemma_selected_keys_props(sorted, MAX_RESULTS as int);
    let sel = ranked_selection(scored);
    assert(sel.len() <= sorted.len() < MAX_RESULTS);
    lemma_selected_keys_complete(sorted, MAX_RESULTS as int);
    assert forall|m: int| 0 <= m < scored.len() implies ((exists|k: int|
        0 <= k < sel.len() && #[trigger] sel[k].0 == m) <==> scored[m].1
        >= SIMILARITY_THRESHOLD) by {
        if scored[m].1 >= SIMILARITY_THRESHOLD {
            // the key of candidate m sits somewhere in the sorted keys,
            // and under the cap nothing eligible is dropped
            assert(keys[m] == (m, scored[m].1));
            let w = choose|w: int| 0 <= w < sorted.len() && sorted[w] == keys[m];
            assert(sorted[w].1 >= SIMILARITY_THRESHOLD);
            let k = choose|k: int| 0 <= k < sel.len() && sel[k] == sorted[w];
            assert(sel[k].0 == m);
        } else {
            if exists|k: int| 0 <= k < sel.len() && #[trigger] sel[k].0 == m {
                let k = choose|k: int| 0 <= k < sel.len() && sel[k].0 == m;
                let w0 = choose|w0: int| 0 <= w0 < sorted.len() && sorted[w0] == sel[k];
                assert(sorted[w0].1 == scored[sorted[w0].0].1);
                assert(sel[k].1 == scored[m].1);
                assert(sel[k].1 >= SIMILARITY_THRESHOLD);
            }
        }
    }
}

/// The smallest Hamming distance from a fingerprint to any of the
/// references.
pub open spec fn min_distance(fp: Seq<u8>, refs: Seq<Seq<u8>>) -> int
    recommends
        refs.len() > 0,
    decreases refs.len(),
{
    if refs.len() <= 1 {
        hamming(fp, refs.last())
    } else {
        let rest = min_distance(fp, refs.drop_last());
        let d = hamming(fp, refs.last());
        if d < rest {
            d
        } else {
            rest
        }
    }
}

/// Against any comparable reference set, the best score is the smallest
/// Hamming distance subtracted from 100.
pub proof fn lemma_best_score_is_min_distance(fp: Seq<u8>, refs: Seq<Seq<u8>>)
    requires
        refs.len() > 0,
        comparable(fp, refs),
    ensures
        best_score(fp, refs) == 100 - min_distance(fp, refs),
    decreases refs.len(),
{
    crate::fingerprint::lemma_hamming_bounds(fp, refs.last());
    if refs.len() == 1 {
        assert(refs.drop_last() =~= Seq::<Seq<u8>>::empty());
        assert(best_score(fp, Seq::<Seq<u8>>::empty()) == 0);
    } else {
        assert(comparable(fp, refs.drop_last())) by {
            assert(forall|j: int|
                0 <= j < refs.drop_last().len() ==> refs.drop_last()[j] == refs[j]);
        }
        lemma_best_score_is_min_distance(fp, refs.drop_last());
    }
}

/// The views of a sequence of fingerprints.
pub open spec fn fp_views(s: Seq<Fingerprint>) -> Seq<Seq<u8>> {
    s.map_values(|f: Fingerprint| f@)
}

/// The views of scored candidates.
pub open spec fn scored_views(s: Seq<(String, u32)>) -> Seq<(Seq<char>, int)> {
    s.map_values(|t: (String, u32)| (t.0@, t.1 as int))
}

/// The views of rank keys.
pub open spec fn key_views(s: Seq<(usize, u32)>) -> Seq<(int, int)> {
    s.map_values(|t: (usize, u32)| (t.0 as int, t.1 as int))
}

/// Whether a result sequence is exactly the ranked selection of a scored
/// list: one hit per selected key, in order, with its path and score and
/// fresh deletion state.
pub open spec fn results_match(results: Seq<SimilarImage>, scored: Seq<(Seq<char>, int)>) -> bool {
    let sel = ranked_selection(scored);
    results.len() == sel.len() && forall|k: int|
        0 <= k < results.len() ==> #[trigger] results[k].filepath@ == scored[sel[k].0].0
            && results[k].similarity == sel[k].1 && results[k].is_deleted == false
            && results[k].error_message is None
}

/// The best similarity of a candidate fingerprint over the references;
/// none when some reference has another bit length, or the fingerprint
/// is too long for the score scale.
pub fn best_similarity(fp: &Fingerprint, refs: &Vec<Fingerprint>) -> (r: Option<u32>)
    ensures
        comparable(fp@, fp_views(refs@)) ==> (r matches Some(s) && s == best_score(
            fp@,
            fp_views(refs@),
        )),
        !comparable(fp@, fp_views(refs@)) ==> r is None,
{
    if fp.byte_len() > MAX_COMPARABLE_BYTES {
        return None;
    }
    let ghost rv = fp_views(refs@);
    let mut acc: u32 = 0;
    let mut j: usize = 0;
    while j < refs.len()
        invariant
            fp@.len() <= MAX_COMPARABLE_BYTES,
            rv == fp_views(refs@),
            j <= refs@.len(),
            forall|m: int| 0 <= m < j ==> #[trigger] rv[m].len() == fp@.len(),
            acc == best_score(fp@, rv.take(j as int)),
        decreases refs@.len() - j,
    {
        proof {
            assert(rv.take(j as int + 1).drop_last() =~= rv.take(j as int));
            assert(rv.take(j as int + 1).last() == rv[j as int]);
        }
        match calculate_similarity(fp, &refs[j]) {
            Ok(s) => {
                if s > acc {
                    acc = s;
                }
            },
            Err(_) => {
                assert(fp@.len() != rv[j as int].len());
                return None;
            },
        }
        j = j + 1;
    }
    proof {
        assert(rv.take(refs@.len() as int) =~= rv);
    }
    Some(acc)
}

/// Scores every candidate against the references, keeping the best score
/// and the scan order; an incomparable candidate is left out.
pub fn score_candidates(candidates: &Vec<(String, Fingerprint)>, refs: &Vec<Fingerprint>) -> (r:
    Vec<(String, u32)>)
    ensures
        scored_views(r@) == scored_seq(sel_views(candidates@), fp_views(refs@)),
{
    let ghost cv = sel_views(candidates@);
    let ghost rv = fp_views(refs@);
    let mut out: Vec<(String, u32)> = Vec::new();
    let mut i: usize = 0;
    while i < candidates.len()
        invariant
            i <= candidates@.len(),
            cv == sel_views(candidates@),
            rv == fp_views(refs@),
            scored_views(out@) == scored_seq(cv.take(i as int), rv),
        decreases candidates@.len() - i,
    {
        proof {
            assert(cv.take(i as int + 1).drop_last() =~= cv.take(i as int));
            assert(cv.take(i as int + 1).last() == cv[i as int]);
            assert(cv[i as int] == (candidates@[i as int].0@, candidates@[i as int].1@));
        }
        match best_similarity(&candidates[i].1, refs) {
            Some(s) => {
                let ghost before = scored_views(out@);
                out.push((candidates[i].0.clone(), s));
                proof {
                    assert(scored_views(out@) =~= before.push((cv[i as int].0, s as int)));
                }
            },
            None => {},
        }
        i = i + 1;
    }
    proof {
        assert(cv.take(candidates@.len() as int) =~= cv);
    }
    out
}

/// Whether one rank key beats another.
fn beats(a: (usize, u32), b: (usize, u32)) -> (r: bool)
    ensures
        r == ranks_before((a.0 as int, a.1 as int), (b.0 as int, b.1 as int)),
{
    a.1 > b.1 || (a.1 == b.1 && a.0 < b.0)
}

proof fn lemma_rank_insert_pos_found(x: (int, int), s: Seq<(int, int)>, k: int)
    requires
        0 <= k <= s.len(),
        forall|j: int| 0 <= j < k ==> ranks_before(s[j], x),
        k < s.len() ==> !ranks_before(s[k], x),
    ensures
        rank_insert_pos(x, s) == k,
    decreases s.len(),
{
    if s.len() == 0 {
    } else if k == 0 {
    } else {
        assert(ranks_before(s[0], x));
        assert(forall|j: int| 0 <= j < k - 1 ==> s.drop_first()[j] == s[j + 1]);
        lemma_rank_insert_pos_found(x, s.drop_first(), k - 1);
    }
}

/// Sorts rank keys best-first by insertion.
fn sort_keys(keys: &Vec<(usize, u32)>) -> (r: Vec<(usize, u32)>)
    ensures
        key_views(r@) == rank_sorted(key_views(keys@)),
{
    let ghost all = key_views(keys@);
    let mut out: Vec<(usize, u32)> = Vec::new();
    let mut i: usize = 0;
    while i < keys.len()
        invariant
            i <= keys@.len(),
            all == key_views(keys@),
            key_views(out@) == rank_sorted(all.take(i as int)),
        decreases keys@.len() - i,
    {
        let x = keys[i];
        let ghost xv = (x.0 as int, x.1 as int);
        let mut k: usize = 0;
        while k < out.len() && beats(out[k], x)
            invariant
                k <= out@.len(),
                x == keys@[i as int],
                xv == (x.0 as int, x.1 as int),
                forall|j: int| 0 <= j < k ==> ranks_before(#[trigger] key_views(out@)[j], xv),
            decreases out@.len() - k,
        {
            k = k + 1;
        }
        proof {
            lemma_rank_insert_pos_found(xv, key_views(out@), k as int);
            lemma_rank_inserted_split(xv, key_views(out@));
        }
        let ghost before = key_views(out@);
        out.insert(k, x);
        proof {
            assert(key_views(out@) =~= before.take(k as int) + seq![xv] + before.skip(k as int));
            assert(all.take(i as int + 1).drop_last() =~= all.take(i as int));
            assert(all.take(i as int + 1).last() == xv);
        }
        i = i + 1;
    }
    proof {
        assert(all.take(keys@.len() as int) =~= all);
    }
    out
}

/// Ranks scored candidates: best scores first, ties in scan order,
/// filtered to the threshold and capped at the result limit; position in
/// the returned sequence is the hit's id.
#[verifier::rlimit(90)]
#[verifier::spinoff_prover]
pub fn rank_results(scored: &Vec<(String, u32)>) -> (r: Vec<SimilarImage>)
    ensures
        results_match(r@, scored_views(scored@)),
{
    let ghost sv = scored_views(scored@);
    let mut keys: Vec<(usize, u32)> = Vec::new();
    let mut i: usize = 0;
    while i < scored.len()
        invariant
            i <= scored@.len(),
            sv == scored_views(scored@),
            key_views(keys@) == keys_of(sv).take(i as int),
        decreases scored@.len() - i,
    {
        let ghost before = key_views(keys@);
        keys.push((i, scored[i].1));
        proof {
            assert(key_views(keys@) =~= before.push((i as int, sv[i as int].1)));
            assert(keys_of(sv).take(i as int + 1) =~= keys_of(sv).take(i as int).push(
                (i as int, sv[i as int].1),
            ));
        }
        i = i + 1;
    }
    proof {
        assert(keys_of(sv).take(scored@.len() as int) =~= keys_of(sv));
        assert(keys_valid(keys_of(sv), sv));
        assert(keys_distinct(keys_of(sv)));
        lemma_rank_sorted_ensures(keys_of(sv), sv);
    }
    let sorted = sort_keys(&keys);
    let ghost sortv = rank_sorted(keys_of(sv));
    let ghost sel = selected_keys(sortv, MAX_RESULTS as int);
    let mut out: Vec<SimilarImage> = Vec::new();
    let ghost mut taken: Seq<(int, int)> = Seq::empty();
    let mut j: usize = 0;
    proof {
        assert(sortv.skip(0) =~= sortv);
        assert(taken + selected_keys(sortv.skip(0), MAX_RESULTS as int) =~= sel);
    }
    while j < sorted.len()
        invariant
            j <= sorted@.len(),
            key_views(sorted@) == sortv,
            keys_valid(sortv, sv),
            sv == scored_views(scored@),
            out@.len() == taken.len(),
            out@.len() <= MAX_RESULTS,
            sel == taken + selected_keys(sortv.skip(j as int), MAX_RESULTS - out@.len()),
            forall|k: int|
                0 <= k < out@.len() ==> #[trigger] out@[k].filepath@ == sv[taken[k].0].0
                    && out@[k].similarity == taken[k].1 && out@[k].is_deleted == false
                    && out@[k].error_message is None,
            forall|k: int| 0 <= k < taken.len() ==> 0 <= #[trigger] taken[k].0 < sv.len(),
        decreases sorted@.len() - j,
    {
        proof {
            assert(sortv.skip(j as int).drop_first() =~= sortv.skip(j as int + 1));
            assert(sortv.skip(j as int)[0] == sortv[j as int]);
            assert(sortv[j as int] == (sorted@[j as int].0 as int, sorted@[j as int].1 as int));
        }
        let key = sorted[j];
        if key.1 >= SIMILARITY_THRESHOLD && out.len() < MAX_RESULTS {
            let idx = key.0;
            assert(idx < scored@.len());
            let ghost before = out@;
            out.push(
                SimilarImage {
                    filepath: scored[idx].0.clone(),
                    similarity: key.1,
                    is_deleted: false,
                    error_message: None,
                },
            );
            proof {
                let b = MAX_RESULTS - before.len();
                assert(selected_keys(sortv.skip(j as int), b) == seq![sortv[j as int]]
                    + selected_keys(sortv.skip(j as int + 1), b - 1));
                assert(taken + (seq![sortv[j as int]] + selected_keys(
                    sortv.skip(j as int + 1),
                    b - 1,
                )) =~= taken.push(sortv[j as int]) + selected_keys(sortv.skip(j as int + 1), b - 1));
                let tprev = taken;
                taken = taken.push(sortv[j as int]);
                assert(sv[idx as int].0 == scored@[idx as int].0@);
                assert forall|k: int| 0 <= k < out@.len() implies #[trigger] out@[k].filepath@
                    == sv[taken[k].0].0 && out@[k].similarity == taken[k].1 && out@[k].is_deleted
                    == false && out@[k].error_message is None by {
                    if k < out@.len() - 1 {
                        assert(out@[k] == before[k]);
                        assert(taken[k] == tprev[k]);
                    } else {
                        assert(taken[k] == sortv[j as int]);
                    }
                }
            }
        } else {
            proof {
                if key.1 >= SIMILARITY_THRESHOLD {
                    assert(selected_keys(sortv.skip(j as int), MAX_RESULTS - out@.len())
                        == Seq::<(int, int)>::empty());
                    assert(selected_keys(sortv.skip(j as int + 1), MAX_RESULTS - out@.len())
                        == Seq::<(int, int)>::empty());
                }
            }
        }
        j = j + 1;
    }
    proof {
        assert(sortv.skip(sorted@.len() as int) =~= Seq::<(int, int)>::empty());
        assert(selected_keys(Seq::empty(), MAX_RESULTS - out@.len()) == Seq::<(int, int)>::empty());
        assert(sel =~= taken);
        assert(ranked_selection(sv) == taken);
        lemma_results_match_from(out@, sv, taken);
    }
    out
}

/// Results that follow a key sequence equal to the ranked selection,
/// one hit per key, match that selection.
proof fn lemma_results_match_from(
    results: Seq<SimilarImage>,
    scored: Seq<(Seq<char>, int)>,
    taken: Seq<(int, int)>,
)
    requires
        ranked_selection(scored) == taken,
        results.len() == taken.len(),
        forall|k: int|
            0 <= k < results.len() ==> #[trigger] results[k].filepath@ == scored[taken[k].0].0
                && results[k].similarity == taken[k].1 && results[k].is_deleted == false
                && results[k].error_message is None,
    ensures
        results_match(results, scored),
{
}

/// Searches the candidates for near-duplicates of the registered
/// reference images.  An empty directory choice yields an empty result
/// set at once, whatever the store holds; with no reference registered
/// the search fails; otherwise every candidate is scored against every
/// reference and the ranked selection is returned, ids in rank order.
pub fn search_similar_images(
    selected_directory: &str,
    repo: &ReferenceImageRepository,
    candidates: &Vec<(String, Fingerprint)>,
) -> (r: Result<Vec<SimilarImage>, EngineError>)
    ensures
        selected_directory@.len() == 0 ==> (r matches Ok(v) && v@.len() == 0),
        selected_directory@.len() > 0 && repo@.len() == 0 ==> r == Err::<
            Vec<SimilarImage>,
            EngineError,
        >(EngineError::NoReferenceImages),
        selected_directory@.len() > 0 && repo@.len() > 0 ==> (r matches Ok(v) && results_match(
            v@,
            scored_seq(sel_views(candidates@), ref_hashes(repo@)),
        )),
{
    if selected_directory.is_empty() {
        return Ok(Vec::new());
    }
    let mut records = repo.find_all();
    if records.len() == 0 {
        return Err(EngineError::NoReferenceImages);
    }
    let ghost hashes = ref_hashes(repo@);
    let mut ref_fps: Vec<Fingerprint> = Vec::new();
    proof {
        assert(crate::store::record_views(records@) =~= repo@);
    }
    while records.len() > 0
        invariant
            hashes == ref_hashes(repo@),
            fp_views(ref_fps@) == hashes.take(hashes.len() - records@.len()),
            crate::store::record_views(records@) == repo@.skip(hashes.len() - records@.len()),
            records@.len() <= hashes.len(),
        decreases records@.len(),
    {
        let ghost consumed = hashes.len() - records@.len();
        let ghost prev = records@;
        proof {
            assert(crate::store::record_views(records@)[0] == repo@[consumed]);
        }
        let rec = records.remove(0);
        let ghost before = fp_views(ref_fps@);
        ref_fps.push(Fingerprint::from_bytes(rec.hash));
        proof {
            assert(fp_views(ref_fps@) =~= before.push(repo@[consumed].hash));
            assert(hashes.take(consumed + 1) =~= hashes.take(consumed).push(repo@[consumed].hash));
            assert forall|k: int| 0 <= k < records@.len() implies crate::store::record_views(
                records@,
            )[k] == repo@.skip(consumed + 1)[k] by {
                assert(records@[k] == prev[k + 1]);
                assert(crate::store::record_views(prev)[k + 1] == prev[k + 1]@);
                assert(crate::store::record_views(prev)[k + 1] == repo@.skip(consumed)[k + 1]);
            }
            assert(crate::store::record_views(records@) =~= repo@.skip(consumed + 1));
        }
    }
    proof {
        assert(fp_views(ref_fps@) =~= hashes);
    }
    let scored = score_candidates(candidates, &ref_fps);
    let results = rank_results(&scored);
    Ok(results)
}

} // verus!
