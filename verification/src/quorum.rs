//! Quorum resolution: which of the values reported by a set of peers, if any,
//! has enough support to be trusted.
//!
//! The candidate is the value reported most often. Among values reported
//! equally often, the one that was reported first wins: the tie-break is
//! "earliest seen", so the outcome never depends on how a collection happens
//! to order its items. A candidate that is not unanimous is accepted only if
//! its share of the reports, in whole percent rounded down, reaches the
//! threshold.

use crate::chain::{lemma_beacon_equality, CheckpointBeacon};
use std::hash::Hash;
use vstd::laws_eq::obeys_concrete_eq;
use vstd::prelude::*;
use vstd::std_specs::iter::IteratorSpec;

verus! {

/// How many times `v` occurs in `s`.
pub open spec fn occurrences<V>(s: Seq<V>, v: V) -> nat
    decreases s.len(),
{
    if s.len() == 0 {
        0
    } else {
        occurrences(s.drop_last(), v) + if s.last() == v {
            1nat
        } else {
            0nat
        }
    }
}

/// All reports carry the same value.
pub open spec fn unanimous<V>(s: Seq<V>) -> bool {
    forall|i: int, j: int|
        #![trigger s[i], s[j]]
        0 <= i < s.len() && 0 <= j < s.len() ==> s[i] == s[j]
}

/// `i` is the position of the candidate: no value is reported more often
/// than `s[i]`, and every value seen before position `i` is reported
/// strictly less often.
pub open spec fn is_candidate<V>(s: Seq<V>, i: int) -> bool {
    &&& 0 <= i < s.len()
    &&& forall|j: int|
        #![trigger s[j]]
        0 <= j < s.len() ==> occurrences(s, s[j]) <= occurrences(s, s[i])
    &&& forall|j: int| #![trigger s[j]] 0 <= j < i ==> occurrences(s, s[j]) < occurrences(s, s[i])
}

/// The position of the candidate in a non-empty sequence of reports.
pub open spec fn candidate_index<V>(s: Seq<V>) -> int {
    choose|i: int| is_candidate(s, i)
}

/// The share of `top` reports among `total`, in whole percent, rounded down.
pub open spec fn share_percent(top: nat, total: nat) -> int {
    (top * 100) as int / (total as int)
}

/// The value that the reports `s` agree on under `threshold`, if any.
pub open spec fn consensus<V>(s: Seq<V>, threshold: int) -> Option<V> {
    if s.len() == 0 {
        None
    } else {
        let i = candidate_index(s);
        let top = occurrences(s, s[i]);
        if !unanimous(s) && share_percent(top, s.len()) < threshold {
            None
        } else {
            Some(s[i])
        }
    }
}

/// A value occurs at most as often as there are reports, occurs in every
/// report exactly when the count equals the length, and occurs at all
/// exactly when the count is positive.
pub proof fn lemma_occurrences_bounds<V>(s: Seq<V>, v: V)
    ensures
        occurrences(s, v) <= s.len(),
        occurrences(s, v) == s.len() <==> (forall|i: int|
            #![trigger s[i]]
            0 <= i < s.len() ==> s[i] == v),
        occurrences(s, v) > 0 <==> s.contains(v),
    decreases s.len(),
{
    if s.len() > 0 {
        let t = s.drop_last();
        lemma_occurrences_bounds(t, v);
        assert forall|i: int| 0 <= i < t.len() implies #[trigger] t[i] == s[i] by {}
        if occurrences(s, v) == s.len() {
            assert(occurrences(t, v) == t.len());
            assert forall|i: int| #![trigger s[i]] 0 <= i < s.len() implies s[i] == v by {
                if i < t.len() {
                    assert(t[i] == v);
                }
            }
        }
        if forall|i: int| #![trigger s[i]] 0 <= i < s.len() ==> s[i] == v {
            assert forall|i: int| #![trigger t[i]] 0 <= i < t.len() implies t[i] == v by {
                assert(s[i] == v);
            }
            assert(s[s.len() - 1] == v);
        }
        if occurrences(s, v) > 0 {
            if s.last() == v {
                assert(s[s.len() - 1] == v);
            } else {
                assert(t.contains(v));
                let k = choose|k: int| 0 <= k < t.len() && t[k] == v;
                assert(s[k] == v);
            }
        }
        if s.contains(v) {
            let k = choose|k: int| 0 <= k < s.len() && s[k] == v;
            if k < t.len() {
                assert(t[k] == v);
            }
        }
    }
}

/// A sequence is unanimous exactly when its first value fills it.
pub proof fn lemma_unanimous_iff_full<V>(s: Seq<V>, i: int)
    requires
        0 <= i < s.len(),
    ensures
        unanimous(s) <==> occurrences(s, s[i]) == s.len(),
{
    lemma_occurrences_bounds(s, s[i]);
    if occurrences(s, s[i]) == s.len() {
        assert forall|a: int, b: int| #![trigger s[a], s[b]] 0 <= a < s.len() && 0 <= b < s.len()
            implies s[a] == s[b] by {
            assert(s[a] == s[i]);
            assert(s[b] == s[i]);
        }
    }
    if unanimous(s) {
        assert forall|k: int| #![trigger s[k]] 0 <= k < s.len() implies s[k] == s[i] by {}
    }
}

/// There is at most one candidate position.
pub proof fn lemma_candidate_unique<V>(s: Seq<V>, i: int, j: int)
    requires
        is_candidate(s, i),
        is_candidate(s, j),
    ensures
        i == j,
{
    if i < j {
        assert(occurrences(s, s[i]) < occurrences(s, s[j]));
        assert(occurrences(s, s[j]) <= occurrences(s, s[i]));
    } else if j < i {
        assert(occurrences(s, s[j]) < occurrences(s, s[i]));
        assert(occurrences(s, s[i]) <= occurrences(s, s[j]));
    }
}

/// A position that is the candidate among the first `k` reports only:
/// nothing before `k` is reported more often, nothing before the position
/// as often.
proof fn lemma_candidate_upto<V>(s: Seq<V>, k: int) -> (b: int)
    requires
        1 <= k <= s.len(),
    ensures
        0 <= b < k,
        forall|j: int| #![trigger s[j]] 0 <= j < k ==> occurrences(s, s[j]) <= occurrences(s, s[b]),
        forall|j: int| #![trigger s[j]] 0 <= j < b ==> occurrences(s, s[j]) < occurrences(s, s[b]),
    decreases k,
{
    if k == 1 {
        0
    } else {
        let prev = lemma_candidate_upto(s, k - 1);
        if occurrences(s, s[k - 1]) > occurrences(s, s[prev]) {
            k - 1
        } else {
            prev
        }
    }
}

/// Every non-empty sequence of reports has a candidate, and
/// [`candidate_index`] is its position.
pub proof fn lemma_candidate_exists<V>(s: Seq<V>)
    requires
        s.len() > 0,
    ensures
        is_candidate(s, candidate_index(s)),
{
    let b = lemma_candidate_upto(s, s.len() as int);
    assert(is_candidate(s, b));
}

/// Once the candidate's position is known, so is the outcome.
pub proof fn lemma_consensus_of_candidate<V>(s: Seq<V>, i: int, threshold: int)
    requires
        is_candidate(s, i),
    ensures
        consensus(s, threshold) == (if !unanimous(s) && share_percent(
            occurrences(s, s[i]),
            s.len(),
        ) < threshold {
            None
        } else {
            Some(s[i])
        }),
{
    lemma_candidate_unique(s, i, candidate_index(s));
}

/// Reports that all carry one value agree on it, whatever the threshold.
pub proof fn lemma_single_value_wins<V>(s: Seq<V>, threshold: int)
    requires
        s.len() > 0,
        unanimous(s),
    ensures
        consensus(s, threshold) == Some(s[0]),
{
    lemma_unanimous_iff_full(s, 0);
    assert forall|j: int| #![trigger s[j]] 0 <= j < s.len() implies occurrences(s, s[j])
        <= occurrences(s, s[0]) by {
        lemma_occurrences_bounds(s, s[j]);
    }
    assert(is_candidate(s, 0));
    lemma_consensus_of_candidate(s, 0, threshold);
}

/// Without reports there is no consensus, whatever the threshold.
pub proof fn lemma_no_reports_no_consensus<V>(s: Seq<V>, threshold: int)
    requires
        s.len() == 0,
    ensures
        consensus(s, threshold) is None,
{
}

/// An agreed value was reported, no value was reported more often, and
/// unless the reports are unanimous its share reaches the threshold.
pub proof fn lemma_consensus_sound<V>(s: Seq<V>, threshold: int, v: V)
    requires
        consensus(s, threshold) == Some(v),
    ensures
        s.contains(v),
        forall|w: V| occurrences(s, w) <= occurrences(s, v),
        unanimous(s) || share_percent(occurrences(s, v), s.len()) >= threshold,
{
    lemma_candidate_exists(s);
    let i = candidate_index(s);
    assert(s[i] == v);
    assert forall|w: V| occurrences(s, w) <= occurrences(s, v) by {
        lemma_occurrences_bounds(s, w);
        if occurrences(s, w) > 0 {
            let k = choose|k: int| 0 <= k < s.len() && s[k] == w;
            assert(occurrences(s, s[k]) <= occurrences(s, s[i]));
        }
    }
}

/// With a threshold of zero any report wins: some value is agreed on as
/// soon as there is a report.
pub proof fn lemma_zero_threshold_always_agrees<V>(s: Seq<V>, threshold: int)
    requires
        s.len() > 0,
        threshold <= 0,
    ensures
        consensus(s, threshold) is Some,
{
    lemma_candidate_exists(s);
    let i = candidate_index(s);
    let top = occurrences(s, s[i]);
    assert(share_percent(top, s.len()) >= 0) by (nonlinear_arith)
        requires
            s.len() > 0,
            top >= 0,
            share_percent(top, s.len()) == (top * 100) as int / (s.len() as int),
    ;
}

/// With a threshold of a hundred or more only unanimous reports agree.
pub proof fn lemma_full_threshold_needs_unanimity<V>(s: Seq<V>, threshold: int)
    requires
        threshold >= 100,
    ensures
        consensus(s, threshold) is Some <==> s.len() > 0 && unanimous(s),
{
    if s.len() > 0 {
        lemma_candidate_exists(s);
        let i = candidate_index(s);
        let top = occurrences(s, s[i]);
        lemma_occurrences_bounds(s, s[i]);
        lemma_unanimous_iff_full(s, i);
        if !unanimous(s) {
            assert(share_percent(top, s.len()) < 100) by (nonlinear_arith)
                requires
                    s.len() > 0,
                    0 <= top < s.len(),
                    share_percent(top, s.len()) == (top * 100) as int / (s.len() as int),
            ;
        }
    }
}

/// Collects what an iterator yields, in order.
fn collect_reports<I, V>(pb: I) -> (reports: Vec<V>) where I: Iterator<Item = V>
    requires
        pb.obeys_prophetic_iter_laws(),
        pb.decrease() is Some,
    ensures
        reports@ == pb.remaining(),
{
    let mut reports: Vec<V> = Vec::new();
    let mut rest = pb;
    loop
        invariant
            rest.obeys_prophetic_iter_laws(),
            rest.decrease() is Some,
            reports@ + rest.remaining() == pb.remaining(),
        decreases rest.decrease()->0,
    {
        match rest.next() {
            Some(report) => {
                reports.push(report);
            },
            None => {
                return reports;
            },
        }
    }
}

/// Counts the reports equal to the one at position `i`.
fn count_matching<V: Eq>(reports: &Vec<V>, i: usize) -> (count: usize)
    requires
        obeys_concrete_eq::<V>(),
        i < reports.len(),
    ensures
        count == occurrences(reports@, reports@[i as int]),
{
    let mut count: usize = 0;
    let mut k: usize = 0;
    while k < reports.len()
        invariant
            k <= reports.len(),
            i < reports.len(),
            count <= k,
            count == occurrences(reports@.take(k as int), reports@[i as int]),
            obeys_concrete_eq::<V>(),
        decreases reports.len() - k,
    {
        proof {
            reveal(obeys_concrete_eq);
            assert(reports@.take(k + 1).drop_last() == reports@.take(k as int));
        }
        if reports[k] == reports[i] {
            count = count + 1;
        }
        k = k + 1;
    }
    assert(reports@.take(k as int) == reports@);
    count
}

/// Decides which of `reports`, if any, has reached `threshold` percent.
///
/// Returns `None` for no reports at all. Otherwise the candidate is the
/// value reported most often, the earliest seen among equals. It is returned
/// if the reports are unanimous or if its share, `count * 100 / total`
/// rounded down, is at least `threshold`; else there is no consensus.
pub fn resolve<V: Eq>(reports: Vec<V>, threshold: usize) -> (res: Option<V>)
    requires
        obeys_concrete_eq::<V>(),
    ensures
        res == consensus(reports@, threshold as int),
{
    let mut reports = reports;
    let ghost s = reports@;
    let total = reports.len();
    if total == 0 {
        return None;
    }
    let mut best: usize = 0;
    let mut best_count: usize = count_matching(&reports, 0);
    let mut i: usize = 1;
    while i < total
        invariant
            obeys_concrete_eq::<V>(),
            reports@ == s,
            total == s.len(),
            1 <= i <= total,
            best < i,
            best_count == occurrences(s, s[best as int]),
            forall|j: int| #![trigger s[j]] 0 <= j < i ==> occurrences(s, s[j]) <= best_count,
            forall|j: int| #![trigger s[j]] 0 <= j < best ==> occurrences(s, s[j]) < best_count,
        decreases total - i,
    {
        let count = count_matching(&reports, i);
        if count > best_count {
            best = i;
            best_count = count;
        }
        i = i + 1;
    }
    proof {
        assert(is_candidate(s, best as int));
        lemma_candidate_unique(s, best as int, candidate_index(s));
        lemma_occurrences_bounds(s, s[best as int]);
        lemma_unanimous_iff_full(s, best as int);
    }
    let split = best_count < total;
    let share: u128 = (best_count as u128 * 100) / (total as u128);
    if split && share < threshold as u128 {
        None
    } else {
        Some(reports.swap_remove(best))
    }
}

/// Given a list of elements, return the most common one, provided it has
/// reached `threshold` percent of the list or is the only value in it.
///
/// The elements are taken in the order in which `pb` yields them; see
/// [`resolve`] for the rule.
pub fn mode_consensus<I, V>(pb: I, threshold: usize) -> (res: Option<V>) where
    I: Iterator<Item = V>,
    V: Eq + Hash,

    requires
        pb.obeys_prophetic_iter_laws(),
        pb.decrease() is Some,
        obeys_concrete_eq::<V>(),
    ensures
        res == consensus(pb.remaining(), threshold as int),
{
    let reports = collect_reports(pb);
    resolve(reports, threshold)
}

/// One observation from one peer: the chain tip that the peer reports.
#[derive(Clone, Copy, Debug, PartialEq, Eq, Hash)]
pub struct PeerReport {
    pub peer_id: u64,
    pub beacon: CheckpointBeacon,
}

/// The beacons that `reports` carry, in order.
pub open spec fn reported_beacons(reports: Seq<PeerReport>) -> Seq<CheckpointBeacon> {
    Seq::new(reports.len(), |i: int| reports[i].beacon)
}

/// Decides which chain tip the peers agree on, if any: [`resolve`] over the
/// beacons of `reports`, in the order of the reports.
pub fn resolve_reports(reports: &Vec<PeerReport>, threshold: usize) -> (res: Option<
    CheckpointBeacon,
>)
    ensures
        res == consensus(reported_beacons(reports@), threshold as int),
{
    let mut beacons: Vec<CheckpointBeacon> = Vec::new();
    let mut i: usize = 0;
    while i < reports.len()
        invariant
            i <= reports.len(),
            beacons@ == reported_beacons(reports@.take(i as int)),
        decreases reports.len() - i,
    {
        beacons.push(reports[i].beacon);
        i = i + 1;
        assert(beacons@ == reported_beacons(reports@.take(i as int)));
    }
    assert(reports@.take(i as int) == reports@);
    proof {
        lemma_beacon_equality();
    }
    resolve(beacons, threshold)
}

} // verus!
