//! The proximity ranking: a stable sort of customer entries by their
//! distance from the courier.
//!
//! Each entry carries a customer name and the distance from the courier's
//! position in kilometres, encoded as the bits of an IEEE 754 double. The
//! ranking orders entries ascending by `crate::distance_order::dist_le`;
//! entries at equal distance keep their input order, and entries whose
//! distance is not a number come last, in input order among themselves.

use vstd::prelude::*;

use crate::distance_order::{
    dist_eq, dist_le, distance_le, lemma_dist_le_total, lemma_dist_le_transitive,
};

verus! {

/// One ranked stop: the customer's name and the distance from the courier
/// in kilometres, encoded as the bits of an IEEE 754 double.
#[derive(Clone, Debug)]
pub struct ProximityEntry {
    pub name: String,
    pub distance_km_bits: u64,
}

/// The names of a sequence of entries, in order.
pub open spec fn name_seq(s: Seq<ProximityEntry>) -> Seq<Seq<char>> {
    s.map_values(|e: ProximityEntry| e.name@)
}

/// Holds of an entry whose distance ties with `d`.
pub open spec fn at_distance(d: u64) -> spec_fn(ProximityEntry) -> bool {
    |e: ProximityEntry| dist_eq(e.distance_km_bits, d)
}

/// The subsequence of entries whose distance ties with `d`, in order.
pub open spec fn ties(s: Seq<ProximityEntry>, d: u64) -> Seq<ProximityEntry> {
    s.filter(at_distance(d))
}

/// Every pair of entries is ordered by distance.
pub open spec fn sorted_by_distance(s: Seq<ProximityEntry>) -> bool {
    forall|i: int, j: int|
        0 <= i < j < s.len() ==> dist_le(
            #[trigger] s[i].distance_km_bits,
            #[trigger] s[j].distance_km_bits,
        )
}

/// Where a new entry lands in an already ranked sequence: after every entry
/// that precedes or ties with it, so that a later arrival never overtakes an
/// equal earlier one.
pub open spec fn insert_sorted(e: ProximityEntry, s: Seq<ProximityEntry>) -> Seq<ProximityEntry>
    decreases s.len(),
{
    if s.len() == 0 {
        seq![e]
    } else if dist_le(s.last().distance_km_bits, e.distance_km_bits) {
        s.push(e)
    } else {
        insert_sorted(e, s.drop_last()).push(s.last())
    }
}

/// The ranking of a sequence of entries: each entry, taken in input order,
/// inserted behind its ties — the stable sort by distance.
pub open spec fn sort_by_distance(s: Seq<ProximityEntry>) -> Seq<ProximityEntry>
    decreases s.len(),
{
    if s.len() == 0 {
        s
    } else {
        insert_sorted(s.last(), sort_by_distance(s.drop_last()))
    }
}

proof fn lemma_insert_sorted_len(e: ProximityEntry, s: Seq<ProximityEntry>)
    ensures
        insert_sorted(e, s).len() == s.len() + 1,
    decreases s.len(),
{
    if s.len() == 0 {
    } else if dist_le(s.last().distance_km_bits, e.distance_km_bits) {
    } else {
        lemma_insert_sorted_len(e, s.drop_last());
    }
}

proof fn lemma_insert_sorted_membership(e: ProximityEntry, s: Seq<ProximityEntry>)
    ensures
        forall|i: int|
            0 <= i < insert_sorted(e, s).len() ==> (#[trigger] insert_sorted(e, s)[i] == e
                || s.contains(insert_sorted(e, s)[i])),
    decreases s.len(),
{
    let r = insert_sorted(e, s);
    if s.len() == 0 {
        assert(r[0] == e);
    } else if dist_le(s.last().distance_km_bits, e.distance_km_bits) {
        assert forall|i: int| 0 <= i < r.len() implies (#[trigger] r[i] == e || s.contains(
            r[i],
        )) by {
            if i < s.len() {
                assert(r[i] == s[i]);
                assert(s.contains(s[i]));
            } else {
                assert(r[i] == e);
            }
        }
    } else {
        let dl = s.drop_last();
        let rr = insert_sorted(e, dl);
        lemma_insert_sorted_membership(e, dl);
        lemma_insert_sorted_len(e, dl);
        assert forall|i: int| 0 <= i < r.len() implies (#[trigger] r[i] == e || s.contains(
            r[i],
        )) by {
            if i < rr.len() {
                assert(r[i] == rr[i]);
                if rr[i] != e {
                    assert(dl.contains(rr[i]));
                    let idx = choose|idx: int| 0 <= idx < dl.len() && dl[idx] == rr[i];
                    assert(s[idx] == rr[i]);
                    assert(s.contains(rr[i]));
                }
            } else {
                assert(r[i] == s.last());
                assert(s.contains(s.last()));
            }
        }
    }
}

proof fn lemma_insert_sorted_sorted(e: ProximityEntry, s: Seq<ProximityEntry>)
    requires
        sorted_by_distance(s),
    ensures
        sorted_by_distance(insert_sorted(e, s)),
    decreases s.len(),
{
    let r = insert_sorted(e, s);
    if s.len() == 0 {
        assert(r.len() == 1);
    } else if dist_le(s.last().distance_km_bits, e.distance_km_bits) {
        assert forall|i: int, j: int| 0 <= i < j < r.len() implies dist_le(
            #[trigger] r[i].distance_km_bits,
            #[trigger] r[j].distance_km_bits,
        ) by {
            if j < s.len() {
                assert(r[i] == s[i] && r[j] == s[j]);
            } else {
                assert(r[j] == e && r[i] == s[i]);
                if i < s.len() - 1 {
                    assert(dist_le(
                        s[i].distance_km_bits,
                        s[s.len() - 1].distance_km_bits,
                    ));
                    lemma_dist_le_transitive(
                        s[i].distance_km_bits,
                        s[s.len() - 1].distance_km_bits,
                        e.distance_km_bits,
                    );
                }
            }
        }
    } else {
        let dl = s.drop_last();
        assert(sorted_by_distance(dl)) by {
            assert forall|i: int, j: int| 0 <= i < j < dl.len() implies dist_le(
                #[trigger] dl[i].distance_km_bits,
                #[trigger] dl[j].distance_km_bits,
            ) by {
                assert(dl[i] == s[i] && dl[j] == s[j]);
            }
        }
        lemma_insert_sorted_sorted(e, dl);
        let rr = insert_sorted(e, dl);
        lemma_insert_sorted_len(e, dl);
        lemma_insert_sorted_membership(e, dl);
        lemma_dist_le_total(s.last().distance_km_bits, e.distance_km_bits);
        assert forall|i: int, j: int| 0 <= i < j < r.len() implies dist_le(
            #[trigger] r[i].distance_km_bits,
            #[trigger] r[j].distance_km_bits,
        ) by {
            if j < rr.len() {
                assert(r[i] == rr[i] && r[j] == rr[j]);
            } else {
                assert(r[j] == s.last());
                assert(r[i] == rr[i]);
                if rr[i] == e {
                    assert(dist_le(e.distance_km_bits, s.last().distance_km_bits));
                } else {
                    assert(dl.contains(rr[i]));
                    let idx = choose|idx: int| 0 <= idx < dl.len() && dl[idx] == rr[i];
                    assert(s[idx] == rr[i]);
                    assert(dist_le(
                        s[idx].distance_km_bits,
                        s[s.len() - 1].distance_km_bits,
                    ));
                }
            }
        }
    }
}

proof fn lemma_insert_sorted_multiset(e: ProximityEntry, s: Seq<ProximityEntry>)
    ensures
        insert_sorted(e, s).to_multiset() == s.to_multiset().insert(e),
    decreases s.len(),
{
    broadcast use vstd::seq_lib::group_to_multiset_ensures;
    broadcast use vstd::multiset::group_multiset_axioms;

    if s.len() == 0 {
        assert(insert_sorted(e, s) =~= s.push(e));
    } else if dist_le(s.last().distance_km_bits, e.distance_km_bits) {
    } else {
        let dl = s.drop_last();
        lemma_insert_sorted_multiset(e, dl);
        assert(s =~= dl.push(s.last()));
        assert(s.to_multiset() == dl.to_multiset().insert(s.last()));
        assert(insert_sorted(e, s).to_multiset() == dl.to_multiset().insert(e).insert(s.last()));
        assert(dl.to_multiset().insert(e).insert(s.last()) =~= dl.to_multiset().insert(
            s.last(),
        ).insert(e));
    }
}

proof fn lemma_insert_sorted_names(e: ProximityEntry, s: Seq<ProximityEntry>)
    ensures
        name_seq(insert_sorted(e, s)).to_multiset() == name_seq(s).to_multiset().insert(e.name@),
    decreases s.len(),
{
    broadcast use vstd::seq_lib::group_to_multiset_ensures;
    broadcast use vstd::multiset::group_multiset_axioms;

    if s.len() == 0 {
        assert(name_seq(insert_sorted(e, s)) =~= name_seq(s).push(e.name@));
    } else if dist_le(s.last().distance_km_bits, e.distance_km_bits) {
        assert(name_seq(s.push(e)) =~= name_seq(s).push(e.name@));
    } else {
        let dl = s.drop_last();
        let rr = insert_sorted(e, dl);
        lemma_insert_sorted_names(e, dl);
        assert(name_seq(rr.push(s.last())) =~= name_seq(rr).push(s.last().name@));
        assert(name_seq(s) =~= name_seq(dl).push(s.last().name@));
        assert(name_seq(dl).to_multiset().insert(e.name@).insert(s.last().name@)
            =~= name_seq(dl).to_multiset().insert(s.last().name@).insert(e.name@));
    }
}

proof fn lemma_insert_sorted_ties(e: ProximityEntry, s: Seq<ProximityEntry>, d: u64)
    ensures
        ties(insert_sorted(e, s), d) == (if dist_eq(e.distance_km_bits, d) {
            ties(s, d).push(e)
        } else {
            ties(s, d)
        }),
    decreases s.len(),
{
    reveal(Seq::filter);
    if s.len() == 0 {
        assert(insert_sorted(e, s) =~= s.push(e));
        assert(s.push(e).drop_last() =~= s);
    } else if dist_le(s.last().distance_km_bits, e.distance_km_bits) {
        assert(s.push(e).drop_last() =~= s);
    } else {
        let dl = s.drop_last();
        let rr = insert_sorted(e, dl);
        lemma_insert_sorted_ties(e, dl, d);
        assert(insert_sorted(e, s) == rr.push(s.last()));
        assert(rr.push(s.last()).drop_last() =~= rr);
        if dist_eq(e.distance_km_bits, d) && dist_eq(s.last().distance_km_bits, d) {
            // both tie with d, so the last entry would precede e — against this branch
            lemma_dist_le_transitive(s.last().distance_km_bits, d, e.distance_km_bits);
            assert(false);
        }
    }
}

/// The ranking keeps the length of its input.
pub proof fn lemma_ranking_len(s: Seq<ProximityEntry>)
    ensures
        sort_by_distance(s).len() == s.len(),
    decreases s.len(),
{
    if s.len() > 0 {
        lemma_ranking_len(s.drop_last());
        lemma_insert_sorted_len(s.last(), sort_by_distance(s.drop_last()));
    }
}

/// The ranking is ordered: distances never decrease along it.
pub proof fn lemma_ranking_sorted(s: Seq<ProximityEntry>)
    ensures
        sorted_by_distance(sort_by_distance(s)),
    decreases s.len(),
{
    if s.len() > 0 {
        lemma_ranking_sorted(s.drop_last());
        lemma_insert_sorted_sorted(s.last(), sort_by_distance(s.drop_last()));
    }
}

/// The ranking is a permutation: it holds exactly the entries of its input.
pub proof fn lemma_ranking_permutes(s: Seq<ProximityEntry>)
    ensures
        sort_by_distance(s).to_multiset() == s.to_multiset(),
    decreases s.len(),
{
    broadcast use vstd::seq_lib::group_to_multiset_ensures;

    if s.len() > 0 {
        let dl = s.drop_last();
        lemma_ranking_permutes(dl);
        lemma_insert_sorted_multiset(s.last(), sort_by_distance(dl));
        assert(s =~= dl.push(s.last()));
    }
}

/// The ranking carries exactly the names of its input, one entry per input
/// entry.
pub proof fn lemma_ranking_names(s: Seq<ProximityEntry>)
    ensures
        name_seq(sort_by_distance(s)).to_multiset() == name_seq(s).to_multiset(),
    decreases s.len(),
{
    broadcast use vstd::seq_lib::group_to_multiset_ensures;

    if s.len() > 0 {
        let dl = s.drop_last();
        lemma_ranking_names(dl);
        lemma_insert_sorted_names(s.last(), sort_by_distance(dl));
        assert(name_seq(s) =~= name_seq(dl).push(s.last().name@));
    }
}

/// The ranking is stable: the entries tying with any one distance appear in
/// the ranking exactly as they appear in the input, in the same order.
pub proof fn lemma_ranking_stable(s: Seq<ProximityEntry>, d: u64)
    ensures
        ties(sort_by_distance(s), d) == ties(s, d),
    decreases s.len(),
{
    reveal(Seq::filter);
    if s.len() > 0 {
        let dl = s.drop_last();
        lemma_ranking_stable(dl, d);
        lemma_insert_sorted_ties(s.last(), sort_by_distance(dl), d);
    }
}

/// An empty input yields an empty ranking.
pub proof fn lemma_ranking_empty(s: Seq<ProximityEntry>)
    requires
        s.len() == 0,
    ensures
        sort_by_distance(s) == s,
{
}

fn insert_entry(ranked: &mut Vec<ProximityEntry>, e: ProximityEntry)
    ensures
        final(ranked)@ == insert_sorted(e, old(ranked)@),
{
    let mut j: usize = ranked.len();
    while j > 0 && !distance_le(ranked[j - 1].distance_km_bits, e.distance_km_bits)
        invariant
            j <= ranked@.len(),
            forall|m: int|
                j <= m < ranked@.len() ==> !dist_le(
                    #[trigger] ranked@[m].distance_km_bits,
                    e.distance_km_bits,
                ),
        decreases j,
    {
        j = j - 1;
    }
    proof {
        lemma_insert_sorted_splice(e, ranked@, j as int);
    }
    ranked.insert(j, e);
}

proof fn lemma_insert_sorted_splice(e: ProximityEntry, s: Seq<ProximityEntry>, j: int)
    requires
        0 <= j <= s.len(),
        forall|m: int|
            j <= m < s.len() ==> !dist_le(#[trigger] s[m].distance_km_bits, e.distance_km_bits),
        j > 0 ==> dist_le(s[j - 1].distance_km_bits, e.distance_km_bits),
    ensures
        insert_sorted(e, s) == s.insert(j, e),
    decreases s.len(),
{
    if s.len() == 0 {
        assert(insert_sorted(e, s) =~= s.insert(0, e));
    } else if dist_le(s.last().distance_km_bits, e.distance_km_bits) {
        assert(j == s.len());
        assert(s.push(e) =~= s.insert(j, e));
    } else {
        assert(j < s.len());
        let dl = s.drop_last();
        assert forall|m: int| j <= m < dl.len() implies !dist_le(
            #[trigger] dl[m].distance_km_bits,
            e.distance_km_bits,
        ) by {
            assert(dl[m] == s[m]);
        }
        lemma_insert_sorted_splice(e, dl, j);
        assert(insert_sorted(e, dl).push(s.last()) =~= s.insert(j, e));
    }
}

/// Ranks the given entries by ascending distance from the courier. Ties keep
/// their input order, and entries whose distance is not a number come last,
/// in input order among themselves.
pub fn rank_by_proximity(entries: Vec<ProximityEntry>) -> (ranked: Vec<ProximityEntry>)
    ensures
        ranked@ == sort_by_distance(entries@),
        ranked@.len() == entries@.len(),
        sorted_by_distance(ranked@),
        ranked@.to_multiset() == entries@.to_multiset(),
        name_seq(ranked@).to_multiset() == name_seq(entries@).to_multiset(),
        forall|d: u64| ties(ranked@, d) == ties(entries@, d),
{
    let ghost input = entries@;
    let mut rest = entries;
    let mut ranked: Vec<ProximityEntry> = Vec::new();
    proof {
        assert(input.take(0) =~= Seq::<ProximityEntry>::empty());
    }
    while rest.len() > 0
        invariant
            rest@.len() <= input.len(),
            rest@ == input.skip(input.len() - rest@.len()),
            ranked@ == sort_by_distance(input.take(input.len() - rest@.len())),
        decreases rest@.len(),
    {
        let ghost k = input.len() - rest@.len();
        let e = rest.remove(0);
        proof {
            assert(e == input.skip(k)[0]);
            assert(input.skip(k)[0] == input[k]);
            assert(input.skip(k).remove(0) =~= input.skip(k + 1));
            assert(input.take(k + 1).drop_last() =~= input.take(k));
            assert(input.take(k + 1).last() == input[k]);
        }
        insert_entry(&mut ranked, e);
        proof {
            assert(ranked@ == sort_by_distance(input.take(k + 1)));
        }
    }
    proof {
        assert(input.take(input.len() as int) =~= input);
        lemma_ranking_len(input);
        lemma_ranking_sorted(input);
        lemma_ranking_permutes(input);
        lemma_ranking_names(input);
        assert forall|d: u64| ties(ranked@, d) == ties(input, d) by {
            lemma_ranking_stable(input, d);
        }
    }
    ranked
}

} // verus!
