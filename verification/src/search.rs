//! Ranked selection: what it means for a list of scored records to be the
//! `k` best of a collection, and a bounded list that keeps them.
//!
//! Scores are signed integers, larger meaning more similar. Ties are not
//! ordered: every statement here holds whichever of two equally scored records
//! is kept or comes first.

use vstd::prelude::*;
use vstd::multiset::Multiset;
use vstd::seq_lib::to_multiset_insert;
use vstd::seq_lib::to_multiset_remove;
use std::sync::Arc;
use crate::models::RecordView;
use crate::models::VectorRecord;

verus! {

/// A record together with the score that a metric gave it.
pub struct Hit {
    pub record: RecordView,
    pub score: i64,
}

/// The hit that an entry of a result list stands for.
pub open spec fn hit_of(entry: (Arc<VectorRecord>, i64)) -> Hit {
    Hit { record: entry.0@, score: entry.1 }
}

/// The hits that a result list stands for, in its order.
pub open spec fn hits_of(entries: Seq<(Arc<VectorRecord>, i64)>) -> Seq<Hit> {
    entries.map_values(|entry: (Arc<VectorRecord>, i64)| hit_of(entry))
}

/// Scores never increase from one position to the next.
pub open spec fn sorted_desc(hits: Seq<Hit>) -> bool {
    forall|i: int, j: int| 0 <= i <= j < hits.len() ==> hits[i].score >= hits[j].score
}

/// The smaller of two naturals.
pub open spec fn min_nat(a: nat, b: nat) -> nat {
    if a <= b {
        a
    } else {
        b
    }
}

/// `kept` is a choice of the `k` best of `all`: it is taken from `all`, it
/// has `k` members (or all of them, where there are fewer), and nothing left
/// out scores higher than anything kept.
pub open spec fn is_top_k(kept: Multiset<Hit>, all: Multiset<Hit>, k: nat) -> bool {
    &&& kept.subset_of(all)
    &&& kept.len() == min_nat(k, all.len())
    &&& forall|x: Hit, y: Hit|
        #![trigger all.sub(kept).count(x), kept.count(y)]
        all.sub(kept).count(x) > 0 && kept.count(y) > 0 ==> x.score <= y.score
}

/// `out` lists the `k` best of `all`, best first.
pub open spec fn ranks_top_k(out: Seq<Hit>, all: Seq<Hit>, k: nat) -> bool {
    &&& sorted_desc(out)
    &&& is_top_k(out.to_multiset(), all.to_multiset(), k)
}

/// Where an entry of this score goes in a list kept in descending order:
/// behind every entry that scores as much or more, and so behind earlier
/// entries of the same score.
pub open spec fn rank_of(list: Seq<Hit>, score: i64) -> int
    decreases list.len(),
{
    if list.len() > 0 && list.last().score < score {
        rank_of(list.drop_last(), score)
    } else {
        list.len() as int
    }
}

/// A bounded list after `hit` was offered to it: the hit is put in its place,
/// and where that makes the list longer than `limit` the last entry, the one
/// that scores least, is dropped.
pub open spec fn offer(list: Seq<Hit>, hit: Hit, limit: nat) -> Seq<Hit> {
    let grown = list.insert(rank_of(list, hit.score), hit);
    if grown.len() <= limit {
        grown
    } else {
        grown.take(limit as int)
    }
}

/// `score` is a result that `metric` may give for these two vectors.
pub open spec fn admits<F: Fn(&[u32], &[u32]) -> i64>(
    metric: F,
    query: Seq<u32>,
    vector: Seq<u32>,
    score: i64,
) -> bool {
    exists|q: &[u32], v: &[u32]|
        q@ == query && v@ == vector && #[trigger] metric.ensures((q, v), score)
}

/// One of `records` has this embedding.
pub open spec fn holds_vector(records: Seq<RecordView>, vector: Seq<u32>) -> bool {
    exists|j: int| 0 <= j < records.len() && (#[trigger] records[j]).vector == vector
}

/// `metric` may be called on `query` and the embedding of each of `records`.
pub open spec fn callable_on<F: Fn(&[u32], &[u32]) -> i64>(
    metric: F,
    query: Seq<u32>,
    records: Seq<RecordView>,
) -> bool {
    forall|q: &[u32], v: &[u32]|
        q@ == query && holds_vector(records, v@) ==> #[trigger] metric.requires((q, v))
}

/// `scored` pairs each of `records`, in their order, with a score that
/// `metric` admits for `query` and the record's embedding.
pub open spec fn is_scoring<F: Fn(&[u32], &[u32]) -> i64>(
    metric: F,
    query: Seq<u32>,
    records: Seq<RecordView>,
    scored: Seq<Hit>,
) -> bool {
    &&& scored.len() == records.len()
    &&& forall|j: int|
        0 <= j < records.len() ==> (#[trigger] scored[j]).record == records[j] && admits(
            metric,
            query,
            records[j].vector,
            scored[j].score,
        )
}

/// `out` lists, best first, the `k` best of `records` under some scoring by
/// `metric` against `query`.
pub open spec fn is_search_result<F: Fn(&[u32], &[u32]) -> i64>(
    metric: F,
    query: Seq<u32>,
    records: Seq<RecordView>,
    k: nat,
    out: Seq<Hit>,
) -> bool {
    exists|scored: Seq<Hit>| #[trigger]
        is_scoring(metric, query, records, scored) && ranks_top_k(out, scored, k)
}

/// What a search result is, entry by entry: it has `k` entries, or as many as
/// there are records where those are fewer; scores never increase along it;
/// and every entry is one of the records, with a score that the metric admits
/// for it.
pub proof fn lemma_search_result_entries<F: Fn(&[u32], &[u32]) -> i64>(
    metric: F,
    query: Seq<u32>,
    records: Seq<RecordView>,
    k: nat,
    out: Seq<Hit>,
)
    requires
        is_search_result(metric, query, records, k, out),
    ensures
        out.len() == min_nat(k, records.len()),
        sorted_desc(out),
        forall|i: int|
            0 <= i < out.len() ==> records.contains((#[trigger] out[i]).record) && admits(
                metric,
                query,
                out[i].record.vector,
                out[i].score,
            ),
{
    let scored = choose|scored: Seq<Hit>| #[trigger]
        is_scoring(metric, query, records, scored) && ranks_top_k(out, scored, k);
    out.to_multiset_ensures();
    scored.to_multiset_ensures();
    assert forall|i: int| 0 <= i < out.len() implies records.contains((#[trigger] out[i]).record)
        && admits(metric, query, out[i].record.vector, out[i].score) by {
        assert(out.contains(out[i]));
        assert(out.to_multiset().count(out[i]) > 0);
        assert(scored.to_multiset().count(out[i]) > 0);
        assert(scored.contains(out[i]));
        let j = choose|j: int| 0 <= j < scored.len() && scored[j] == out[i];
        assert(scored[j].record == records[j]);
    }
}

/// A part of a multiset is no larger than the whole.
pub proof fn lemma_subset_len(part: Multiset<Hit>, whole: Multiset<Hit>)
    requires
        part.subset_of(whole),
    ensures
        part.len() <= whole.len(),
{
    assert(whole.sub(part).len() == whole.len() - part.len());
}

/// A part as large as the whole is the whole.
pub proof fn lemma_subset_full(part: Multiset<Hit>, whole: Multiset<Hit>)
    requires
        part.subset_of(whole),
        part.len() == whole.len(),
    ensures
        part == whole,
{
    let rest = whole.sub(part);
    assert(rest.len() == whole.len() - part.len());
    vstd::multiset::lemma_multiset_empty_len(rest);
    assert forall|h: Hit| part.count(h) == whole.count(h) by {
        assert(rest.count(h) == 0);
    }
    assert(part =~= whole);
}

/// Selection composes: where one part of a collection has been cut down to
/// its own `k` best, the `k` best of what remains are the `k` best of the
/// whole collection.
pub proof fn lemma_top_k_of_top_k(
    kept: Multiset<Hit>,
    rest: Multiset<Hit>,
    part_kept: Multiset<Hit>,
    part: Multiset<Hit>,
    k: nat,
)
    requires
        is_top_k(part_kept, part, k),
        is_top_k(kept, rest.add(part_kept), k),
    ensures
        is_top_k(kept, rest.add(part), k),
{
    let narrow = rest.add(part_kept);
    let wide = rest.add(part);
    assert(kept.subset_of(wide)) by {
        assert forall|h: Hit| kept.count(h) <= wide.count(h) by {
            assert(kept.count(h) <= narrow.count(h));
            assert(part_kept.count(h) <= part.count(h));
        }
    }
    if part.len() <= k {
        lemma_subset_full(part_kept, part);
        assert(narrow == wide);
    } else {
        assert(part_kept.len() == k);
        assert(kept.len() == k);
        assert forall|x: Hit, y: Hit|
            wide.sub(kept).count(x) > 0 && kept.count(y) > 0 implies x.score <= y.score by {
            if narrow.sub(kept).count(x) > 0 {
            } else {
                assert(part.sub(part_kept).count(x) > 0);
                if x.score > y.score {
                    let others = kept.remove(y);
                    assert(part_kept.subset_of(others)) by {
                        assert forall|z: Hit| part_kept.count(z) <= others.count(z) by {
                            if part_kept.count(z) > 0 {
                                assert(x.score <= z.score);
                                if narrow.sub(kept).count(z) > 0 {
                                    assert(z.score <= y.score);
                                }
                                assert(z != y);
                                assert(part_kept.count(z) <= narrow.count(z));
                            }
                        }
                    }
                    lemma_subset_len(part_kept, others);
                    assert(others.len() == kept.len() - 1);
                }
            }
        }
    }
}

/// Of nothing, nothing is the best.
pub proof fn lemma_empty_ranks(k: nat)
    ensures
        ranks_top_k(Seq::<Hit>::empty(), Seq::<Hit>::empty(), k),
{
    let none = Seq::<Hit>::empty();
    none.to_multiset_ensures();
    vstd::multiset::lemma_multiset_empty_len(none.to_multiset());
}

/// Offering one more candidate to a list that holds the `k` best of `seen`
/// leaves the `k` best of `seen` with that candidate.
pub proof fn lemma_offer_keeps_top_k(
    before: Seq<Hit>,
    after: Seq<Hit>,
    seen: Seq<Hit>,
    hit: Hit,
    k: nat,
)
    requires
        ranks_top_k(before, seen, k),
        ranks_top_k(after, before.push(hit), k),
    ensures
        ranks_top_k(after, seen.push(hit), k),
{
    let one = Multiset::singleton(hit);
    vstd::seq_lib::to_multiset_build(before, hit);
    vstd::seq_lib::to_multiset_build(seen, hit);
    assert(before.push(hit).to_multiset() =~= one.add(before.to_multiset()));
    lemma_top_k_of_top_k(
        after.to_multiset(),
        one,
        before.to_multiset(),
        seen.to_multiset(),
        k,
    );
    assert(seen.push(hit).to_multiset() =~= one.add(seen.to_multiset()));
}

/// Folding one part into a running selection: where `top` holds the `k` best
/// of `all` together with `offered`, and `offered` holds the `k` best of
/// `part`, `top` holds the `k` best of `part` and `all` together.
pub proof fn lemma_merge_part(
    top: Seq<Hit>,
    all: Seq<Hit>,
    offered: Seq<Hit>,
    part: Seq<Hit>,
    k: nat,
)
    requires
        ranks_top_k(top, all + offered, k),
        is_top_k(offered.to_multiset(), part.to_multiset(), k),
    ensures
        ranks_top_k(top, part + all, k),
{
    vstd::seq_lib::lemma_multiset_commutative(all, offered);
    vstd::seq_lib::lemma_multiset_commutative(part, all);
    lemma_top_k_of_top_k(
        top.to_multiset(),
        all.to_multiset(),
        offered.to_multiset(),
        part.to_multiset(),
        k,
    );
    assert((part + all).to_multiset() =~= all.to_multiset().add(part.to_multiset()));
}

/// No two of `hits` have the same score.
pub open spec fn distinct_scores(hits: Seq<Hit>) -> bool {
    forall|i: int, j: int| 0 <= i < j < hits.len() ==> hits[i].score != hits[j].score
}

/// Members of `members` are told apart by their scores, and none occurs
/// twice.
spec fn told_apart(members: Multiset<Hit>) -> bool {
    &&& forall|x: Hit| members.count(x) <= 1
    &&& forall|x: Hit, y: Hit|
        #![trigger members.count(x), members.count(y)]
        members.count(x) > 0 && members.count(y) > 0 && x.score == y.score ==> x == y
}

/// Candidates without ties are told apart by their scores.
proof fn lemma_distinct_scores_tell_apart(hits: Seq<Hit>)
    requires
        distinct_scores(hits),
    ensures
        told_apart(hits.to_multiset()),
{
    let members = hits.to_multiset();
    hits.to_multiset_ensures();
    assert(hits.no_duplicates());
    hits.lemma_multiset_has_no_duplicates();
    assert forall|x: Hit, y: Hit|
        members.count(x) > 0 && members.count(y) > 0 && x.score == y.score implies x == y by {
        let i = choose|i: int| 0 <= i < hits.len() && hits[i] == x;
        let j = choose|j: int| 0 <= j < hits.len() && hits[j] == y;
        assert(i == j);
    }
}

/// Two lists in descending order that hold the same members, none of which
/// tie, are the same list.
proof fn lemma_order_is_determined(first: Seq<Hit>, second: Seq<Hit>)
    requires
        sorted_desc(first),
        sorted_desc(second),
        first.to_multiset() == second.to_multiset(),
        told_apart(first.to_multiset()),
    ensures
        first == second,
    decreases first.len(),
{
    first.to_multiset_ensures();
    second.to_multiset_ensures();
    if first.len() == 0 {
        assert(first =~= second);
    } else {
        let members = first.to_multiset();
        let a = first.last();
        let b = second.last();
        assert(first.contains(a));
        assert(second.contains(b));
        assert(first.to_multiset().count(a) > 0);
        assert(second.to_multiset().count(b) > 0);
        assert(second.to_multiset().count(a) > 0);
        assert(first.to_multiset().count(b) > 0);
        assert(second.contains(a));
        assert(first.contains(b));
        let i = choose|i: int| 0 <= i < second.len() && second[i] == a;
        let j = choose|j: int| 0 <= j < first.len() && first[j] == b;
        assert(second[i].score >= b.score);
        assert(first[j].score >= a.score);
        assert(members.count(a) > 0 && members.count(b) > 0);
        assert(a == b);
        to_multiset_remove(first, first.len() - 1);
        to_multiset_remove(second, second.len() - 1);
        assert(first.remove(first.len() - 1) =~= first.drop_last());
        assert(second.remove(second.len() - 1) =~= second.drop_last());
        let fewer = first.drop_last().to_multiset();
        assert(told_apart(fewer)) by {
            assert forall|x: Hit| fewer.count(x) <= 1 by {
                assert(fewer.count(x) <= members.count(x));
            }
            assert forall|x: Hit, y: Hit|
                fewer.count(x) > 0 && fewer.count(y) > 0 && x.score == y.score implies x == y by {
                assert(members.count(x) > 0 && members.count(y) > 0);
            }
        }
        lemma_order_is_determined(first.drop_last(), second.drop_last());
        assert(first =~= first.drop_last().push(a));
        assert(second =~= second.drop_last().push(b));
    }
}

/// Where no two candidates tie, the ranking is determined: two lists that
/// each hold the `k` best of `all`, best first, are the same list.
pub proof fn lemma_ranking_is_unique(first: Seq<Hit>, second: Seq<Hit>, all: Seq<Hit>, k: nat)
    requires
        distinct_scores(all),
        ranks_top_k(first, all, k),
        ranks_top_k(second, all, k),
    ensures
        first == second,
{
    let members = all.to_multiset();
    let one = first.to_multiset();
    let two = second.to_multiset();
    lemma_distinct_scores_tell_apart(all);
    if one != two {
        if one.subset_of(two) {
            lemma_subset_full(one, two);
        } else if two.subset_of(one) {
            lemma_subset_full(two, one);
        } else {
            let x = choose|x: Hit| one.count(x) > two.count(x);
            let y = choose|y: Hit| two.count(y) > one.count(y);
            assert(members.sub(two).count(x) > 0 && two.count(y) > 0);
            assert(members.sub(one).count(y) > 0 && one.count(x) > 0);
            assert(x.score == y.score);
            assert(members.count(x) > 0 && members.count(y) > 0);
        }
    }
    assert(told_apart(one)) by {
        assert forall|x: Hit| one.count(x) <= 1 by {
            assert(one.count(x) <= members.count(x));
        }
        assert forall|x: Hit, y: Hit|
            one.count(x) > 0 && one.count(y) > 0 && x.score == y.score implies x == y by {
            assert(members.count(x) > 0 && members.count(y) > 0);
        }
    }
    lemma_order_is_determined(first, second);
}

/// Where a score goes in a list in descending order: every entry before
/// that place scores as much or more, and every entry from there on scores
/// less.
pub proof fn lemma_rank_of(list: Seq<Hit>, score: i64)
    requires
        sorted_desc(list),
    ensures
        0 <= rank_of(list, score) <= list.len(),
        forall|j: int| 0 <= j < rank_of(list, score) ==> (#[trigger] list[j]).score >= score,
        forall|j: int| rank_of(list, score) <= j < list.len() ==> (#[trigger] list[j]).score < score,
    decreases list.len(),
{
    let at = rank_of(list, score);
    if list.len() > 0 && list.last().score < score {
        let shorter = list.drop_last();
        lemma_rank_of(shorter, score);
        assert forall|j: int| 0 <= j < at implies (#[trigger] list[j]).score >= score by {
            assert(shorter[j] == list[j]);
        }
        assert forall|j: int| at <= j < list.len() implies (#[trigger] list[j]).score < score by {
            if j < shorter.len() {
                assert(shorter[j] == list[j]);
            }
        }
    } else {
        assert forall|j: int| 0 <= j < at implies (#[trigger] list[j]).score >= score by {
            assert(list[j].score >= list[list.len() - 1].score);
        }
    }
}

/// An offer keeps a bounded list in descending order and leaves in it the
/// `limit` best of what it held together with the hit offered.
pub proof fn lemma_offer_ranks(list: Seq<Hit>, hit: Hit, limit: nat)
    requires
        sorted_desc(list),
        list.len() <= limit,
    ensures
        offer(list, hit, limit).len() == min_nat(limit, list.len() + 1),
        ranks_top_k(offer(list, hit, limit), list.push(hit), limit),
{
    let at = rank_of(list, hit.score);
    let grown = list.insert(at, hit);
    let after = offer(list, hit, limit);
    let all = list.push(hit).to_multiset();
    lemma_rank_of(list, hit.score);
    to_multiset_insert(list, at, hit);
    vstd::seq_lib::to_multiset_build(list, hit);
    assert(grown.to_multiset() == all);
    assert(sorted_desc(grown)) by {
        assert forall|i: int, j: int| 0 <= i <= j < grown.len() implies grown[i].score
            >= grown[j].score by {
            if i < at && j > at {
                assert(list[i].score >= list[j - 1].score);
            } else if i < at && j < at {
                assert(list[i].score >= list[j].score);
            } else if i > at {
                assert(list[i - 1].score >= list[j - 1].score);
            }
        }
    }
    grown.to_multiset_ensures();
    after.to_multiset_ensures();
    if grown.len() > limit {
        let low = grown.last();
        to_multiset_remove(grown, grown.len() - 1);
        assert(grown.remove(grown.len() - 1) =~= after);
        assert(grown.contains(low));
        assert forall|x: Hit, y: Hit|
            all.sub(after.to_multiset()).count(x) > 0 && after.to_multiset().count(y)
                > 0 implies x.score <= y.score by {
            assert(x == low);
            assert(after.contains(y));
            let j = choose|j: int| 0 <= j < after.len() && after[j] == y;
            assert(grown[j].score >= grown[grown.len() - 1].score);
        }
    }
}

/// Mapping entries to hits commutes with inserting one.
proof fn lemma_hits_insert(
    entries: Seq<(Arc<VectorRecord>, i64)>,
    at: int,
    entry: (Arc<VectorRecord>, i64),
)
    requires
        0 <= at <= entries.len(),
    ensures
        hits_of(entries.insert(at, entry)) == hits_of(entries).insert(at, hit_of(entry)),
{
    assert(hits_of(entries.insert(at, entry)) =~= hits_of(entries).insert(at, hit_of(entry)));
}

/// Mapping entries to hits commutes with dropping the last one.
proof fn lemma_hits_drop_last(entries: Seq<(Arc<VectorRecord>, i64)>)
    requires
        entries.len() > 0,
    ensures
        hits_of(entries.drop_last()) == hits_of(entries).drop_last(),
{
    assert(hits_of(entries.drop_last()) =~= hits_of(entries).drop_last());
}

/// A bounded list of the best hits offered so far, best first.
///
/// It never holds more than `limit` entries. Because it is kept in descending
/// order of score, its last entry is the current minimum: the one that a
/// better candidate displaces once the list is full.
pub struct TopK {
    limit: usize,
    entries: Vec<(Arc<VectorRecord>, i64)>,
}

impl View for TopK {
    type V = Seq<Hit>;

    closed spec fn view(&self) -> Seq<Hit> {
        hits_of(self.entries@)
    }
}

impl TopK {
    /// The largest number of entries the list will hold.
    pub closed spec fn limit(&self) -> nat {
        self.limit as nat
    }

    /// The list respects its limit and is in descending order of score.
    pub open spec fn wf(&self) -> bool {
        &&& self@.len() <= self.limit()
        &&& sorted_desc(self@)
    }

    /// An empty list that will keep at most `limit` entries.
    pub fn new(limit: usize) -> (top: TopK)
        ensures
            top.wf(),
            top.limit() == limit,
            top@ == Seq::<Hit>::empty(),
    {
        let top = TopK { limit, entries: Vec::new() };
        assert(top@ =~= Seq::<Hit>::empty());
        top
    }

    /// The number of entries held.
    pub fn len(&self) -> (n: usize)
        ensures
            n == self@.len(),
    {
        self.entries.len()
    }

    /// Offers one scored record. Afterwards the list holds the `limit` best of
    /// what it held before together with the new record, best first. A full
    /// list takes the record only if it scores above the current minimum,
    /// which then leaves. Among equal scores the earlier offer stays ahead.
    pub fn push(&mut self, record: Arc<VectorRecord>, score: i64)
        requires
            old(self).wf(),
        ensures
            final(self).wf(),
            final(self).limit() == old(self).limit(),
            final(self)@ == offer(old(self)@, Hit { record: record@, score }, old(self).limit()),
            ranks_top_k(
                final(self)@,
                old(self)@.push(Hit { record: record@, score }),
                old(self).limit(),
            ),
    {
        let ghost hit = Hit { record: record@, score };
        let ghost before = self@;
        let n = self.entries.len();
        proof {
            lemma_offer_ranks(before, hit, self.limit as nat);
        }
        if n == self.limit {
            if n == 0 {
                assert(offer(before, hit, 0) =~= before);
                return ;
            }
            if score <= self.entries[n - 1].1 {
                assert(rank_of(before, score) == n);
                assert(offer(before, hit, n as nat) =~= before);
                return ;
            }
            let ghost full = self.entries@;
            self.entries.pop();
            proof {
                lemma_hits_drop_last(full);
            }
        }
        let ghost base = self@;
        let mut at: usize = self.entries.len();
        proof {
            assert(base.take(at as int) =~= base);
            assert(rank_of(before, score) == rank_of(base, score));
        }
        while at > 0 && self.entries[at - 1].1 < score
            invariant
                at <= self.entries.len(),
                self@ == base,
                base.len() == self.entries.len(),
                rank_of(base, score) == rank_of(base.take(at as int), score),
            decreases at,
        {
            proof {
                assert(base.take(at as int).drop_last() =~= base.take(at as int - 1));
            }
            at = at - 1;
        }
        let ghost held = self.entries@;
        self.entries.insert(at, (record, score));
        proof {
            lemma_hits_insert(held, at as int, (record, score));
            assert(rank_of(before, score) == at);
            assert(self@ == base.insert(at as int, hit));
            assert(self@ =~= offer(before, hit, self.limit as nat));
        }
    }

    /// Gives up the entries, best first.
    pub fn into_sorted_vec(self) -> (out: Vec<(Arc<VectorRecord>, i64)>)
        ensures
            hits_of(out@) == self@,
    {
        self.entries
    }
}

} // verus!
