//! The ranking of candidates on a song, which is unique, and the bound a
//! ranked prefix gives for a team.
use vstd::prelude::*;
use crate::disjoint_bound::{Candidate, TEAM_SIZE, ranked, ranks_before, score_of, disjoint};

verus! {

/// `o` ranks every candidate once on `song`.
pub open spec fn is_ranking(cands: Seq<Candidate>, song: int, o: Seq<usize>) -> bool {
    &&& o.len() == cands.len()
    &&& ranked(cands, song, o)
    &&& forall|k: int| 0 <= k < o.len() ==> #[trigger] o[k] < cands.len()
    &&& forall|c: int| 0 <= c < cands.len() ==> #[trigger] o.contains(c as usize)
}

/// The ranking of the candidates on `song`; there is exactly one.
pub open spec fn ranking_of(cands: Seq<Candidate>, song: int) -> Seq<usize> {
    choose|o: Seq<usize>| is_ranking(cands, song, o)
}

proof fn lemma_ranked_orders_equal(cands: Seq<Candidate>, song: int, o1: Seq<usize>, o2: Seq<usize>)
    requires
        ranked(cands, song, o1),
        ranked(cands, song, o2),
        o1.len() == o2.len(),
        forall|x: usize| o1.contains(x) <==> o2.contains(x),
    ensures
        o1 == o2,
    decreases o1.len(),
{
    if o1.len() > 0 {
        let a = o1[0];
        let b = o2[0];
        if a != b {
            assert(o1.contains(a));
            assert(o2.contains(a));
            let p = choose|p: int| 0 <= p < o2.len() && o2[p] == a;
            assert(p > 0);
            assert(ranks_before(cands, song, o2[0] as int, o2[p] as int));
            assert(o2.contains(b));
            assert(o1.contains(b));
            let q = choose|q: int| 0 <= q < o1.len() && o1[q] == b;
            assert(q > 0);
            assert(ranks_before(cands, song, o1[0] as int, o1[q] as int));
            assert(false);
        }
        let t1 = o1.drop_first();
        let t2 = o2.drop_first();
        assert forall|i: int, j: int| 0 <= i < j < t1.len() implies #[trigger] ranks_before(cands, song, t1[i] as int, t1[j] as int) by {
            assert(ranks_before(cands, song, o1[i + 1] as int, o1[j + 1] as int));
        }
        assert forall|i: int, j: int| 0 <= i < j < t2.len() implies #[trigger] ranks_before(cands, song, t2[i] as int, t2[j] as int) by {
            assert(ranks_before(cands, song, o2[i + 1] as int, o2[j + 1] as int));
        }
        assert forall|x: usize| t1.contains(x) <==> t2.contains(x) by {
            if t1.contains(x) {
                let i = choose|i: int| 0 <= i < t1.len() && t1[i] == x;
                assert(ranks_before(cands, song, o1[0] as int, o1[i + 1] as int));
                assert(x != a);
                assert(o1.contains(x));
                assert(o2.contains(x));
                let j = choose|j: int| 0 <= j < o2.len() && o2[j] == x;
                assert(j != 0);
                assert(t2[j - 1] == x);
            }
            if t2.contains(x) {
                let i = choose|i: int| 0 <= i < t2.len() && t2[i] == x;
                assert(ranks_before(cands, song, o2[0] as int, o2[i + 1] as int));
                assert(x != b);
                assert(o2.contains(x));
                assert(o1.contains(x));
                let j = choose|j: int| 0 <= j < o1.len() && o1[j] == x;
                assert(j != 0);
                assert(t1[j - 1] == x);
            }
        }
        lemma_ranked_orders_equal(cands, song, t1, t2);
        assert(o1 =~= seq![a] + t1);
        assert(o2 =~= seq![b] + t2);
    }
}

/// A ranking of the candidates on `song` is the ranking.
pub proof fn lemma_ranking_is_unique(cands: Seq<Candidate>, song: int, o: Seq<usize>)
    requires
        is_ranking(cands, song, o),
    ensures
        ranking_of(cands, song) == o,
{
    let p = ranking_of(cands, song);
    assert(is_ranking(cands, song, p));
    assert forall|x: usize| p.contains(x) <==> o.contains(x) by {
        if p.contains(x) {
            let i = choose|i: int| 0 <= i < p.len() && p[i] == x;
            assert(p[i] < cands.len());
            assert(o.contains((x as int) as usize));
        }
        if o.contains(x) {
            let i = choose|i: int| 0 <= i < o.len() && o[i] == x;
            assert(o[i] < cands.len());
            assert(p.contains((x as int) as usize));
        }
    }
    lemma_ranked_orders_equal(cands, song, p, o);
}

/// Scanning the ranking from position `q`: the score of the first candidate
/// within the first `len` that shares no card with `cards`; past them, the
/// score of the candidate ranked next, `None` when every candidate was in.
pub open spec fn scan_bound(cands: Seq<Candidate>, song: int, order: Seq<usize>, len: int, cards: [usize; TEAM_SIZE], q: int) -> Option<i64>
    decreases len - q,
{
    if q >= len {
        if len < cands.len() { Some(score_of(cands, order[len] as int, song)) } else { None }
    } else if disjoint(cands[order[q] as int].cards, cards) {
        Some(score_of(cands, order[q] as int, song))
    } else {
        scan_bound(cands, song, order, len, cards, q + 1)
    }
}

/// The bound a ranked prefix of `len` candidates on `song` gives for a team
/// with `cards`: the best score in the prefix that shares no card with it,
/// else the score of the first candidate outside the prefix.
pub open spec fn ranked_bound(cands: Seq<Candidate>, song: int, len: nat, cards: [usize; TEAM_SIZE]) -> Option<i64> {
    scan_bound(cands, song, ranking_of(cands, song), len as int, cards, 0)
}

/// Scanning from `q` up to the first candidate `free` that shares no card
/// with `cards` finds that candidate, or the next one past the prefix.
pub proof fn lemma_scan_from_first_free(cands: Seq<Candidate>, song: int, order: Seq<usize>, len: int,
    cards: [usize; TEAM_SIZE], free: int, q: int)
    requires
        0 <= q <= free <= len,
        forall|p: int| q <= p < free ==> !disjoint(cands[#[trigger] order[p] as int].cards, cards),
        free < len ==> disjoint(cands[order[free] as int].cards, cards),
    ensures
        scan_bound(cands, song, order, len, cards, q) == (if free < len {
            Some(score_of(cands, order[free] as int, song))
        } else if len < cands.len() {
            Some(score_of(cands, order[len] as int, song))
        } else {
            None
        }),
    decreases free - q,
{
    if q < free {
        assert(!disjoint(cands[order[q] as int].cards, cards));
        lemma_scan_from_first_free(cands, song, order, len, cards, free, q + 1);
    }
}

} // verus!
