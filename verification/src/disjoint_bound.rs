//! Upper bounds for the two teams accompanying a candidate. Each bound excludes
//! all five of the candidate's cards. A second bound limits the combined score
//! of two mutually disjoint companions while ignoring the current candidate.
//! The minimum of these relaxations still overestimates a legal three-team plan.
use vstd::prelude::*;
use crate::ranking::{is_ranking, ranked_bound, lemma_ranking_is_unique, lemma_scan_from_first_free};
use vstd::seq_lib::*;
use crate::bits::{bit, lemma_bit_or, lemma_bit_not, lemma_bit_set, lemma_bit_zero, lemma_bit_max, lemma_lowest_set_bit};

verus! {

broadcast use vstd::seq_lib::group_to_multiset_ensures, vstd::multiset::group_multiset_axioms;

pub const SONG_COUNT: usize = 3;
pub const TEAM_SIZE: usize = 5;

/// Memory budget of one ranked prefix, in bytes.
pub const PREFIX_BYTE_BUDGET: usize = 8 * 1024 * 1024;

/// One team: its five card positions and its score on each of the three songs.
#[derive(Debug, Clone, Copy)]
pub struct Candidate {
    pub cards: [usize; TEAM_SIZE],
    pub scores: [i64; SONG_COUNT],
}

/// Score of candidate `c` on `song`.
pub open spec fn score_of(cands: Seq<Candidate>, c: int, song: int) -> i64 {
    cands[c].scores[song]
}

/// Ranking order: higher score first, the lower index first among equal scores.
pub open spec fn ranks_before(cands: Seq<Candidate>, song: int, a: int, b: int) -> bool {
    score_of(cands, a, song) > score_of(cands, b, song)
        || (score_of(cands, a, song) == score_of(cands, b, song) && a < b)
}

/// `order` is strictly increasing in the ranking order.
pub open spec fn ranked(cands: Seq<Candidate>, song: int, order: Seq<usize>) -> bool {
    forall|i: int, j: int|
        0 <= i < j < order.len() ==> #[trigger] ranks_before(cands, song, order[i] as int, order[j] as int)
}

/// Ranking order, allowing an index to stand beside itself.
pub open spec fn ranks_le(cands: Seq<Candidate>, song: int, a: int, b: int) -> bool {
    ranks_before(cands, song, a, b) || a == b
}

/// `order` is non-decreasing in the ranking order.
pub open spec fn ranked_le(cands: Seq<Candidate>, song: int, order: Seq<usize>) -> bool {
    forall|i: int, j: int|
        0 <= i < j < order.len() ==> #[trigger] ranks_le(cands, song, order[i] as int, order[j] as int)
}

/// The indices `lo..hi` in increasing order.
pub open spec fn index_range(lo: int, hi: int) -> Seq<usize> {
    Seq::new((hi - lo) as nat, |k: int| (lo + k) as usize)
}

/// Whether one of the first `k` slots of a team holds a card.
pub open spec fn team_has_first(cards: [usize; TEAM_SIZE], card: usize, k: int) -> bool {
    ||| (k > 0 && cards[0] == card)
    ||| (k > 1 && cards[1] == card)
    ||| (k > 2 && cards[2] == card)
    ||| (k > 3 && cards[3] == card)
    ||| (k > 4 && cards[4] == card)
}

/// Whether a team holds a card.
pub open spec fn team_has(cards: [usize; TEAM_SIZE], card: usize) -> bool {
    team_has_first(cards, card, 5)
}

/// Whether two teams share no card.
pub open spec fn disjoint(a: [usize; TEAM_SIZE], b: [usize; TEAM_SIZE]) -> bool {
    &&& !team_has(a, b[0])
    &&& !team_has(a, b[1])
    &&& !team_has(a, b[2])
    &&& !team_has(a, b[3])
    &&& !team_has(a, b[4])
}

/// `bound` is at least the score on `song` of every candidate that shares no card with `cards`.
pub open spec fn bounds_disjoint_scores(cands: Seq<Candidate>, song: int, cards: [usize; TEAM_SIZE], bound: Option<i64>) -> bool {
    forall|c: int|
        0 <= c < cands.len() && #[trigger] disjoint(cands[c].cards, cards) ==> (bound matches Some(b) && score_of(cands, c, song) <= b)
}

/// `bound` is the highest score on `song` among the candidates that share no card with `cards`,
/// `None` when there is none.
pub open spec fn is_best_disjoint_score(cands: Seq<Candidate>, song: int, cards: [usize; TEAM_SIZE], bound: Option<i64>) -> bool {
    &&& bounds_disjoint_scores(cands, song, cards, bound)
    &&& (bound matches Some(b) ==> exists|c: int|
        0 <= c < cands.len() && disjoint(cands[c].cards, cards) && score_of(cands, c, song) == b)
}

/// Some candidate scores `b` on `song`.
pub open spec fn is_some_score(cands: Seq<Candidate>, song: int, b: i64) -> bool {
    exists|c: int| 0 <= c < cands.len() && score_of(cands, c, song) == b
}

fn ranks_before_exec(cands: &[Candidate], song: usize, a: usize, b: usize) -> (r: bool)
    requires
        song < SONG_COUNT,
        a < cands@.len(),
        b < cands@.len(),
    ensures
        r == ranks_before(cands@, song as int, a as int, b as int),
{
    let sa = cands[a].scores[song];
    let sb = cands[b].scores[song];
    sa > sb || (sa == sb && a < b)
}

proof fn lemma_ranks_le_transitive(cands: Seq<Candidate>, song: int, a: int, b: int, c: int)
    requires
        ranks_le(cands, song, a, b),
        ranks_le(cands, song, b, c),
    ensures
        ranks_le(cands, song, a, c),
{
}

fn merge_ranked_le(cands: &[Candidate], song: usize, left: Vec<usize>, right: Vec<usize>) -> (r: Vec<usize>)
    requires
        song < SONG_COUNT,
        forall|k: int| 0 <= k < left.len() ==> left[k] < cands@.len(),
        forall|k: int| 0 <= k < right.len() ==> right[k] < cands@.len(),
        ranked_le(cands@, song as int, left@),
        ranked_le(cands@, song as int, right@),
    ensures
        r@.to_multiset() == left@.to_multiset().add(right@.to_multiset()),
        ranked_le(cands@, song as int, r@),
        forall|k: int| 0 <= k < r.len() ==> r[k] < cands@.len(),
{
    let mut out: Vec<usize> = Vec::new();
    let mut i: usize = 0;
    let mut j: usize = 0;
    while i < left.len() || j < right.len()
        invariant
            song < SONG_COUNT,
            i <= left.len(),
            j <= right.len(),
            forall|k: int| 0 <= k < left.len() ==> left[k] < cands@.len(),
            forall|k: int| 0 <= k < right.len() ==> right[k] < cands@.len(),
            ranked_le(cands@, song as int, left@),
            ranked_le(cands@, song as int, right@),
            ranked_le(cands@, song as int, out@),
            forall|k: int| 0 <= k < out.len() ==> out[k] < cands@.len(),
            out@.to_multiset() == left@.subrange(0, i as int).to_multiset().add(
                right@.subrange(0, j as int).to_multiset()),
            out.len() > 0 && i < left.len() ==> ranks_le(cands@, song as int, out[out.len() - 1] as int, left[i as int] as int),
            out.len() > 0 && j < right.len() ==> ranks_le(cands@, song as int, out[out.len() - 1] as int, right[j as int] as int),
        decreases left.len() + right.len() - i - j,
    {
        let take_left = if i < left.len() && j < right.len() {
            ranks_before_exec(cands, song, left[i], right[j])
        } else {
            i < left.len()
        };
        let ghost old_out = out@;
        if take_left {
            let x = left[i];
            proof {
                assert(left@.subrange(0, i as int + 1) =~= left@.subrange(0, i as int).push(x));
                if j < right.len() {
                    if !(i < left.len() && j < right.len()) {
                    } else {
                        assert(ranks_le(cands@, song as int, x as int, right[j as int] as int));
                    }
                }
            }
            out.push(x);
            i = i + 1;
            proof {
                assert forall|a: int, b: int| 0 <= a < b < out@.len() implies #[trigger] ranks_le(
                    cands@, song as int, out@[a] as int, out@[b] as int) by {
                    if b == out@.len() - 1 && a < b {
                        if a < old_out.len() - 1 {
                            assert(ranks_le(cands@, song as int, old_out[a] as int, old_out[old_out.len() - 1] as int));
                            lemma_ranks_le_transitive(cands@, song as int, old_out[a] as int,
                                old_out[old_out.len() - 1] as int, x as int);
                        }
                    }
                }
                if i < left.len() {
                    assert(ranks_le(cands@, song as int, left[i - 1] as int, left[i as int] as int));
                }
            }
        } else {
            let y = right[j];
            proof {
                assert(right@.subrange(0, j as int + 1) =~= right@.subrange(0, j as int).push(y));
                if i < left.len() {
                    assert(ranks_le(cands@, song as int, y as int, left[i as int] as int));
                }
            }
            out.push(y);
            j = j + 1;
            proof {
                assert forall|a: int, b: int| 0 <= a < b < out@.len() implies #[trigger] ranks_le(
                    cands@, song as int, out@[a] as int, out@[b] as int) by {
                    if b == out@.len() - 1 && a < b {
                        if a < old_out.len() - 1 {
                            assert(ranks_le(cands@, song as int, old_out[a] as int, old_out[old_out.len() - 1] as int));
                            lemma_ranks_le_transitive(cands@, song as int, old_out[a] as int,
                                old_out[old_out.len() - 1] as int, y as int);
                        }
                    }
                }
                if j < right.len() {
                    assert(ranks_le(cands@, song as int, right[j - 1] as int, right[j as int] as int));
                }
            }
        }
    }
    proof {
        assert(left@.subrange(0, left.len() as int) =~= left@);
        assert(right@.subrange(0, right.len() as int) =~= right@);
    }
    out
}

fn rank_range(cands: &[Candidate], song: usize, lo: usize, hi: usize) -> (r: Vec<usize>)
    requires
        song < SONG_COUNT,
        lo <= hi <= cands@.len(),
    ensures
        r@.to_multiset() == index_range(lo as int, hi as int).to_multiset(),
        ranked_le(cands@, song as int, r@),
        forall|k: int| 0 <= k < r.len() ==> r[k] < cands@.len(),
    decreases hi - lo,
{
    if hi - lo <= 1 {
        let mut v: Vec<usize> = Vec::new();
        if hi - lo == 1 {
            v.push(lo);
            proof {
                assert(index_range(lo as int, hi as int) =~= Seq::<usize>::empty().push(lo));
                assert(v@ =~= Seq::<usize>::empty().push(lo));
            }
        } else {
            proof {
                assert(index_range(lo as int, hi as int) =~= Seq::<usize>::empty());
                assert(v@ =~= Seq::<usize>::empty());
            }
        }
        return v;
    }
    let mid = lo + (hi - lo) / 2;
    let left = rank_range(cands, song, lo, mid);
    let right = rank_range(cands, song, mid, hi);
    proof {
        assert(index_range(lo as int, hi as int) =~= index_range(lo as int, mid as int) + index_range(mid as int, hi as int));
        lemma_multiset_commutative(index_range(lo as int, mid as int), index_range(mid as int, hi as int));
    }
    merge_ranked_le(cands, song, left, right)
}

/// All candidate indices in ranking order for `song`.
fn ranking(cands: &[Candidate], song: usize) -> (r: Vec<usize>)
    requires
        song < SONG_COUNT,
    ensures
        r.len() == cands@.len(),
        ranked(cands@, song as int, r@),
        forall|k: int| 0 <= k < r.len() ==> r[k] < cands@.len(),
        forall|c: int| 0 <= c < cands@.len() ==> #[trigger] r@.contains(c as usize),
{
    let r = rank_range(cands, song, 0, cands.len());
    proof {
        let s = index_range(0, cands@.len() as int);
        assert(s.no_duplicates());
        s.lemma_multiset_has_no_duplicates();
        r@.lemma_multiset_has_no_duplicates_conv();
        assert forall|i: int, j: int| 0 <= i < j < r@.len() implies #[trigger] ranks_before(
            cands@, song as int, r@[i] as int, r@[j] as int) by {
            assert(ranks_le(cands@, song as int, r@[i] as int, r@[j] as int));
        }
        assert forall|c: int| 0 <= c < cands@.len() implies #[trigger] r@.contains(c as usize) by {
            let s = index_range(0, cands@.len() as int);
            assert(s[c] == c as usize);
            assert(s.contains(c as usize));
            assert(s.to_multiset().count(c as usize) > 0);
        }
        assert(r@.len() == r@.to_multiset().len());
        assert(index_range(0, cands@.len() as int).to_multiset().len() == cands@.len());
    }
    r
}


/// The ranked candidates on one song, truncated to a prefix, with a bitmap per card
/// marking which ranked candidates hold it.
pub struct RankedPrefix {
    scores: Vec<i64>,
    conflicts: Vec<Vec<u64>>,
    words: usize,
    /// For each card, the first bitmap word in which some ranked candidate lacks it.
    pub first_open_word: Vec<usize>,
    tail_bound: Option<i64>,
    order: Ghost<Seq<usize>>,
    cands: Ghost<Seq<Candidate>>,
    song: Ghost<int>,
}

/// Every candidate's cards are below `card_count`.
pub open spec fn cards_below(cands: Seq<Candidate>, card_count: int) -> bool {
    forall|c: int, k: int| 0 <= c < cands.len() && 0 <= k < TEAM_SIZE ==> #[trigger] cands[c].cards[k] < card_count
}

impl RankedPrefix {
    /// Number of candidates held in the ranked prefix.
    pub closed spec fn prefix_len(self) -> nat {
        self.scores@.len()
    }

    /// Bit of ranked position `q` in the bitmap of `card`.
    pub closed spec fn conflict_bit(self, card: int, q: int) -> bool {
        bit(self.conflicts@[card]@[q / 64], (q % 64) as u64)
    }

    /// The candidates that were ranked.
    pub closed spec fn candidates(self) -> Seq<Candidate> {
        self.cands@
    }

    /// The song they were ranked on.
    pub closed spec fn ranked_song(self) -> int {
        self.song@
    }

    /// Number of cards the bitmaps cover.
    pub closed spec fn card_count(self) -> int {
        self.first_open_word@.len() as int
    }

    /// The structure describes the ranking of its candidates on its song.
    pub closed spec fn wf(self) -> bool {
        let cands = self.cands@;
        let song = self.song@;
        let card_count = self.first_open_word@.len() as int;
        let n = cands.len();
        let order = self.order@;
        let len = self.scores@.len();
        &&& order.len() == n
        &&& n <= usize::MAX / 128
        &&& 0 <= song < SONG_COUNT
        &&& ranked(cands, song, order)
        &&& forall|k: int| 0 <= k < n ==> #[trigger] order[k] < n
        &&& forall|c: int| 0 <= c < n ==> #[trigger] order.contains(c as usize)
        &&& len <= n
        &&& forall|q: int| 0 <= q < len ==> self.scores@[q] == #[trigger] score_of(cands, order[q] as int, song)
        &&& self.tail_bound == (if len < n { Some(score_of(cands, order[len as int] as int, song)) } else { None::<i64> })
        &&& self.words as int * 64 >= len
        &&& self.words as int * 64 < len + 64
        &&& self.conflicts@.len() == card_count
        &&& self.first_open_word@.len() == card_count
        &&& forall|card: int| 0 <= card < card_count ==> #[trigger] self.conflicts@[card]@.len() == self.words
        &&& forall|card: int, q: int| 0 <= card < card_count && 0 <= q < self.words * 64 ==>
            #[trigger] self.conflict_bit(card, q) == (q < len && team_has(cands[order[q] as int].cards, card as usize))
        &&& forall|card: int| 0 <= card < card_count ==> #[trigger] self.first_open_word@[card] <= self.words
        &&& forall|card: int, w: int| 0 <= card < card_count && 0 <= w < self.first_open_word@[card] ==>
            #[trigger] self.conflicts@[card]@[w] == u64::MAX
    }

    /// Ranks the candidates on `song`, keeping the first `limit` of them.
    pub fn new(candidates: &[Candidate], song: usize, limit: usize, card_count: usize) -> (r: Self)
        requires
            song < SONG_COUNT,
            cards_below(candidates@, card_count as int),
            candidates@.len() <= usize::MAX / 128,
        ensures
            r.wf(),
            r.candidates() == candidates@,
            r.ranked_song() == song as int,
            r.card_count() == card_count as int,
            r.prefix_len() == if limit < candidates@.len() { limit as nat } else { candidates@.len() },
    {
        let order = ranking(candidates, song);
        let n = candidates.len();
        let length = if limit < n { limit } else { n };
        let tail_bound = if length < n { Some(candidates[order[length]].scores[song]) } else { None };
        let words: usize = length / 64 + if length % 64 != 0 { 1 } else { 0 };
        let mut conflicts: Vec<Vec<u64>> = Vec::new();
        let mut card: usize = 0;
        while card < card_count
            invariant
                card <= card_count,
                conflicts@.len() == card,
                forall|c: int| 0 <= c < card ==> #[trigger] conflicts@[c]@.len() == words,
                forall|c: int, w: int| 0 <= c < card && 0 <= w < words ==> #[trigger] conflicts@[c]@[w] == 0u64,
            decreases card_count - card,
        {
            let mut row: Vec<u64> = Vec::new();
            let mut w: usize = 0;
            while w < words
                invariant
                    w <= words,
                    row@.len() == w,
                    forall|x: int| 0 <= x < w ==> #[trigger] row@[x] == 0u64,
                decreases words - w,
            {
                row.push(0);
                w = w + 1;
            }
            conflicts.push(row);
            card = card + 1;
        }
        let ghost cands = candidates@;
        proof {
            assert forall|c: int, q: int| 0 <= c < card_count && 0 <= q < words * 64 implies
                #[trigger] bit(conflicts@[c]@[q / 64], (q % 64) as u64) == (q < 0 && team_has(cands[order@[q] as int].cards, c as usize)) by {
                assert(conflicts@[c]@[q / 64] == 0u64);
                lemma_bit_zero((q % 64) as u64);
            }
        }
        let mut rank: usize = 0;
        while rank < length
            invariant
                rank <= length <= n,
                n == candidates@.len(),
                cands == candidates@,
                song < SONG_COUNT,
                cards_below(cands, card_count as int),
                order@.len() == n,
                forall|k: int| 0 <= k < n ==> #[trigger] order@[k] < n,
                words as int * 64 >= length,
                words as int * 64 < length + 64,
                conflicts@.len() == card_count,
                forall|c: int| 0 <= c < card_count ==> #[trigger] conflicts@[c]@.len() == words,
                forall|c: int, q: int| 0 <= c < card_count && 0 <= q < words * 64 ==>
                    #[trigger] bit(conflicts@[c]@[q / 64], (q % 64) as u64) == (q < rank && team_has(cands[order@[q] as int].cards, c as usize)),
            decreases length - rank,
        {
            let idx = order[rank];
            let mut k: usize = 0;
            while k < TEAM_SIZE
                invariant
                    rank < length <= n,
                    n == candidates@.len(),
                    cands == candidates@,
                    idx == order@[rank as int],
                    idx < n,
                    k <= TEAM_SIZE,
                    song < SONG_COUNT,
                    cards_below(cands, card_count as int),
                    order@.len() == n,
                    forall|kk: int| 0 <= kk < n ==> #[trigger] order@[kk] < n,
                    words as int * 64 >= length,
                    words as int * 64 < length + 64,
                    conflicts@.len() == card_count,
                    forall|c: int| 0 <= c < card_count ==> #[trigger] conflicts@[c]@.len() == words,
                    forall|c: int, q: int| 0 <= c < card_count && 0 <= q < words * 64 ==>
                        #[trigger] bit(conflicts@[c]@[q / 64], (q % 64) as u64) == ((q < rank && team_has(cands[order@[q] as int].cards, c as usize))
                            || (q == rank && team_has_first(cands[idx as int].cards, c as usize, k as int))),
                decreases TEAM_SIZE - k,
            {
                let card = candidates[idx].cards[k];
                assert(cands[idx as int].cards[k as int] < card_count);
                let w = rank / 64;
                let j = rank % 64;
                let ghost before = conflicts@;
                let old_word = conflicts[card][w];
                let new_word = old_word | (1u64 << (j as u64));
                conflicts[card].set(w, new_word);
                proof {
                    assert forall|c: int, q: int| 0 <= c < card_count && 0 <= q < words * 64 implies
                        #[trigger] bit(conflicts@[c]@[q / 64], (q % 64) as u64) == ((q < rank && team_has(cands[order@[q] as int].cards, c as usize))
                            || (q == rank && team_has_first(cands[idx as int].cards, c as usize, k as int + 1))) by {
                        assert(bit(before[c]@[q / 64], (q % 64) as u64) == ((q < rank && team_has(cands[order@[q] as int].cards, c as usize))
                            || (q == rank && team_has_first(cands[idx as int].cards, c as usize, k as int))));
                        if c == card as int && q / 64 == w as int {
                            lemma_bit_set(old_word, j as u64, (q % 64) as u64);
                        }
                    }
                }
                k = k + 1;
            }
            rank = rank + 1;
        }
        let mut first_open_word: Vec<usize> = Vec::new();
        let mut card: usize = 0;
        while card < card_count
            invariant
                card <= card_count,
                conflicts@.len() == card_count,
                forall|c: int| 0 <= c < card_count ==> #[trigger] conflicts@[c]@.len() == words,
                first_open_word@.len() == card,
                forall|c: int| 0 <= c < card ==> #[trigger] first_open_word@[c] <= words,
                forall|c: int, w: int| 0 <= c < card && 0 <= w < first_open_word@[c] ==>
                    #[trigger] conflicts@[c]@[w] == u64::MAX,
            decreases card_count - card,
        {
            let mut w: usize = 0;
            while w < words && conflicts[card][w] == u64::MAX
                invariant
                    w <= words,
                    card < card_count,
                    conflicts@.len() == card_count,
                    conflicts@[card as int]@.len() == words,
                    forall|x: int| 0 <= x < w ==> #[trigger] conflicts@[card as int]@[x] == u64::MAX,
                decreases words - w,
            {
                w = w + 1;
            }
            first_open_word.push(w);
            card = card + 1;
        }
        let mut scores: Vec<i64> = Vec::new();
        let mut q: usize = 0;
        while q < length
            invariant
                q <= length <= n,
                n == candidates@.len(),
                song < SONG_COUNT,
                order@.len() == n,
                forall|k: int| 0 <= k < n ==> #[trigger] order@[k] < n,
                scores@.len() == q,
                forall|x: int| 0 <= x < q ==> scores@[x] == #[trigger] score_of(candidates@, order@[x] as int, song as int),
            decreases length - q,
        {
            scores.push(candidates[order[q]].scores[song]);
            q = q + 1;
        }
        let r = RankedPrefix { scores, conflicts, words, first_open_word, tail_bound, order: Ghost(order@),
            cands: Ghost(candidates@), song: Ghost(song as int) };
        proof {
            assert forall|c: int, q: int| 0 <= c < card_count && 0 <= q < r.words * 64 implies
                #[trigger] r.conflict_bit(c, q) == (q < r.scores@.len() && team_has(cands[r.order@[q] as int].cards, c as usize)) by {
                assert(bit(conflicts@[c]@[q / 64], (q % 64) as u64) == (q < length && team_has(cands[order@[q] as int].cards, c as usize)));
            }
        }
        r
    }
    /// Ranked position `q` is in the prefix and its candidate shares a card with `cards`.
    pub closed spec fn blocked(self, cards: [usize; TEAM_SIZE], q: int) -> bool {
        q < self.scores@.len() && !disjoint(self.cands@[self.order@[q] as int].cards, cards)
    }

    proof fn lemma_bound_from_first_free(self, cards: [usize; TEAM_SIZE], free: int, result: Option<i64>)
        requires
            self.wf(),
            0 <= free <= self.scores@.len(),
            forall|q: int| 0 <= q < free ==> #[trigger] self.blocked(cards, q),
            free < self.scores@.len() ==> disjoint(self.cands@[self.order@[free] as int].cards, cards),
            result == (if free < self.scores@.len() { Some(self.scores@[free]) } else { self.tail_bound }),
        ensures
            bounds_disjoint_scores(self.candidates(), self.ranked_song(), cards, result),
            self.prefix_len() == self.candidates().len() ==> is_best_disjoint_score(self.candidates(), self.ranked_song(), cards, result),
            result matches Some(b) ==> is_some_score(self.candidates(), self.ranked_song(), b),
            result == ranked_bound(self.candidates(), self.ranked_song(), self.prefix_len(), cards),
    {
        let cands = self.cands@;
        assert(is_ranking(cands, self.song@, self.order@));
        lemma_ranking_is_unique(cands, self.song@, self.order@);
        assert forall|p: int| 0 <= p < free implies !disjoint(cands[#[trigger] self.order@[p] as int].cards, cards) by {
            assert(self.blocked(cards, p));
        }
        lemma_scan_from_first_free(cands, self.song@, self.order@, self.scores@.len() as int, cards, free, 0);
        if free < self.scores@.len() {
            assert(self.scores@[free] == score_of(cands, self.order@[free] as int, self.song@));
        }
        let song = self.song@;
        let order = self.order@;
        let len = self.scores@.len() as int;
        let n = cands.len() as int;
        assert forall|c: int| 0 <= c < cands.len() && #[trigger] disjoint(cands[c].cards, cards) implies
            (result matches Some(b) && score_of(cands, c, song) <= b) by {
            assert(forall|c: int| 0 <= c < n ==> #[trigger] order.contains(c as usize));
            assert(order.contains(c as usize));
            let p = choose|p: int| 0 <= p < order.len() && order[p] == c as usize;
            if p < len {
                if p < free {
                    assert(self.blocked(cards, p));
                }
                assert(self.scores@[free] == score_of(cands, order[free] as int, song));
                if free < p {
                    assert(ranks_before(cands, song, order[free] as int, order[p] as int));
                }
            } else {
                if len < p {
                    assert(ranks_before(cands, song, order[len] as int, order[p] as int));
                }
                if free < len {
                    assert(self.scores@[free] == score_of(cands, order[free] as int, song));
                    assert(ranks_before(cands, song, order[free] as int, order[len] as int));
                }
            }
        }
        if free < len {
            assert(self.scores@[free] == score_of(cands, order[free] as int, song));
            assert(0 <= order[free] < n);
        } else if len < n {
            assert(0 <= order[len] < n);
        }
        if len == n {
            if free < len {
                assert(self.scores@[free] == score_of(cands, order[free] as int, song));
                assert(0 <= order[free] < n);
            }
        }
    }

    /// Highest score on the ranked song among the candidates sharing no card with `cards`:
    /// the first ranked candidate not blocked by one of the cards, else the score that bounds
    /// every candidate outside the prefix.
    pub fn compatible_upper_bound(&self, cards: &[usize; TEAM_SIZE]) -> (r: Option<i64>)
        requires
            self.wf(),
            forall|k: int| 0 <= k < TEAM_SIZE ==> #[trigger] cards[k] < self.card_count(),
        ensures
            bounds_disjoint_scores(self.candidates(), self.ranked_song(), *cards, r),
            self.prefix_len() == self.candidates().len() ==> is_best_disjoint_score(self.candidates(), self.ranked_song(), *cards, r),
            r matches Some(b) ==> is_some_score(self.candidates(), self.ranked_song(), b),
            r == ranked_bound(self.candidates(), self.ranked_song(), self.prefix_len(), *cards),
    {
        let ghost len = self.scores@.len() as int;
        let ghost cc = self.card_count();
        let c0 = cards[0];
        let c1 = cards[1];
        let c2 = cards[2];
        let c3 = cards[3];
        let c4 = cards[4];
        let mut start = self.first_open_word[c0];
        let ghost mut start_card = c0;
        if self.first_open_word[c1] > start { start = self.first_open_word[c1]; proof { start_card = c1; } }
        if self.first_open_word[c2] > start { start = self.first_open_word[c2]; proof { start_card = c2; } }
        if self.first_open_word[c3] > start { start = self.first_open_word[c3]; proof { start_card = c3; } }
        if self.first_open_word[c4] > start { start = self.first_open_word[c4]; proof { start_card = c4; } }
        proof {
            assert(start_card == c0 || start_card == c1 || start_card == c2 || start_card == c3 || start_card == c4);
            assert(start == self.first_open_word@[start_card as int]);
            assert forall|q: int| 0 <= q < start * 64 && q < len implies #[trigger] self.blocked(*cards, q) by {
                assert(self.conflicts@[start_card as int]@[q / 64] == u64::MAX);
                lemma_bit_max((q % 64) as u64);
                assert(self.conflict_bit(start_card as int, q));
            }
        }
        let mut word = start;
        while word < self.words
            invariant
                self.wf(),
                len == self.scores@.len(),
                cc == self.card_count(),
                c0 == cards[0] && c1 == cards[1] && c2 == cards[2] && c3 == cards[3] && c4 == cards[4],
                forall|k: int| 0 <= k < TEAM_SIZE ==> #[trigger] cards[k] < cc,
                word <= self.words,
                forall|q: int| 0 <= q < word * 64 && q < len ==> #[trigger] self.blocked(*cards, q),
            decreases self.words - word,
        {
            let b0 = self.conflicts[c0][word];
            let b1 = self.conflicts[c1][word];
            let b2 = self.conflicts[c2][word];
            let b3 = self.conflicts[c3][word];
            let b4 = self.conflicts[c4][word];
            let blocked = b0 | b1 | b2 | b3 | b4;
            let available = !blocked;
            proof {
                assert forall|j: u64| j < 64 implies #[trigger] bit(available, j) == !(
                    self.conflict_bit(c0 as int, word * 64 + j) || self.conflict_bit(c1 as int, word * 64 + j)
                    || self.conflict_bit(c2 as int, word * 64 + j) || self.conflict_bit(c3 as int, word * 64 + j)
                    || self.conflict_bit(c4 as int, word * 64 + j)) by {
                    let q = word * 64 + j;
                    assert(q / 64 == word as int);
                    assert(q % 64 == j as int);
                    lemma_bit_not(blocked, j);
                    lemma_bit_or(b0 | b1 | b2 | b3, b4, j);
                    lemma_bit_or(b0 | b1 | b2, b3, j);
                    lemma_bit_or(b0 | b1, b2, j);
                    lemma_bit_or(b0, b1, j);
                }
            }
            if available != 0 {
                let t = available.trailing_zeros();
                let rank = word * 64 + t as usize;
                proof {
                    lemma_lowest_set_bit(available);
                    assert(bit(available, t as u64));
                    assert forall|q: int| 0 <= q < rank && q < len implies #[trigger] self.blocked(*cards, q) by {
                        if q >= word * 64 {
                            let j = (q - word * 64) as u64;
                            assert(!bit(available, j));
                            assert(q == word * 64 + j);
                        }
                    }
                    if rank < len {
                        assert(!self.conflict_bit(c0 as int, rank as int));
                        assert(!self.conflict_bit(c1 as int, rank as int));
                        assert(!self.conflict_bit(c2 as int, rank as int));
                        assert(!self.conflict_bit(c3 as int, rank as int));
                        assert(!self.conflict_bit(c4 as int, rank as int));
                    }
                }
                if rank < self.scores.len() {
                    let r = Some(self.scores[rank]);
                    proof { self.lemma_bound_from_first_free(*cards, rank as int, r); }
                    return r;
                } else {
                    proof { self.lemma_bound_from_first_free(*cards, len, self.tail_bound); }
                    return self.tail_bound;
                }
            }
            proof {
                assert forall|q: int| 0 <= q < (word + 1) * 64 && q < len implies #[trigger] self.blocked(*cards, q) by {
                    if q >= word * 64 {
                        let j = (q - word * 64) as u64;
                        lemma_bit_zero(j);
                        assert(q == word * 64 + j);
                    }
                }
            }
            word = word + 1;
        }
        proof { self.lemma_bound_from_first_free(*cards, len, self.tail_bound); }
        self.tail_bound
    }

}

/// `a + b`, clamped to the range of `i64`.
pub open spec fn saturating_add_i64_spec(a: int, b: int) -> int {
    if a + b > i64::MAX { i64::MAX as int } else if a + b < i64::MIN { i64::MIN as int } else { a + b }
}

fn saturating_add_i64(a: i64, b: i64) -> (r: i64)
    ensures
        r == saturating_add_i64_spec(a as int, b as int),
{
    if b > 0 && a > i64::MAX - b {
        i64::MAX
    } else if b < 0 && a < i64::MIN - b {
        i64::MIN
    } else {
        a + b
    }
}

/// Every candidate's scores lie in the range of `i32`.
pub open spec fn scores_fit_i32(cands: Seq<Candidate>) -> bool {
    forall|c: int, s: int| 0 <= c < cands.len() && 0 <= s < SONG_COUNT ==>
        i32::MIN <= #[trigger] cands[c].scores[s] <= i32::MAX
}

/// Candidates `a`, `b` and `c` play songs 0, 1 and 2, share no card, and reach `floor` together.
pub open spec fn feasible_triple(cands: Seq<Candidate>, a: int, b: int, c: int, floor: i64) -> bool {
    &&& 0 <= a < cands.len() && 0 <= b < cands.len() && 0 <= c < cands.len()
    &&& disjoint(cands[a].cards, cands[b].cards)
    &&& disjoint(cands[a].cards, cands[c].cards)
    &&& disjoint(cands[b].cards, cands[c].cards)
    &&& cands[a].scores[0] + cands[b].scores[1] + cands[c].scores[2] >= floor
}

proof fn lemma_disjoint_symmetric(a: [usize; TEAM_SIZE], b: [usize; TEAM_SIZE])
    requires
        disjoint(a, b),
    ensures
        disjoint(b, a),
{
}

/// `o` holds a value of at least `v`.
pub open spec fn opt_at_least(o: Option<i64>, v: int) -> bool {
    o matches Some(p) && p >= v
}

/// The larger of two optional values, a present one beating an absent one.
pub open spec fn opt_max_spec(a: Option<i64>, b: Option<i64>) -> Option<i64> {
    match (a, b) {
        (Some(x), Some(y)) => if x >= y { Some(x) } else { Some(y) },
        (Some(x), None) => Some(x),
        (None, _) => b,
    }
}

fn opt_max(a: Option<i64>, b: Option<i64>) -> (r: Option<i64>)
    ensures
        r == opt_max_spec(a, b),
        forall|v: int| opt_at_least(a, v) || opt_at_least(b, v) ==> opt_at_least(r, v),
{
    match (a, b) {
        (Some(x), Some(y)) => if x >= y { Some(x) } else { Some(y) },
        (Some(x), None) => Some(x),
        (None, _) => b,
    }
}

/// One past the highest card position of the candidates, 0 when there is none.
fn card_count_of(candidates: &[Candidate]) -> (r: usize)
    requires
        cards_below(candidates@, usize::MAX as int),
    ensures
        cards_below(candidates@, r as int),
        candidates@.len() == 0 ==> r == 0,
{
    let mut count: usize = 0;
    let mut i: usize = 0;
    while i < candidates.len()
        invariant
            i <= candidates@.len(),
            cards_below(candidates@, usize::MAX as int),
            forall|c: int, k: int| 0 <= c < i && 0 <= k < TEAM_SIZE ==> #[trigger] candidates@[c].cards[k] < count,
            candidates@.len() == 0 ==> count == 0,
        decreases candidates.len() - i,
    {
        let mut k: usize = 0;
        while k < TEAM_SIZE
            invariant
                i < candidates@.len(),
                k <= TEAM_SIZE,
                cards_below(candidates@, usize::MAX as int),
                forall|c: int, kk: int| 0 <= c < i && 0 <= kk < TEAM_SIZE ==> #[trigger] candidates@[c].cards[kk] < count,
                forall|kk: int| 0 <= kk < k ==> #[trigger] candidates@[i as int].cards[kk] < count,
            decreases TEAM_SIZE - k,
        {
            let card = candidates[i].cards[k];
            if card >= count {
                count = card + 1;
            }
            k = k + 1;
        }
        i = i + 1;
    }
    count
}

/// The bound of the two companion teams of a candidate on `song` from the per-song bounds.
pub open spec fn team_upper(bx: [Option<i64>; SONG_COUNT], song: int) -> Option<int> {
    match (bx[(song + 1) % 3], bx[(song + 2) % 3]) {
        (Some(f), Some(g)) => Some(saturating_add_i64_spec(f as int, g as int)),
        _ => None,
    }
}

/// A candidate playing `song` may still reach `floor` under the chosen bounds.
pub open spec fn song_can_reach(team: bool, pair: bool, bx: [Option<i64>; SONG_COUNT], pairs: Seq<Option<i64>>,
    score: i64, song: int, floor: i64) -> bool {
    let t = if team { team_upper(bx, song) } else { Some(i64::MAX as int) };
    match t {
        None => false,
        Some(u) => if pair {
            match pairs[song] {
                Some(p) => saturating_add_i64_spec(score as int, if (p as int) < u { p as int } else { u }) >= floor,
                None => false,
            }
        } else {
            saturating_add_i64_spec(score as int, u) >= floor
        },
    }
}

/// A candidate may still reach `floor` on one of the three songs.
pub open spec fn can_reach(team: bool, pair: bool, bx: [Option<i64>; SONG_COUNT], pairs: Seq<Option<i64>>,
    scores: [i64; SONG_COUNT], floor: i64) -> bool {
    ||| song_can_reach(team, pair, bx, pairs, scores[0], 0, floor)
    ||| song_can_reach(team, pair, bx, pairs, scores[1], 1, floor)
    ||| song_can_reach(team, pair, bx, pairs, scores[2], 2, floor)
}

proof fn lemma_triple_reaches(team: bool, pair: bool, cands: Seq<Candidate>, bounds: Seq<[Option<i64>; SONG_COUNT]>,
    pairs: Seq<Option<i64>>, a: int, b: int, c: int, floor: i64)
    requires
        scores_fit_i32(cands),
        feasible_triple(cands, a, b, c, floor),
        bounds.len() == cands.len(),
        pairs.len() == SONG_COUNT,
        forall|x: int, s: int| 0 <= x < cands.len() && 0 <= s < SONG_COUNT ==>
            #[trigger] bounds_disjoint_scores(cands, s, cands[x].cards, bounds[x][s]),
        forall|x: int, s: int| 0 <= x < cands.len() && 0 <= s < SONG_COUNT ==>
            (#[trigger] bounds[x][s] matches Some(v) ==> is_some_score(cands, s, v)),
        pair ==> forall|y: int, f: int| 0 <= y < cands.len() && 0 <= f < SONG_COUNT ==>
            (#[trigger] bounds[y][(f + 1) % 3] matches Some(second) ==>
                opt_at_least(pairs[(f + 2) % 3], saturating_add_i64_spec(cands[y].scores[f] as int, second as int))),
    ensures
        song_can_reach(team, pair, bounds[a], pairs, cands[a].scores[0], 0, floor),
        song_can_reach(team, pair, bounds[b], pairs, cands[b].scores[1], 1, floor),
        song_can_reach(team, pair, bounds[c], pairs, cands[c].scores[2], 2, floor),
{
    lemma_disjoint_symmetric(cands[a].cards, cands[b].cards);
    lemma_disjoint_symmetric(cands[a].cards, cands[c].cards);
    lemma_disjoint_symmetric(cands[b].cards, cands[c].cards);
    let a0 = cands[a].scores[0] as int;
    let b1 = cands[b].scores[1] as int;
    let c2 = cands[c].scores[2] as int;
    assert(i32::MIN <= a0 <= i32::MAX);
    assert(i32::MIN <= b1 <= i32::MAX);
    assert(i32::MIN <= c2 <= i32::MAX);
    // companion bounds of each team member
    assert(bounds_disjoint_scores(cands, 1, cands[a].cards, bounds[a][1]));
    assert(bounds_disjoint_scores(cands, 2, cands[a].cards, bounds[a][2]));
    assert(bounds_disjoint_scores(cands, 0, cands[b].cards, bounds[b][0]));
    assert(bounds_disjoint_scores(cands, 2, cands[b].cards, bounds[b][2]));
    assert(bounds_disjoint_scores(cands, 0, cands[c].cards, bounds[c][0]));
    assert(bounds_disjoint_scores(cands, 1, cands[c].cards, bounds[c][1]));
    let ab1 = bounds[a][1]->0 as int;
    let ab2 = bounds[a][2]->0 as int;
    let bb0 = bounds[b][0]->0 as int;
    let bb2 = bounds[b][2]->0 as int;
    let cb0 = bounds[c][0]->0 as int;
    let cb1 = bounds[c][1]->0 as int;
    assert(bounds[a][1] is Some && ab1 >= b1);
    assert(bounds[a][2] is Some && ab2 >= c2);
    assert(bounds[b][0] is Some && bb0 >= a0);
    assert(bounds[b][2] is Some && bb2 >= c2);
    assert(bounds[c][0] is Some && cb0 >= a0);
    assert(bounds[c][1] is Some && cb1 >= b1);
    assert(is_some_score(cands, 1, bounds[a][1]->0));
    assert(is_some_score(cands, 2, bounds[a][2]->0));
    assert(is_some_score(cands, 0, bounds[b][0]->0));
    assert(is_some_score(cands, 2, bounds[b][2]->0));
    assert(is_some_score(cands, 0, bounds[c][0]->0));
    assert(is_some_score(cands, 1, bounds[c][1]->0));
    assert(i32::MIN <= ab1 <= i32::MAX) by {
        let w = choose|w: int| 0 <= w < cands.len() && score_of(cands, w, 1) == bounds[a][1]->0;
        assert(i32::MIN <= cands[w].scores[1] <= i32::MAX);
    }
    assert(i32::MIN <= ab2 <= i32::MAX) by {
        let w = choose|w: int| 0 <= w < cands.len() && score_of(cands, w, 2) == bounds[a][2]->0;
        assert(i32::MIN <= cands[w].scores[2] <= i32::MAX);
    }
    assert(i32::MIN <= bb0 <= i32::MAX) by {
        let w = choose|w: int| 0 <= w < cands.len() && score_of(cands, w, 0) == bounds[b][0]->0;
        assert(i32::MIN <= cands[w].scores[0] <= i32::MAX);
    }
    assert(i32::MIN <= bb2 <= i32::MAX) by {
        let w = choose|w: int| 0 <= w < cands.len() && score_of(cands, w, 2) == bounds[b][2]->0;
        assert(i32::MIN <= cands[w].scores[2] <= i32::MAX);
    }
    assert(i32::MIN <= cb0 <= i32::MAX) by {
        let w = choose|w: int| 0 <= w < cands.len() && score_of(cands, w, 0) == bounds[c][0]->0;
        assert(i32::MIN <= cands[w].scores[0] <= i32::MAX);
    }
    assert(i32::MIN <= cb1 <= i32::MAX) by {
        let w = choose|w: int| 0 <= w < cands.len() && score_of(cands, w, 1) == bounds[c][1]->0;
        assert(i32::MIN <= cands[w].scores[1] <= i32::MAX);
    }
    if pair {
        assert(bounds[b][(1int + 1) % 3] matches Some(second) ==>
            opt_at_least(pairs[(1int + 2) % 3], saturating_add_i64_spec(cands[b].scores[1] as int, second as int)));
        assert(bounds[c][(2int + 1) % 3] matches Some(second) ==>
            opt_at_least(pairs[(2int + 2) % 3], saturating_add_i64_spec(cands[c].scores[2] as int, second as int)));
        assert(bounds[a][(0int + 1) % 3] matches Some(second) ==>
            opt_at_least(pairs[(0int + 2) % 3], saturating_add_i64_spec(cands[a].scores[0] as int, second as int)));
        assert(opt_at_least(pairs[0], b1 + c2));
        assert(opt_at_least(pairs[1], c2 + a0));
        assert(opt_at_least(pairs[2], a0 + b1));
    }
}

/// The highest score on `song` among the candidates sharing no card with `cards`, `None`
/// when there is none.
pub open spec fn best_bound(cands: Seq<Candidate>, song: int, cards: [usize; TEAM_SIZE]) -> Option<i64> {
    choose|o: Option<i64>| is_best_disjoint_score(cands, song, cards, o)
}

proof fn lemma_best_bound_unique(cands: Seq<Candidate>, song: int, cards: [usize; TEAM_SIZE], o: Option<i64>)
    requires
        is_best_disjoint_score(cands, song, cards, o),
    ensures
        best_bound(cands, song, cards) == o,
{
    let p = best_bound(cands, song, cards);
    assert(is_best_disjoint_score(cands, song, cards, p));
    match (o, p) {
        (Some(x), Some(y)) => {
            let cx = choose|c: int| 0 <= c < cands.len() && disjoint(cands[c].cards, cards) && score_of(cands, c, song) == x;
            let cy = choose|c: int| 0 <= c < cands.len() && disjoint(cands[c].cards, cards) && score_of(cands, c, song) == y;
            assert(score_of(cands, cx, song) <= y);
            assert(score_of(cands, cy, song) <= x);
        },
        (Some(x), None) => {
            let cx = choose|c: int| 0 <= c < cands.len() && disjoint(cands[c].cards, cards) && score_of(cands, c, song) == x;
            assert(disjoint(cands[cx].cards, cards));
        },
        (None, Some(y)) => {
            let cy = choose|c: int| 0 <= c < cands.len() && disjoint(cands[c].cards, cards) && score_of(cands, c, song) == y;
            assert(disjoint(cands[cy].cards, cards));
        },
        (None, None) => {},
    }
}

/// The per-song companion bounds of every candidate are the exact best disjoint scores.
pub open spec fn exact_table(cands: Seq<Candidate>, table: Seq<[Option<i64>; SONG_COUNT]>) -> bool {
    &&& table.len() == cands.len()
    &&& forall|x: int, s: int| 0 <= x < cands.len() && 0 <= s < SONG_COUNT ==>
        #[trigger] table[x][s] == best_bound(cands, s, cands[x].cards)
}

/// The pair bounds after candidate `score`'s songs from `0` up to `k`, with row `row` of
/// companion bounds: a candidate on song `f` and the best companion on the next song bound
/// the pair that leaves out the song after that.
pub open spec fn pair_row(pairs: Seq<Option<i64>>, scores: [i64; SONG_COUNT], row: [Option<i64>; SONG_COUNT], k: int) -> Seq<Option<i64>>
    decreases k,
{
    if k <= 0 {
        pairs
    } else {
        let before = pair_row(pairs, scores, row, k - 1);
        let f = k - 1;
        match row[(f + 1) % 3] {
            Some(second) => before.update(
                (f + 2) % 3,
                opt_max_spec(before[(f + 2) % 3], Some(saturating_add_i64_spec(scores[f] as int, second as int) as i64)),
            ),
            None => before,
        }
    }
}

/// The pair bounds after the first `x` candidates.
pub open spec fn pair_bounds_spec(cands: Seq<Candidate>, table: Seq<[Option<i64>; SONG_COUNT]>, x: int) -> Seq<Option<i64>>
    decreases x,
{
    if x <= 0 {
        seq![None::<i64>, None::<i64>, None::<i64>]
    } else {
        pair_row(pair_bounds_spec(cands, table, x - 1), cands[x - 1].scores, table[x - 1], 3)
    }
}

/// The flags the bounds in `table` give: a candidate is marked when, on one of the songs,
/// its score and the chosen bounds of its companions can reach `floor`.
pub open spec fn flags_spec(team: bool, pair: bool, cands: Seq<Candidate>, table: Seq<[Option<i64>; SONG_COUNT]>, floor: i64) -> Seq<bool> {
    let pairs = if pair { pair_bounds_spec(cands, table, cands.len() as int) } else { seq![None::<i64>, None::<i64>, None::<i64>] };
    Seq::new(cands.len(), |i: int| can_reach(team, pair, table[i], pairs, cands[i].scores, floor))
}

/// The length of the ranked prefix of `n` candidates under `limit`.
pub open spec fn prefix_len_of(n: nat, limit: usize) -> nat {
    if limit < n { limit as nat } else { n }
}

/// `table` holds, for each candidate and song, the bound that the ranked
/// prefix of at most `limit` candidates on that song gives for its cards.
pub open spec fn is_prefix_table(cands: Seq<Candidate>, limit: usize, table: Seq<[Option<i64>; SONG_COUNT]>) -> bool {
    &&& table.len() == cands.len()
    &&& forall|x: int, s: int| 0 <= x < cands.len() && 0 <= s < SONG_COUNT ==>
        #[trigger] table[x][s] == ranked_bound(cands, s, prefix_len_of(cands.len(), limit), cands[x].cards)
}

/// Marks the candidates that can still reach `floor` in a three-team plan, bounding the two
/// companion teams by the per-song compatible bounds (`TEAM`) and by the best disjoint pair
/// (`PAIR`). A candidate of a plan that reaches `floor` is always marked.
pub fn compatible_flags_parts<const TEAM: bool, const PAIR: bool>(
    candidates: &[Candidate],
    floor: i64,
    limit: usize,
) -> (r: Vec<bool>)
    requires
        candidates@.len() <= usize::MAX / 128,
        cards_below(candidates@, usize::MAX as int),
    ensures
        r.len() == candidates@.len(),
        exists|table: Seq<[Option<i64>; SONG_COUNT]>| {
            &&& table.len() == candidates@.len()
            &&& forall|x: int, s: int| 0 <= x < candidates@.len() && 0 <= s < SONG_COUNT ==>
                #[trigger] bounds_disjoint_scores(candidates@, s, candidates@[x].cards, table[x][s])
            &&& (limit >= candidates@.len() ==> exact_table(candidates@, table))
            &&& is_prefix_table(candidates@, limit, table)
            &&& r@ == #[trigger] flags_spec(TEAM, PAIR, candidates@, table, floor)
        },
        scores_fit_i32(candidates@) ==> forall|a: int, b: int, c: int|
            #[trigger] feasible_triple(candidates@, a, b, c, floor) ==> r[a] && r[b] && r[c],
{
    let card_count = card_count_of(candidates);
    let ranked0 = RankedPrefix::new(candidates, 0, limit, card_count);
    let ranked1 = RankedPrefix::new(candidates, 1, limit, card_count);
    let ranked2 = RankedPrefix::new(candidates, 2, limit, card_count);
    let ghost cands = candidates@;
    let mut bounds: Vec<[Option<i64>; SONG_COUNT]> = Vec::new();
    let mut i: usize = 0;
    while i < candidates.len()
        invariant
            i <= cands.len(),
            cands == candidates@,
            ranked0.wf() && ranked0.candidates() == cands && ranked0.ranked_song() == 0 && ranked0.card_count() == card_count,
            ranked1.wf() && ranked1.candidates() == cands && ranked1.ranked_song() == 1 && ranked1.card_count() == card_count,
            ranked2.wf() && ranked2.candidates() == cands && ranked2.ranked_song() == 2 && ranked2.card_count() == card_count,
            cards_below(cands, card_count as int),
            bounds@.len() == i,
            forall|x: int, s: int| 0 <= x < i && 0 <= s < SONG_COUNT ==>
                #[trigger] bounds_disjoint_scores(cands, s, cands[x].cards, bounds@[x][s]),
            forall|x: int, s: int| 0 <= x < i && 0 <= s < SONG_COUNT ==>
                (#[trigger] bounds@[x][s] matches Some(v) ==> is_some_score(cands, s, v)),
            ranked0.prefix_len() == (if limit < cands.len() { limit as nat } else { cands.len() }),
            ranked1.prefix_len() == (if limit < cands.len() { limit as nat } else { cands.len() }),
            ranked2.prefix_len() == (if limit < cands.len() { limit as nat } else { cands.len() }),
            limit >= cands.len() ==> forall|x: int, s: int| 0 <= x < i && 0 <= s < SONG_COUNT ==>
                #[trigger] bounds@[x][s] == best_bound(cands, s, cands[x].cards),
            forall|x: int, s: int| 0 <= x < i && 0 <= s < SONG_COUNT ==>
                #[trigger] bounds@[x][s] == ranked_bound(cands, s, prefix_len_of(cands.len(), limit), cands[x].cards),
        decreases cands.len() - i,
    {
        let cards = candidates[i].cards;
        let b = [
            ranked0.compatible_upper_bound(&cards),
            ranked1.compatible_upper_bound(&cards),
            ranked2.compatible_upper_bound(&cards),
        ];
        proof {
            if limit >= cands.len() {
                lemma_best_bound_unique(cands, 0, cards, b[0]);
                lemma_best_bound_unique(cands, 1, cards, b[1]);
                lemma_best_bound_unique(cands, 2, cards, b[2]);
            }
        }
        bounds.push(b);
        i = i + 1;
    }
    let mut pair_bounds: Vec<Option<i64>> = Vec::new();
    pair_bounds.push(None);
    pair_bounds.push(None);
    pair_bounds.push(None);
    if PAIR {
        let mut x: usize = 0;
        while x < candidates.len()
            invariant
                x <= cands.len(),
                cands == candidates@,
                bounds@.len() == cands.len(),
                pair_bounds@.len() == SONG_COUNT,
                pair_bounds@ == pair_bounds_spec(cands, bounds@, x as int),
                forall|y: int, f: int| 0 <= y < x && 0 <= f < SONG_COUNT ==>
                    (#[trigger] bounds@[y][(f + 1) % 3] matches Some(second) ==>
                        opt_at_least(pair_bounds@[(f + 2) % 3], saturating_add_i64_spec(cands[y].scores[f] as int, second as int))),
            decreases cands.len() - x,
        {
            let mut first: usize = 0;
            while first < SONG_COUNT
                invariant
                    x < cands.len(),
                    first <= SONG_COUNT,
                    cands == candidates@,
                    bounds@.len() == cands.len(),
                    pair_bounds@.len() == SONG_COUNT,
                    pair_bounds@ == pair_row(pair_bounds_spec(cands, bounds@, x as int), cands[x as int].scores, bounds@[x as int], first as int),
                    forall|y: int, f: int| 0 <= y < x && 0 <= f < SONG_COUNT ==>
                        (#[trigger] bounds@[y][(f + 1) % 3] matches Some(second) ==>
                            opt_at_least(pair_bounds@[(f + 2) % 3], saturating_add_i64_spec(cands[y].scores[f] as int, second as int))),
                    forall|f: int| 0 <= f < first ==>
                        (#[trigger] bounds@[x as int][(f + 1) % 3] matches Some(second) ==>
                            opt_at_least(pair_bounds@[(f + 2) % 3], saturating_add_i64_spec(cands[x as int].scores[f] as int, second as int))),
                decreases SONG_COUNT - first,
            {
                if let Some(second) = bounds[x][(first + 1) % SONG_COUNT] {
                    let missing = (first + 2) % SONG_COUNT;
                    let pair = saturating_add_i64(candidates[x].scores[first], second);
                    let updated = opt_max(pair_bounds[missing], Some(pair));
                    pair_bounds.set(missing, updated);
                }
                first = first + 1;
            }
            assert(pair_bounds_spec(cands, bounds@, x + 1) == pair_row(pair_bounds_spec(cands, bounds@, x as int), cands[x as int].scores, bounds@[x as int], 3));
            x = x + 1;
        }
    }
    let mut result: Vec<bool> = Vec::new();
    let mut i: usize = 0;
    while i < candidates.len()
        invariant
            i <= cands.len(),
            cands == candidates@,
            bounds@.len() == cands.len(),
            pair_bounds@.len() == SONG_COUNT,
            result@.len() == i,
            forall|x: int| 0 <= x < i ==> #[trigger] result@[x] == can_reach(TEAM, PAIR, bounds@[x], pair_bounds@,
                cands[x].scores, floor),
        decreases cands.len() - i,
    {
        let mut keep = false;
        let mut song: usize = 0;
        while song < SONG_COUNT && !keep
            invariant
                i < cands.len(),
                cands == candidates@,
                song <= SONG_COUNT,
                bounds@.len() == cands.len(),
                pair_bounds@.len() == SONG_COUNT,
                keep == ((0 < song && song_can_reach(TEAM, PAIR, bounds@[i as int], pair_bounds@, cands[i as int].scores[0], 0, floor))
                    || (1 < song && song_can_reach(TEAM, PAIR, bounds@[i as int], pair_bounds@, cands[i as int].scores[1], 1, floor))
                    || (2 < song && song_can_reach(TEAM, PAIR, bounds@[i as int], pair_bounds@, cands[i as int].scores[2], 2, floor))),
            decreases SONG_COUNT - song,
        {
            let mut upper: i64 = i64::MAX;
            let mut possible = true;
            if TEAM {
                match (bounds[i][(song + 1) % SONG_COUNT], bounds[i][(song + 2) % SONG_COUNT]) {
                    (Some(first), Some(second)) => { upper = saturating_add_i64(first, second); },
                    _ => { possible = false; },
                }
            }
            if PAIR && possible {
                match pair_bounds[song] {
                    Some(pair) => { if pair < upper { upper = pair; } },
                    None => { possible = false; },
                }
            }
            if possible && saturating_add_i64(candidates[i].scores[song], upper) >= floor {
                keep = true;
            }
            proof {
                assert(keep == ((0 < song + 1 && song_can_reach(TEAM, PAIR, bounds@[i as int], pair_bounds@, cands[i as int].scores[0], 0, floor))
                    || (1 < song + 1 && song_can_reach(TEAM, PAIR, bounds@[i as int], pair_bounds@, cands[i as int].scores[1], 1, floor))
                    || (2 < song + 1 && song_can_reach(TEAM, PAIR, bounds@[i as int], pair_bounds@, cands[i as int].scores[2], 2, floor))));
            }
            song = song + 1;
        }
        result.push(keep);
        i = i + 1;
    }
    proof {
        if scores_fit_i32(cands) {
            assert forall|a: int, b: int, c: int| #[trigger] feasible_triple(cands, a, b, c, floor) implies
                result@[a] && result@[b] && result@[c] by {
                lemma_triple_reaches(TEAM, PAIR, cands, bounds@, pair_bounds@, a, b, c, floor);
            }
        }
        assert(result@ =~= flags_spec(TEAM, PAIR, cands, bounds@, floor));
        if limit >= cands.len() {
            assert(exact_table(cands, bounds@));
        }
        assert(is_prefix_table(cands, limit, bounds@));
    }
    result
}

proof fn lemma_both_bounds_imply_each(row: [Option<i64>; SONG_COUNT], pairs: Seq<Option<i64>>, scores: [i64; SONG_COUNT], floor: i64)
    requires
        pairs.len() == SONG_COUNT,
        can_reach(true, true, row, pairs, scores, floor),
    ensures
        can_reach(true, false, row, pairs, scores, floor),
        can_reach(false, true, row, pairs, scores, floor),
{
}

/// Two prefix tables of the same candidates and limit are the same table.
proof fn lemma_prefix_table_unique(cands: Seq<Candidate>, limit: usize, t1: Seq<[Option<i64>; SONG_COUNT]>,
    t2: Seq<[Option<i64>; SONG_COUNT]>)
    requires
        is_prefix_table(cands, limit, t1),
        is_prefix_table(cands, limit, t2),
    ensures
        t1 == t2,
{
    assert forall|x: int| 0 <= x < t1.len() implies t1[x] == t2[x] by {
        assert(t1[x][0] == t2[x][0] && t1[x][1] == t2[x][1] && t1[x][2] == t2[x][2]);
        assert(t1[x] =~= t2[x]);
    }
    assert(t1 =~= t2);
}

/// The combined check marks a candidate only where the check by the
/// compatible bounds alone and the check by the pair bounds alone, run on the
/// same candidates, floor and limit, each mark it.
pub proof fn lemma_combined_flags_imply_each(cands: Seq<Candidate>, floor: i64, limit: usize,
    both: Seq<bool>, team_only: Seq<bool>, pair_only: Seq<bool>)
    requires
        exists|t: Seq<[Option<i64>; SONG_COUNT]>|
            is_prefix_table(cands, limit, t) && both == #[trigger] flags_spec(true, true, cands, t, floor),
        exists|t: Seq<[Option<i64>; SONG_COUNT]>|
            is_prefix_table(cands, limit, t) && team_only == #[trigger] flags_spec(true, false, cands, t, floor),
        exists|t: Seq<[Option<i64>; SONG_COUNT]>|
            is_prefix_table(cands, limit, t) && pair_only == #[trigger] flags_spec(false, true, cands, t, floor),
    ensures
        forall|i: int| 0 <= i < cands.len() && #[trigger] both[i] ==> team_only[i] && pair_only[i],
{
    let t1 = choose|t: Seq<[Option<i64>; SONG_COUNT]>|
        is_prefix_table(cands, limit, t) && both == #[trigger] flags_spec(true, true, cands, t, floor);
    let t2 = choose|t: Seq<[Option<i64>; SONG_COUNT]>|
        is_prefix_table(cands, limit, t) && team_only == #[trigger] flags_spec(true, false, cands, t, floor);
    let t3 = choose|t: Seq<[Option<i64>; SONG_COUNT]>|
        is_prefix_table(cands, limit, t) && pair_only == #[trigger] flags_spec(false, true, cands, t, floor);
    lemma_prefix_table_unique(cands, limit, t1, t2);
    lemma_prefix_table_unique(cands, limit, t1, t3);
    let pairs = pair_bounds_spec(cands, t1, cands.len() as int);
    lemma_pair_bounds_len(cands, t1, cands.len() as int);
    assert forall|i: int| 0 <= i < cands.len() && #[trigger] both[i] implies team_only[i] && pair_only[i] by {
        lemma_both_bounds_imply_each(t1[i], pairs, cands[i].scores, floor);
    }
}

/// Both bounds together. A candidate marked here is marked by each bound alone on the same
/// candidates, floor and limit (`lemma_combined_flags_imply_each`); it may qualify on
/// different songs under each.
pub fn compatible_flags(candidates: &[Candidate], floor: i64, limit: usize) -> (r: Vec<bool>)
    requires
        candidates@.len() <= usize::MAX / 128,
        cards_below(candidates@, usize::MAX as int),
    ensures
        r.len() == candidates@.len(),
        exists|table: Seq<[Option<i64>; SONG_COUNT]>| {
            &&& table.len() == candidates@.len()
            &&& forall|x: int, s: int| 0 <= x < candidates@.len() && 0 <= s < SONG_COUNT ==>
                #[trigger] bounds_disjoint_scores(candidates@, s, candidates@[x].cards, table[x][s])
            &&& (limit >= candidates@.len() ==> exact_table(candidates@, table))
            &&& is_prefix_table(candidates@, limit, table)
            &&& r@ == #[trigger] flags_spec(true, true, candidates@, table, floor)
        },
        limit >= candidates@.len() ==> forall|table: Seq<[Option<i64>; SONG_COUNT]>, i: int|
            exact_table(candidates@, table) && 0 <= i < candidates@.len() && r[i] ==>
                #[trigger] flags_spec(true, false, candidates@, table, floor)[i]
                && flags_spec(false, true, candidates@, table, floor)[i],
        scores_fit_i32(candidates@) ==> forall|a: int, b: int, c: int|
            #[trigger] feasible_triple(candidates@, a, b, c, floor) ==> r[a] && r[b] && r[c],
{
    let r = compatible_flags_parts::<true, true>(candidates, floor, limit);
    proof {
        if limit >= candidates@.len() {
            let cands = candidates@;
            let t0 = choose|table: Seq<[Option<i64>; SONG_COUNT]>| {
                &&& table.len() == cands.len()
                &&& forall|x: int, s: int| 0 <= x < cands.len() && 0 <= s < SONG_COUNT ==>
                    #[trigger] bounds_disjoint_scores(cands, s, cands[x].cards, table[x][s])
                &&& (limit >= cands.len() ==> exact_table(cands, table))
                &&& r@ == #[trigger] flags_spec(true, true, cands, table, floor)
            };
            assert forall|table: Seq<[Option<i64>; SONG_COUNT]>, i: int|
                exact_table(cands, table) && 0 <= i < cands.len() && r[i] implies
                    #[trigger] flags_spec(true, false, cands, table, floor)[i]
                    && flags_spec(false, true, cands, table, floor)[i] by {
                assert forall|x: int| 0 <= x < table.len() implies table[x] == t0[x] by {
                    assert(table[x][0] == t0[x][0] && table[x][1] == t0[x][1] && table[x][2] == t0[x][2]);
                    assert(table[x] =~= t0[x]);
                }
                assert(table =~= t0);
                let pairs = pair_bounds_spec(cands, table, cands.len() as int);
                lemma_pair_bounds_len(cands, table, cands.len() as int);
                assert(flags_spec(true, true, cands, table, floor)[i] == can_reach(true, true, table[i], pairs, cands[i].scores, floor));
                lemma_both_bounds_imply_each(table[i], pairs, cands[i].scores, floor);
            }
        }
    }
    r
}

proof fn lemma_pair_bounds_len(cands: Seq<Candidate>, table: Seq<[Option<i64>; SONG_COUNT]>, x: int)
    ensures
        pair_bounds_spec(cands, table, x).len() == SONG_COUNT,
    decreases x,
{
    if x > 0 {
        lemma_pair_bounds_len(cands, table, x - 1);
        let p = pair_bounds_spec(cands, table, x - 1);
        let row = table[x - 1];
        let sc = cands[x - 1].scores;
        assert(pair_row(p, sc, row, 0).len() == 3);
        assert(pair_row(p, sc, row, 1).len() == 3);
        assert(pair_row(p, sc, row, 2).len() == 3);
        assert(pair_row(p, sc, row, 3).len() == 3);
    }
}

/// The entries of the first `k` indices whose flag is set, in order.
pub open spec fn kept_by(indices: Seq<usize>, flags: Seq<bool>, k: int) -> Seq<usize>
    decreases k,
{
    if k <= 0 {
        Seq::empty()
    } else if flags[k - 1] {
        kept_by(indices, flags, k - 1).push(indices[k - 1])
    } else {
        kept_by(indices, flags, k - 1)
    }
}

proof fn lemma_kept_by_contains(indices: Seq<usize>, flags: Seq<bool>, k: int, a: int)
    requires
        0 <= a < k,
        flags[a],
    ensures
        kept_by(indices, flags, k).contains(indices[a]),
    decreases k,
{
    let prev = kept_by(indices, flags, k - 1);
    if a < k - 1 {
        lemma_kept_by_contains(indices, flags, k - 1, a);
        if flags[k - 1] {
            let j = choose|j: int| 0 <= j < prev.len() && prev[j] == indices[a];
            assert(prev.push(indices[k - 1])[j] == indices[a]);
        }
    } else {
        assert(prev.push(indices[k - 1])[prev.len() as int] == indices[a]);
    }
}

/// The card numbering built so far: assigned positions are distinct and below `count`.
spec fn numbering_ok(positions: Seq<usize>, count: int) -> bool {
    &&& forall|x: int| 0 <= x < positions.len() ==>
        (#[trigger] positions[x] == usize::MAX || positions[x] < count)
    &&& forall|x: int, y: int| 0 <= x < positions.len() && 0 <= y < positions.len()
        && #[trigger] positions[x] == #[trigger] positions[y] && positions[x] != usize::MAX ==> x == y
}

/// Slot `k` of `mapped` holds the number `positions` gives the card in slot `k` of `orig`.
spec fn slot_renumbered(orig: Candidate, mapped: Candidate, positions: Seq<usize>, k: int) -> bool {
    &&& orig.cards[k] < positions.len()
    &&& positions[orig.cards[k] as int] != usize::MAX
    &&& mapped.cards[k] == positions[orig.cards[k] as int]
}

/// `mapped` renumbers the cards of `orig` through `positions`.
spec fn renumbered(orig: Candidate, mapped: Candidate, positions: Seq<usize>) -> bool {
    &&& mapped.scores == orig.scores
    &&& slot_renumbered(orig, mapped, positions, 0)
    &&& slot_renumbered(orig, mapped, positions, 1)
    &&& slot_renumbered(orig, mapped, positions, 2)
    &&& slot_renumbered(orig, mapped, positions, 3)
    &&& slot_renumbered(orig, mapped, positions, 4)
}

proof fn lemma_renumbered_keeps_disjoint(a: Candidate, b: Candidate, ma: Candidate, mb: Candidate, positions: Seq<usize>, count: int)
    requires
        numbering_ok(positions, count),
        renumbered(a, ma, positions),
        renumbered(b, mb, positions),
        disjoint(a.cards, b.cards),
    ensures
        disjoint(ma.cards, mb.cards),
{
    assert forall|i: int, j: int| 0 <= i < TEAM_SIZE && 0 <= j < TEAM_SIZE implies ma.cards[i] != mb.cards[j] by {
        assert(slot_renumbered(a, ma, positions, i));
        assert(slot_renumbered(b, mb, positions, j));
        if ma.cards[i] == mb.cards[j] {
            assert(a.cards[i] == b.cards[j]);
            assert(team_has(a.cards, b.cards[j]));
        }
    }
}

proof fn lemma_renumbered_extends(o: Candidate, m: Candidate, before: Seq<usize>, after: Seq<usize>)
    requires
        renumbered(o, m, before),
        after.len() == before.len(),
        forall|x: int| 0 <= x < before.len() && before[x] != usize::MAX ==> #[trigger] after[x] == before[x],
    ensures
        renumbered(o, m, after),
{
    assert(after[o.cards[0] as int] == before[o.cards[0] as int]);
    assert(after[o.cards[1] as int] == before[o.cards[1] as int]);
    assert(after[o.cards[2] as int] == before[o.cards[2] as int]);
    assert(after[o.cards[3] as int] == before[o.cards[3] as int]);
    assert(after[o.cards[4] as int] == before[o.cards[4] as int]);
}

/// The position of `card` in the numbering, giving it the next free one if it has none.
fn assign_position(positions: &mut Vec<usize>, count: &mut usize, card: usize) -> (r: usize)
    requires
        card < old(positions)@.len(),
        *old(count) < usize::MAX,
        numbering_ok(old(positions)@, *old(count) as int),
    ensures
        final(positions)@.len() == old(positions)@.len(),
        numbering_ok(final(positions)@, *final(count) as int),
        r == final(positions)@[card as int],
        r != usize::MAX,
        *final(count) <= *old(count) + 1,
        forall|x: int| 0 <= x < old(positions)@.len() && old(positions)@[x] != usize::MAX
            ==> #[trigger] final(positions)@[x] == old(positions)@[x],
{
    if positions[card] == usize::MAX {
        let ghost p0 = positions@;
        positions.set(card, *count);
        proof {
            assert forall|x2: int, y2: int| 0 <= x2 < positions@.len() && 0 <= y2 < positions@.len()
                && #[trigger] positions@[x2] == #[trigger] positions@[y2] && positions@[x2] != usize::MAX implies x2 == y2 by {
                if x2 != card as int && y2 != card as int {
                    assert(p0[x2] == positions@[x2] && p0[y2] == positions@[y2]);
                } else if x2 == card as int && y2 != card as int {
                    assert(p0[y2] == positions@[y2]);
                } else if y2 == card as int && x2 != card as int {
                    assert(p0[x2] == positions@[x2]);
                }
            }
            assert forall|x: int| 0 <= x < p0.len() && p0[x] != usize::MAX implies #[trigger] positions@[x] == p0[x] by {
                if x == card as int {
                } else {
                }
            }
        }
        *count = *count + 1;
    }
    positions[card]
}

/// `o` is the highest score on `song` among the first `k` candidates sharing no card with
/// `cards`, `None` when there is none.
spec fn best_among(cands: Seq<Candidate>, song: int, cards: [usize; TEAM_SIZE], k: int, o: Option<i64>) -> bool {
    &&& forall|c: int| 0 <= c < k && #[trigger] disjoint(cands[c].cards, cards) ==> (o matches Some(b) && score_of(cands, c, song) <= b)
    &&& (o matches Some(b) ==> exists|c: int| 0 <= c < k && disjoint(cands[c].cards, cards) && score_of(cands, c, song) == b)
}

proof fn lemma_best_among_exists(cands: Seq<Candidate>, song: int, cards: [usize; TEAM_SIZE], k: int) -> (o: Option<i64>)
    requires
        0 <= k <= cands.len(),
    ensures
        best_among(cands, song, cards, k, o),
    decreases k,
{
    if k == 0 {
        None
    } else {
        let p = lemma_best_among_exists(cands, song, cards, k - 1);
        let c = k - 1;
        if disjoint(cands[c].cards, cards) {
            let v = score_of(cands, c, song);
            match p {
                Some(b) => if b >= v {
                    let w = choose|w: int| 0 <= w < k - 1 && disjoint(cands[w].cards, cards) && score_of(cands, w, song) == b;
                    assert(0 <= w < k && disjoint(cands[w].cards, cards) && score_of(cands, w, song) == b);
                    p
                } else {
                    Some(v)
                },
                None => Some(v),
            }
        } else {
            match p {
                Some(b) => {
                    let w2 = choose|w: int| 0 <= w < k - 1 && disjoint(cands[w].cards, cards) && score_of(cands, w, song) == b;
                    assert(0 <= w2 < k && disjoint(cands[w2].cards, cards) && score_of(cands, w2, song) == b);
                    p
                },
                None => None,
            }
        }
    }
}

proof fn lemma_best_bound_is_best(cands: Seq<Candidate>, song: int, cards: [usize; TEAM_SIZE])
    ensures
        is_best_disjoint_score(cands, song, cards, best_bound(cands, song, cards)),
{
    let o = lemma_best_among_exists(cands, song, cards, cands.len() as int);
    assert(is_best_disjoint_score(cands, song, cards, o));
}

proof fn lemma_renumbered_keeps_overlap(a: Candidate, b: Candidate, ma: Candidate, mb: Candidate, positions: Seq<usize>, count: int)
    requires
        numbering_ok(positions, count),
        renumbered(a, ma, positions),
        renumbered(b, mb, positions),
        disjoint(ma.cards, mb.cards),
    ensures
        disjoint(a.cards, b.cards),
{
    assert forall|i: int, j: int| 0 <= i < TEAM_SIZE && 0 <= j < TEAM_SIZE implies a.cards[i] != b.cards[j] by {
        assert(slot_renumbered(a, ma, positions, i));
        assert(slot_renumbered(b, mb, positions, j));
        if a.cards[i] == b.cards[j] {
            assert(ma.cards[i] == mb.cards[j]);
            assert(team_has(mb.cards, ma.cards[i]));
        }
    }
    if !disjoint(a.cards, b.cards) {
        let i = choose|i: int| 0 <= i < TEAM_SIZE && team_has(b.cards, a.cards[i]);
        let j = choose|j: int| 0 <= j < TEAM_SIZE && b.cards[j] == a.cards[i];
        assert(false);
    }
}

/// Renumbering the cards leaves the exact bounds as they are.
proof fn lemma_renumbered_best(orig: Seq<Candidate>, mapped: Seq<Candidate>, positions: Seq<usize>, count: int, song: int, x: int)
    requires
        numbering_ok(positions, count),
        orig.len() == mapped.len(),
        0 <= x < orig.len(),
        forall|q: int| 0 <= q < orig.len() ==> renumbered(orig[q], #[trigger] mapped[q], positions),
    ensures
        best_bound(mapped, song, mapped[x].cards) == best_bound(orig, song, orig[x].cards),
{
    let o = best_bound(orig, song, orig[x].cards);
    lemma_best_bound_is_best(orig, song, orig[x].cards);
    assert forall|c: int| 0 <= c < orig.len() implies
        (disjoint(#[trigger] mapped[c].cards, mapped[x].cards) <==> disjoint(orig[c].cards, orig[x].cards)) by {
        assert(renumbered(orig[c], mapped[c], positions));
        assert(renumbered(orig[x], mapped[x], positions));
        if disjoint(orig[c].cards, orig[x].cards) {
            lemma_renumbered_keeps_disjoint(orig[c], orig[x], mapped[c], mapped[x], positions, count);
        }
        if disjoint(mapped[c].cards, mapped[x].cards) {
            lemma_renumbered_keeps_overlap(orig[c], orig[x], mapped[c], mapped[x], positions, count);
        }
    }
    assert forall|c: int| 0 <= c < orig.len() implies #[trigger] score_of(mapped, c, song) == score_of(orig, c, song) by {
        assert(renumbered(orig[c], mapped[c], positions));
    }
    if let Some(b) = o {
        let w = choose|w: int| 0 <= w < orig.len() && disjoint(orig[w].cards, orig[x].cards) && score_of(orig, w, song) == b;
        assert(disjoint(mapped[w].cards, mapped[x].cards));
        assert(score_of(mapped, w, song) == b);
    }
    assert forall|c: int| 0 <= c < mapped.len() && #[trigger] disjoint(mapped[c].cards, mapped[x].cards)
        implies (o matches Some(b) && score_of(mapped, c, song) <= b) by {
        assert(disjoint(orig[c].cards, orig[x].cards));
    }
    assert(is_best_disjoint_score(mapped, song, mapped[x].cards, o));
    lemma_best_bound_unique(mapped, song, mapped[x].cards, o);
}

proof fn lemma_pair_bounds_same_scores(a: Seq<Candidate>, b: Seq<Candidate>, table: Seq<[Option<i64>; SONG_COUNT]>, x: int)
    requires
        a.len() == b.len(),
        x <= a.len(),
        forall|q: int| 0 <= q < a.len() ==> #[trigger] a[q].scores == b[q].scores,
    ensures
        pair_bounds_spec(a, table, x) == pair_bounds_spec(b, table, x),
    decreases x,
{
    if x > 0 {
        lemma_pair_bounds_same_scores(a, b, table, x - 1);
        assert(a[x - 1].scores == b[x - 1].scores);
    }
}

/// The budget of the ranked prefixes covers every candidate, whatever the cards.
pub open spec fn prefix_covers(n: int) -> bool {
    ((PREFIX_BYTE_BUDGET / 8) as int / (if 5 * n > 1 { 5 * n } else { 1int })) * 64 >= n
}

/// How `candidate_indices` chose: `cands` are the teams and scores `cards`
/// and `scores` gave for the indices, `flags` the marks of the combined bound
/// check on them, and the indices kept are those marked, in their order.
/// Every index of a card-disjoint triple reaching `floor` is marked and kept,
/// and where the prefix budget covers every candidate the marks are those
/// the exact best disjoint scores give.
pub open spec fn indices_explained<FC: Fn(usize) -> [usize; TEAM_SIZE], FS: Fn(usize) -> [i64; SONG_COUNT]>(
    indices: Seq<usize>,
    cards: FC,
    scores: FS,
    floor: i64,
    r: Seq<usize>,
    cands: Seq<Candidate>,
    flags: Seq<bool>,
) -> bool {
    &&& cands.len() == indices.len()
    &&& flags.len() == indices.len()
    &&& forall|k: int| 0 <= k < indices.len() ==> #[trigger] cards.ensures((indices[k],), cands[k].cards)
        && scores.ensures((indices[k],), cands[k].scores)
    &&& r == kept_by(indices, flags, indices.len() as int)
    &&& (scores_fit_i32(cands) ==> forall|a: int, b: int, c: int| #[trigger] feasible_triple(cands, a, b, c, floor)
        ==> flags[a] && flags[b] && flags[c]
            && r.contains(indices[a]) && r.contains(indices[b]) && r.contains(indices[c]))
    &&& (prefix_covers(indices.len() as int) ==> forall|table: Seq<[Option<i64>; SONG_COUNT]>|
        exact_table(cands, table) ==> flags == #[trigger] flags_spec(true, true, cands, table, floor))
}

/// The indices whose teams may still be part of a three-team plan reaching `floor`, in their
/// original order. `cards` and `scores` give each index's team and scores; cards are
/// renumbered densely in order of first appearance before both bounds are applied, so every
/// index of a card-disjoint triple reaching `floor` is kept.
pub fn candidate_indices<FC: Fn(usize) -> [usize; TEAM_SIZE], FS: Fn(usize) -> [i64; SONG_COUNT]>(
    indices: Vec<usize>,
    cards: FC,
    scores: FS,
    floor: i64,
    _stage: &str,
) -> (r: Vec<usize>)
    requires
        indices@.len() <= usize::MAX / 128,
        forall|i: usize| #[trigger] cards.requires((i,)),
        forall|i: usize| #[trigger] scores.requires((i,)),
        forall|i: usize, team: [usize; TEAM_SIZE]| #[trigger] cards.ensures((i,), team)
            ==> forall|k: int| 0 <= k < TEAM_SIZE ==> #[trigger] team[k] < usize::MAX,
    ensures
        exists|cands: Seq<Candidate>, flags: Seq<bool>|
            #[trigger] indices_explained(indices@, cards, scores, floor, r@, cands, flags),
{
    let n = indices.len();
    let mut orig: Vec<Candidate> = Vec::new();
    let mut raw_card_count: usize = 0;
    let mut i: usize = 0;
    while i < n
        invariant
            i <= n == indices@.len(),
            forall|j: usize, team: [usize; TEAM_SIZE]| #[trigger] cards.ensures((j,), team)
                ==> forall|k: int| 0 <= k < TEAM_SIZE ==> #[trigger] team[k] < usize::MAX,
            forall|j: usize| #[trigger] cards.requires((j,)),
            forall|j: usize| #[trigger] scores.requires((j,)),
            orig@.len() == i,
            forall|q: int| 0 <= q < i ==> #[trigger] cards.ensures((indices@[q],), orig@[q].cards)
                && scores.ensures((indices@[q],), orig@[q].scores),
            forall|q: int, k: int| 0 <= q < i && 0 <= k < TEAM_SIZE ==> #[trigger] orig@[q].cards[k] < raw_card_count,
        decreases n - i,
    {
        let team = cards(indices[i]);
        let team_scores = scores(indices[i]);
        let mut k: usize = 0;
        while k < TEAM_SIZE
            invariant
                k <= TEAM_SIZE,
                forall|m: int| 0 <= m < TEAM_SIZE ==> #[trigger] team[m] < usize::MAX,
                forall|q: int, m: int| 0 <= q < i && 0 <= m < TEAM_SIZE ==> #[trigger] orig@[q].cards[m] < raw_card_count,
                forall|m: int| 0 <= m < k ==> #[trigger] team[m] < raw_card_count,
                orig@.len() == i,
            decreases TEAM_SIZE - k,
        {
            if team[k] >= raw_card_count {
                raw_card_count = team[k] + 1;
            }
            k = k + 1;
        }
        orig.push(Candidate { cards: team, scores: team_scores });
        i = i + 1;
    }
    let mut positions: Vec<usize> = Vec::new();
    let mut x: usize = 0;
    while x < raw_card_count
        invariant
            x <= raw_card_count,
            positions@.len() == x,
            forall|q: int| 0 <= q < x ==> #[trigger] positions@[q] == usize::MAX,
        decreases raw_card_count - x,
    {
        positions.push(usize::MAX);
        x = x + 1;
    }
    let mut mapped: Vec<Candidate> = Vec::new();
    let mut card_count: usize = 0;
    let mut i: usize = 0;
    while i < n
        invariant
            i <= n == indices@.len() == orig@.len(),
            n <= usize::MAX / 128,
            positions@.len() == raw_card_count,
            forall|q: int, k: int| 0 <= q < n && 0 <= k < TEAM_SIZE ==> #[trigger] orig@[q].cards[k] < raw_card_count,
            card_count <= 5 * i,
            numbering_ok(positions@, card_count as int),
            mapped@.len() == i,
            forall|q: int| 0 <= q < i ==> renumbered(orig@[q], #[trigger] mapped@[q], positions@),
        decreases n - i,
    {
        let c = orig[i];
        let ghost before = positions@;
        let q0 = assign_position(&mut positions, &mut card_count, c.cards[0]);
        let ghost s1 = positions@;
        let q1 = assign_position(&mut positions, &mut card_count, c.cards[1]);
        let ghost s2 = positions@;
        let q2 = assign_position(&mut positions, &mut card_count, c.cards[2]);
        let ghost s3 = positions@;
        let q3 = assign_position(&mut positions, &mut card_count, c.cards[3]);
        let ghost s4 = positions@;
        let q4 = assign_position(&mut positions, &mut card_count, c.cards[4]);
        let new_cards: [usize; TEAM_SIZE] = [q0, q1, q2, q3, q4];
        proof {
            assert forall|x: int| 0 <= x < before.len() && before[x] != usize::MAX implies #[trigger] positions@[x] == before[x] by {
                assert(s1[x] == before[x]);
                assert(s2[x] == s1[x]);
                assert(s3[x] == s2[x]);
                assert(s4[x] == s3[x]);
            }
            assert(positions@[c.cards[0] as int] == q0) by { assert(s1[c.cards[0] as int] == q0); }
            assert(positions@[c.cards[1] as int] == q1) by { assert(s2[c.cards[1] as int] == q1); }
            assert(positions@[c.cards[2] as int] == q2) by { assert(s3[c.cards[2] as int] == q2); }
            assert(positions@[c.cards[3] as int] == q3) by { assert(s4[c.cards[3] as int] == q3); }
            assert(c == orig@[i as int]);
            assert(positions@.len() == before.len());
            assert(c.cards[0] < raw_card_count && c.cards[1] < raw_card_count && c.cards[2] < raw_card_count
                && c.cards[3] < raw_card_count && c.cards[4] < raw_card_count);
        }
        let m = Candidate { cards: new_cards, scores: c.scores };
        proof {
            assert forall|q: int| 0 <= q < i implies renumbered(orig@[q], #[trigger] mapped@[q], positions@) by {
                lemma_renumbered_extends(orig@[q], mapped@[q], before, positions@);
            }
        }
        mapped.push(m);
        i = i + 1;
    }
    let words_per_card: usize = if card_count > 1 { card_count } else { 1 };
    let budget_limit = (PREFIX_BYTE_BUDGET / 8 / words_per_card) * 64;
    proof {
        assert forall|c: int, k: int| 0 <= c < mapped@.len() && 0 <= k < TEAM_SIZE implies
            #[trigger] mapped@[c].cards[k] < usize::MAX by {
            assert(renumbered(orig@[c], mapped@[c], positions@));
            assert(slot_renumbered(orig@[c], mapped@[c], positions@, k));
        }
    }
    let active = compatible_flags(&mapped, floor, budget_limit);
    let mut kept: Vec<usize> = Vec::new();
    let mut i: usize = 0;
    while i < n
        invariant
            i <= n == indices@.len() == active@.len(),
            kept@ == kept_by(indices@, active@, i as int),
        decreases n - i,
    {
        if active[i] {
            kept.push(indices[i]);
        }
        i = i + 1;
    }
    proof {
        let cands = orig@;
        let flags = active@;
        assert forall|a: int, b: int, c: int| scores_fit_i32(cands) && #[trigger] feasible_triple(cands, a, b, c, floor) implies
            flags[a] && flags[b] && flags[c] && kept@.contains(indices@[a]) && kept@.contains(indices@[b]) && kept@.contains(indices@[c]) by {
            assert(renumbered(cands[a], mapped@[a], positions@));
            assert(renumbered(cands[b], mapped@[b], positions@));
            assert(renumbered(cands[c], mapped@[c], positions@));
            lemma_renumbered_keeps_disjoint(cands[a], cands[b], mapped@[a], mapped@[b], positions@, card_count as int);
            lemma_renumbered_keeps_disjoint(cands[a], cands[c], mapped@[a], mapped@[c], positions@, card_count as int);
            lemma_renumbered_keeps_disjoint(cands[b], cands[c], mapped@[b], mapped@[c], positions@, card_count as int);
            assert forall|q: int, s: int| 0 <= q < mapped@.len() && 0 <= s < SONG_COUNT implies
                i32::MIN <= #[trigger] mapped@[q].scores[s] <= i32::MAX by {
                assert(renumbered(cands[q], mapped@[q], positions@));
                assert(cands[q].scores[s] == mapped@[q].scores[s]);
            }
            assert(feasible_triple(mapped@, a, b, c, floor));
            lemma_kept_by_contains(indices@, flags, n as int, a);
            lemma_kept_by_contains(indices@, flags, n as int, b);
            lemma_kept_by_contains(indices@, flags, n as int, c);
        }
        assert(cands.len() == indices@.len() && flags.len() == indices@.len());
        assert(forall|k: int| 0 <= k < indices@.len() ==> #[trigger] cards.ensures((indices@[k],), cands[k].cards)
                && scores.ensures((indices@[k],), cands[k].scores));
        assert(kept@ == kept_by(indices@, flags, indices@.len() as int));
        if prefix_covers(n as int) {
            let five: int = if 5 * n > 1 { 5 * n } else { 1 };
            assert(1 <= words_per_card <= five);
            vstd::arithmetic::div_mod::lemma_div_is_ordered_by_denominator((PREFIX_BYTE_BUDGET / 8) as int, words_per_card as int, five);
            assert(budget_limit >= n);
            let mc = mapped@;
            let tm = choose|table: Seq<[Option<i64>; SONG_COUNT]>| {
                &&& table.len() == mc.len()
                &&& forall|x: int, s: int| 0 <= x < mc.len() && 0 <= s < SONG_COUNT ==>
                    #[trigger] bounds_disjoint_scores(mc, s, mc[x].cards, table[x][s])
                &&& (budget_limit >= mc.len() ==> exact_table(mc, table))
                &&& active@ == #[trigger] flags_spec(true, true, mc, table, floor)
            };
            assert forall|table: Seq<[Option<i64>; SONG_COUNT]>| exact_table(cands, table) implies
                flags == #[trigger] flags_spec(true, true, cands, table, floor) by {
                assert forall|x: int| 0 <= x < table.len() implies table[x] == tm[x] by {
                    lemma_renumbered_best(cands, mc, positions@, card_count as int, 0, x);
                    lemma_renumbered_best(cands, mc, positions@, card_count as int, 1, x);
                    lemma_renumbered_best(cands, mc, positions@, card_count as int, 2, x);
                    assert(table[x][0] == tm[x][0] && table[x][1] == tm[x][1] && table[x][2] == tm[x][2]);
                    assert(table[x] =~= tm[x]);
                }
                assert(table =~= tm);
                assert forall|q: int| 0 <= q < cands.len() implies #[trigger] cands[q].scores == mc[q].scores by {
                    assert(renumbered(cands[q], mc[q], positions@));
                }
                lemma_pair_bounds_same_scores(cands, mc, table, cands.len() as int);
                assert(flags_spec(true, true, cands, table, floor) =~= flags_spec(true, true, mc, table, floor));
            }
        }
        assert(scores_fit_i32(cands) ==> forall|a: int, b: int, c: int| #[trigger] feasible_triple(cands, a, b, c, floor)
            ==> flags[a] && flags[b] && flags[c]
                && kept@.contains(indices@[a]) && kept@.contains(indices@[b]) && kept@.contains(indices@[c]));
        assert(indices_explained(indices@, cards, scores, floor, kept@, cands, flags));
    }
    kept
}

} // verus!
