//! The card pools of the medley search: one per team signature whose active
//! cards can field a team, tried from the smallest estimated search first.
use vstd::prelude::*;
use crate::capacity::{
    candidate_capacity, capped, character_groups_for_raw_indices, group_sizes, grouped_by, picks,
};
use crate::prune_signature::{MedleyPruneSignature, SignatureCard, TEAM_SIZE};

verus! {

/// The active cards of one team signature, with the number of teams they allow.
#[derive(Debug, Clone, PartialEq, Eq)]
pub struct SignatureCandidatePool {
    pub signature: MedleyPruneSignature,
    pub active_card_indices: Vec<usize>,
    pub estimated_candidates: usize,
}

/// The pool for a signature and its active cards, where they hold five cards
/// of five distinct characters; with the number of teams they allow.
pub fn pool_for_signature(
    cards: &[SignatureCard],
    signature: MedleyPruneSignature,
    active_card_indices: Vec<usize>,
) -> (r: (Option<SignatureCandidatePool>, usize))
    requires
        forall|j: int|
            0 <= j < active_card_indices@.len() ==> active_card_indices@[j] < cards@.len(),
    ensures
        exists|characters: Seq<u32>, groups: Seq<Vec<usize>>|
            #[trigger] grouped_by(cards@, active_card_indices@, characters, groups) && {
                &&& r.1 == capped(picks(group_sizes(groups), 0, 5) as int, usize::MAX as int)
                &&& r.0 is Some <==> (active_card_indices@.len() >= TEAM_SIZE && groups.len()
                    >= TEAM_SIZE)
                &&& r.0 matches Some(p) ==> p.signature == signature && p.active_card_indices@
                    == active_card_indices@ && p.estimated_candidates == r.1
            },
{
    let groups = character_groups_for_raw_indices(cards, active_card_indices.as_slice());
    let estimated_candidates = candidate_capacity(groups.as_slice(), usize::MAX);
    if active_card_indices.len() >= TEAM_SIZE && groups.len() >= TEAM_SIZE {
        (
            Some(SignatureCandidatePool { signature, active_card_indices, estimated_candidates }),
            estimated_candidates,
        )
    } else {
        (None, estimated_candidates)
    }
}

/// What pools are ordered by: the estimated candidates, then the number of
/// active cards.
pub open spec fn pool_key(p: SignatureCandidatePool) -> (nat, nat) {
    (p.estimated_candidates as nat, p.active_card_indices@.len())
}

/// `a` comes no later than `b`.
pub open spec fn key_le(a: (nat, nat), b: (nat, nat)) -> bool {
    a.0 < b.0 || (a.0 == b.0 && a.1 <= b.1)
}

/// `x` placed after every pool of `s` whose key is not larger.
pub open spec fn stable_insert(s: Seq<SignatureCandidatePool>, x: SignatureCandidatePool) -> Seq<
    SignatureCandidatePool,
>
    decreases s.len(),
{
    if s.len() == 0 {
        seq![x]
    } else if key_le(pool_key(s.last()), pool_key(x)) {
        s.push(x)
    } else {
        stable_insert(s.drop_last(), x).push(s.last())
    }
}

/// The pools in the order a stable sort by key gives.
pub open spec fn stable_sorted(s: Seq<SignatureCandidatePool>) -> Seq<SignatureCandidatePool>
    decreases s.len(),
{
    if s.len() == 0 {
        Seq::empty()
    } else {
        stable_insert(stable_sorted(s.drop_last()), s.last())
    }
}

/// The keys never decrease.
pub open spec fn keys_ordered(s: Seq<SignatureCandidatePool>) -> bool {
    forall|i: int, j: int|
        0 <= i < j < s.len() ==> key_le(pool_key(#[trigger] s[i]), pool_key(#[trigger] s[j]))
}

proof fn lemma_insert_at(s: Seq<SignatureCandidatePool>, x: SignatureCandidatePool, j: int)
    requires
        0 <= j <= s.len(),
        forall|t: int| j <= t < s.len() ==> !key_le(pool_key(#[trigger] s[t]), pool_key(x)),
        j > 0 ==> key_le(pool_key(s[j - 1]), pool_key(x)),
    ensures
        stable_insert(s, x) == s.insert(j, x),
    decreases s.len(),
{
    if s.len() == 0 {
        assert(s.insert(j, x) =~= seq![x]);
    } else if j == s.len() {
        assert(s.insert(j, x) =~= s.push(x));
    } else {
        let m = s.drop_last();
        assert forall|t: int| j <= t < m.len() implies !key_le(pool_key(#[trigger] m[t]), pool_key(x)) by {
            assert(m[t] == s[t]);
        }
        if j > 0 {
            assert(m[j - 1] == s[j - 1]);
        }
        lemma_insert_at(m, x, j);
        assert(s.insert(j, x) =~= m.insert(j, x).push(s.last()));
    }
}

proof fn lemma_insert_keeps_order(s: Seq<SignatureCandidatePool>, x: SignatureCandidatePool, j: int)
    requires
        keys_ordered(s),
        0 <= j <= s.len(),
        forall|t: int| j <= t < s.len() ==> !key_le(pool_key(#[trigger] s[t]), pool_key(x)),
        j > 0 ==> key_le(pool_key(s[j - 1]), pool_key(x)),
    ensures
        keys_ordered(s.insert(j, x)),
{
    let out = s.insert(j, x);
    assert forall|a: int, b: int| 0 <= a < b < out.len() implies key_le(
        pool_key(#[trigger] out[a]),
        pool_key(#[trigger] out[b]),
    ) by {
        if a < j && b < j {
            assert(out[a] == s[a] && out[b] == s[b]);
        } else if a < j && b == j {
            assert(out[a] == s[a]);
            if a < j - 1 {
                assert(key_le(pool_key(s[a]), pool_key(s[j - 1])));
            }
        } else if a < j {
            assert(out[a] == s[a] && out[b] == s[b - 1]);
        } else if a == j {
            assert(out[b] == s[b - 1]);
        } else {
            assert(out[a] == s[a - 1] && out[b] == s[b - 1]);
        }
    }
}

fn comes_no_later(a: &SignatureCandidatePool, b: &SignatureCandidatePool) -> (r: bool)
    ensures
        r == key_le(pool_key(*a), pool_key(*b)),
{
    a.estimated_candidates < b.estimated_candidates || (a.estimated_candidates
        == b.estimated_candidates && a.active_card_indices.len() <= b.active_card_indices.len())
}

/// Orders the pools, fewest estimated candidates first and then fewest active
/// cards; pools with equal keys keep their order.
pub fn sort_signature_pools(pools: Vec<SignatureCandidatePool>) -> (r: Vec<SignatureCandidatePool>)
    ensures
        r@ == stable_sorted(pools@),
        keys_ordered(r@),
{
    let ghost all = pools@;
    let mut rest = pools;
    let mut out: Vec<SignatureCandidatePool> = Vec::new();
    assert(all.take(0) =~= Seq::<SignatureCandidatePool>::empty());
    assert(all.skip(0) =~= all);
    while rest.len() > 0
        invariant
            rest@.len() <= all.len(),
            rest@ == all.skip(all.len() - rest@.len()),
            out@ == stable_sorted(all.take(all.len() - rest@.len())),
            keys_ordered(out@),
        decreases rest@.len(),
    {
        let ghost m = all.len() - rest@.len();
        let x = rest.remove(0);
        assert(x == all[m]);
        assert(rest@ =~= all.skip(m + 1));
        let mut j = out.len();
        while j > 0 && !comes_no_later(&out[j - 1], &x)
            invariant
                j <= out@.len(),
                forall|t: int| j <= t < out@.len() ==> !key_le(pool_key(#[trigger] out@[t]), pool_key(x)),
            decreases j,
        {
            j -= 1;
        }
        proof {
            lemma_insert_at(out@, x, j as int);
            lemma_insert_keeps_order(out@, x, j as int);
            assert(all.take(m + 1).drop_last() =~= all.take(m));
            assert(all.take(m + 1).last() == x);
        }
        out.insert(j, x);
    }
    assert(all.take(all.len() as int) =~= all);
    out
}

} // verus!
