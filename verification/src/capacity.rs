//! How many teams of five distinct characters a card pool allows: cards are
//! grouped by character, and a team takes one card from each of five groups.
use vstd::prelude::*;
use crate::items::sorted_distinct;
use crate::prune_signature::{SignatureCard, TEAM_SIZE};

verus! {

/// The number of ways to take one card from each of `k` distinct groups,
/// among the groups from `start` on.
pub open spec fn picks(sizes: Seq<nat>, start: int, k: nat) -> nat
    decreases sizes.len() - start,
{
    if k == 0 {
        1
    } else if start < 0 || start >= sizes.len() {
        0
    } else {
        sizes[start] * picks(sizes, start + 1, (k - 1) as nat) + picks(sizes, start + 1, k)
    }
}

/// The size of each group.
pub open spec fn group_sizes(groups: Seq<Vec<usize>>) -> Seq<nat> {
    groups.map_values(|g: Vec<usize>| g@.len())
}

/// `total`, but no more than `limit`.
pub open spec fn capped(total: int, limit: int) -> int {
    if total < limit {
        total
    } else {
        limit
    }
}

proof fn lemma_too_few_groups(sizes: Seq<nat>, start: int, k: nat)
    requires
        0 <= start,
        k > 0,
        sizes.len() - start < k,
    ensures
        picks(sizes, start, k) == 0,
    decreases sizes.len() - start,
{
    if start < sizes.len() {
        lemma_too_few_groups(sizes, start + 1, (k - 1) as nat);
        lemma_too_few_groups(sizes, start + 1, k);
        assert(sizes[start] * picks(sizes, start + 1, (k - 1) as nat) == 0) by (nonlinear_arith)
            requires
                picks(sizes, start + 1, (k - 1) as nat) == 0,
        ;
    }
}

/// `a * b`, or `usize::MAX` where that does not fit.
fn saturating_product(a: usize, b: usize) -> (r: usize)
    ensures
        a * b <= usize::MAX ==> r == a * b,
        a * b > usize::MAX ==> r == usize::MAX,
{
    if b == 0 {
        0
    } else if a > usize::MAX / b {
        assert(a * b > usize::MAX) by (nonlinear_arith)
            requires
                b > 0,
                a > usize::MAX / b,
        ;
        usize::MAX
    } else {
        assert(a * b <= usize::MAX) by (nonlinear_arith)
            requires
                b > 0,
                a <= usize::MAX / b,
        ;
        a * b
    }
}

proof fn lemma_capped_step(old: int, current: int, size: int, next: int, rest: int, done: int, limit: int)
    requires
        0 <= old,
        0 <= current,
        0 <= size,
        0 <= rest,
        0 <= done,
        0 <= limit <= usize::MAX,
        current * size <= usize::MAX ==> next == current * size,
        current * size > usize::MAX ==> next == usize::MAX,
    ensures
        capped(capped(old + current * done, limit) + next * rest, limit) == capped(
            old + current * (done + size * rest),
            limit,
        ),
{
    assert(current * (done + size * rest) == current * done + (current * size) * rest)
        by (nonlinear_arith);
    assert(next * rest >= 0) by (nonlinear_arith)
        requires
            next >= 0,
            rest >= 0,
    ;
    assert(current * done >= 0) by (nonlinear_arith)
        requires
            current >= 0,
            done >= 0,
    ;
    if current * size > usize::MAX && rest > 0 {
        assert((current * size) * rest >= current * size) by (nonlinear_arith)
            requires
                current * size >= 0,
                rest >= 1,
        ;
        assert(next * rest >= next) by (nonlinear_arith)
            requires
                next >= 0,
                rest >= 1,
        ;
    }
    if current * size > usize::MAX && rest == 0 {
        assert(next * rest == 0);
        assert((current * size) * rest == 0);
    }
}

/// Adds to `capacity` the teams that take one card from each of
/// `5 - selected_groups` more groups from `group_start` on, each counted
/// `current_product` times, stopping at `max_candidates`.
fn accumulate_candidate_capacity(
    groups: &[Vec<usize>],
    group_start: usize,
    selected_groups: usize,
    current_product: usize,
    max_candidates: usize,
    capacity: &mut usize,
)
    requires
        selected_groups <= TEAM_SIZE,
        group_start + (TEAM_SIZE - selected_groups) <= groups@.len(),
        *old(capacity) <= max_candidates,
    ensures
        *final(capacity) == capped(
            *old(capacity) + current_product * picks(
                group_sizes(groups@),
                group_start as int,
                (TEAM_SIZE - selected_groups) as nat,
            ),
            max_candidates as int,
        ),
    decreases TEAM_SIZE - selected_groups,
{
    let ghost sizes = group_sizes(groups@);
    let ghost start_value = *capacity as int;
    let ghost k = (TEAM_SIZE - selected_groups) as nat;
    if *capacity >= max_candidates {
        assert(current_product * picks(sizes, group_start as int, k) >= 0) by (nonlinear_arith);
        return;
    }
    if selected_groups == TEAM_SIZE {
        assert(current_product * picks(sizes, group_start as int, k) == current_product) by (
        nonlinear_arith)
            requires
                picks(sizes, group_start as int, k) == 1,
        ;
        let total = capacity.saturating_add(current_product);
        *capacity = if total < max_candidates {
            total
        } else {
            max_candidates
        };
        return;
    }
    let remaining = TEAM_SIZE - selected_groups;
    let end = groups.len().saturating_sub(remaining) + 1;
    let mut g = group_start;
    while g < end
        invariant
            group_start <= g <= end,
            0 <= start_value,
            end == groups@.len() - remaining + 1,
            remaining == TEAM_SIZE - selected_groups,
            k == remaining,
            0 < remaining <= TEAM_SIZE,
            selected_groups < TEAM_SIZE,
            sizes == group_sizes(groups@),
            *capacity <= max_candidates,
            picks(sizes, group_start as int, k) >= picks(sizes, g as int, k),
            *capacity == capped(
                start_value + current_product * (picks(sizes, group_start as int, k) - picks(
                    sizes,
                    g as int,
                    k,
                )),
                max_candidates as int,
            ),
        decreases end - g,
    {
        let size = groups[g].len();
        assert(sizes[g as int] == size);
        let next = saturating_product(current_product, size);
        let ghost before = *capacity as int;
        let ghost rest = picks(sizes, g + 1, (k - 1) as nat);
        let ghost done = picks(sizes, group_start as int, k) - picks(sizes, g as int, k);
        assert(picks(sizes, g as int, k) == size * rest + picks(sizes, g + 1, k));
        accumulate_candidate_capacity(groups, g + 1, selected_groups + 1, next, max_candidates, capacity);
        proof {
            assert(size * rest >= 0) by (nonlinear_arith)
                requires
                    size >= 0,
                    rest >= 0,
            ;
            lemma_capped_step(
                start_value,
                current_product as int,
                size as int,
                next as int,
                rest as int,
                done,
                max_candidates as int,
            );
        }
        g += 1;
    }
    proof {
        lemma_too_few_groups(sizes, end as int, k);
    }
}

/// How many teams of five distinct characters the groups allow, one card
/// from each of five groups, but no more than `max_candidates`.
pub fn candidate_capacity(groups: &[Vec<usize>], max_candidates: usize) -> (r: usize)
    ensures
        r == capped(picks(group_sizes(groups@), 0, 5) as int, max_candidates as int),
{
    if groups.len() < TEAM_SIZE {
        proof {
            lemma_too_few_groups(group_sizes(groups@), 0, 5);
        }
        return 0;
    }
    let mut capacity: usize = 0;
    accumulate_candidate_capacity(groups, 0, 0, 1, max_candidates, &mut capacity);
    if capacity < max_candidates {
        capacity
    } else {
        max_candidates
    }
}


/// The cards among `raw_indices` whose character is `character`, in the order
/// of `raw_indices`.
pub open spec fn character_group(
    cards: Seq<SignatureCard>,
    raw_indices: Seq<usize>,
    character: u32,
) -> Seq<usize> {
    raw_indices.filter(|raw: usize| cards[raw as int].character_id == character)
}

/// `groups` holds one group per character of the cards at `raw_indices`, in
/// the increasing order `characters` of their ids.
pub open spec fn grouped_by(
    cards: Seq<SignatureCard>,
    raw_indices: Seq<usize>,
    characters: Seq<u32>,
    groups: Seq<Vec<usize>>,
) -> bool {
    &&& characters.len() == groups.len()
    &&& forall|i: int, j: int| 0 <= i < j < characters.len() ==> characters[i] < characters[j]
    &&& forall|c: u32|
        characters.contains(c) <==> exists|j: int|
            0 <= j < raw_indices.len() && cards[#[trigger] raw_indices[j] as int].character_id == c
    &&& forall|i: int|
        0 <= i < groups.len() ==> #[trigger] groups[i]@ == character_group(
            cards,
            raw_indices,
            characters[i],
        )
}

/// Groups the cards at `raw_indices` by character: one group per character,
/// in increasing order of character id, each in the order of `raw_indices`.
pub fn character_groups_for_raw_indices(cards: &[SignatureCard], raw_indices: &[usize]) -> (r: Vec<
    Vec<usize>,
>)
    requires
        forall|j: int| 0 <= j < raw_indices@.len() ==> raw_indices@[j] < cards@.len(),
    ensures
        exists|characters: Seq<u32>| #[trigger] grouped_by(cards@, raw_indices@, characters, r@),
{
    let mut of_raw: Vec<u32> = Vec::new();
    let mut t: usize = 0;
    while t < raw_indices.len()
        invariant
            t <= raw_indices@.len(),
            of_raw@.len() == t,
            forall|j: int| 0 <= j < raw_indices@.len() ==> raw_indices@[j] < cards@.len(),
            forall|j: int|
                0 <= j < t ==> of_raw@[j] == cards@[raw_indices@[j] as int].character_id,
        decreases raw_indices.len() - t,
    {
        of_raw.push(cards[raw_indices[t]].character_id);
        t += 1;
    }
    let characters = sorted_distinct(of_raw.as_slice());
    let mut groups: Vec<Vec<usize>> = Vec::new();
    let mut i: usize = 0;
    while i < characters.len()
        invariant
            i <= characters@.len(),
            groups@.len() == i,
            of_raw@.len() == raw_indices@.len(),
            forall|j: int|
                0 <= j < raw_indices@.len() ==> of_raw@[j] == cards@[raw_indices@[j] as int].character_id,
            forall|g: int|
                0 <= g < i ==> #[trigger] groups@[g]@ == character_group(
                    cards@,
                    raw_indices@,
                    characters@[g],
                ),
        decreases characters.len() - i,
    {
        let character = characters[i];
        let mut group: Vec<usize> = Vec::new();
        let mut t: usize = 0;
        while t < raw_indices.len()
            invariant
                t <= raw_indices@.len(),
                of_raw@.len() == raw_indices@.len(),
                forall|j: int|
                    0 <= j < raw_indices@.len() ==> of_raw@[j] == cards@[raw_indices@[j] as int].character_id,
                group@ == character_group(cards@, raw_indices@.take(t as int), character),
            decreases raw_indices.len() - t,
        {
            assert(raw_indices@.take(t as int + 1).drop_last() =~= raw_indices@.take(t as int));
            reveal(Seq::filter);
            if of_raw[t] == character {
                group.push(raw_indices[t]);
            }
            t += 1;
        }
        assert(raw_indices@.take(raw_indices@.len() as int) =~= raw_indices@);
        groups.push(group);
        i += 1;
    }
    proof {
        let cs = characters@;
        assert forall|c: u32|
            cs.contains(c) <==> exists|j: int|
                0 <= j < raw_indices@.len() && cards@[#[trigger] raw_indices@[j] as int].character_id
                    == c by {
            if of_raw@.contains(c) {
                let j = choose|j: int| 0 <= j < of_raw@.len() && of_raw@[j] == c;
                assert(cards@[raw_indices@[j] as int].character_id == c);
            }
            if exists|j: int|
                0 <= j < raw_indices@.len() && cards@[#[trigger] raw_indices@[j] as int].character_id
                    == c {
                let j = choose|j: int|
                    0 <= j < raw_indices@.len() && cards@[#[trigger] raw_indices@[j] as int].character_id
                        == c;
                assert(of_raw@[j] == c);
            }
        }
        assert(grouped_by(cards@, raw_indices@, cs, groups@));
    }
    groups
}

} // verus!
