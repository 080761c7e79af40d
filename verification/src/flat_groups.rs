//! Cards grouped by character and laid out flat: the card indices of each
//! character one after another, with the offset where each group starts.
use vstd::prelude::*;
use crate::capacity::{character_groups_for_raw_indices, grouped_by};
use crate::model::Attribute;
use crate::prune_signature::SignatureCard;

verus! {

/// Cards grouped by character, laid out flat.
pub struct FlatCharacterGroups {
    pub card_indices: Vec<usize>,
    pub group_indices: Vec<usize>,
    pub group_offsets: Vec<usize>,
    pub card_band_ids: Vec<u32>,
    pub card_attributes: Vec<Attribute>,
    pub card_band_id_codes: Vec<i32>,
    pub card_attribute_codes: Vec<i32>,
}

/// The number an attribute is coded as.
pub open spec fn attribute_code_spec(attribute: Attribute) -> i32 {
    match attribute {
        Attribute::Cool => 0,
        Attribute::Happy => 1,
        Attribute::Pure => 2,
        Attribute::Powerful => 3,
        Attribute::All => 4,
    }
}

/// The number an attribute is coded as.
pub fn attribute_code(attribute: Attribute) -> (r: i32)
    ensures
        r == attribute_code_spec(attribute),
{
    match attribute {
        Attribute::Cool => 0,
        Attribute::Happy => 1,
        Attribute::Pure => 2,
        Attribute::Powerful => 3,
        Attribute::All => 4,
    }
}

/// The indices `0..n`.
pub open spec fn indices_upto(n: nat) -> Seq<usize> {
    Seq::new(n, |i: int| i as usize)
}

impl FlatCharacterGroups {
    /// The flat layout holds the groups `groups` one after another.
    pub open spec fn lays_out(self, groups: Seq<Seq<usize>>) -> bool {
        &&& self.group_offsets@.len() == groups.len() + 1
        &&& self.group_offsets@[0] == 0
        &&& forall|g: int|
            #![trigger groups[g]]
            0 <= g < groups.len() ==> self.group_offsets@[g + 1] == self.group_offsets@[g]
                + groups[g].len()
        &&& self.card_indices@.len() == self.group_offsets@[groups.len() as int]
        &&& self.group_indices@.len() == self.card_indices@.len()
        &&& forall|g: int, j: int|
            0 <= g < groups.len() && 0 <= j < groups[g].len() ==> {
                &&& #[trigger] self.card_indices@[self.group_offsets@[g] + j] == groups[g][j]
                &&& self.group_indices@[self.group_offsets@[g] + j] == g
            }
    }

    /// The per-card columns describe `cards`.
    pub open spec fn describes(self, cards: Seq<SignatureCard>) -> bool {
        &&& self.card_band_ids@.len() == cards.len()
        &&& self.card_attributes@.len() == cards.len()
        &&& self.card_band_id_codes@.len() == cards.len()
        &&& self.card_attribute_codes@.len() == cards.len()
        &&& forall|i: int| 0 <= i < cards.len() ==> #[trigger] self.card_band_ids@[i] == cards[i].band_id
        &&& forall|i: int|
            0 <= i < cards.len() ==> #[trigger] self.card_attributes@[i] == cards[i].attribute
        &&& forall|i: int|
            0 <= i < cards.len() ==> #[trigger] self.card_band_id_codes@[i] == cards[i].band_id as i32
        &&& forall|i: int|
            0 <= i < cards.len() ==> #[trigger] self.card_attribute_codes@[i] == attribute_code_spec(
                cards[i].attribute,
            )
    }

    /// The number of groups.
    pub fn len(&self) -> (r: usize)
        ensures
            r == if self.group_offsets@.len() > 0 {
                self.group_offsets@.len() - 1
            } else {
                0
            },
    {
        self.group_offsets.len().saturating_sub(1)
    }

    /// Where the group starts in the flat layout; past the end, the layout's
    /// length.
    pub fn offset(&self, group_idx: usize) -> (r: usize)
        ensures
            r == if group_idx < self.group_offsets@.len() {
                self.group_offsets@[group_idx as int]
            } else {
                self.card_indices@.len() as usize
            },
    {
        if group_idx < self.group_offsets.len() {
            self.group_offsets[group_idx]
        } else {
            self.card_indices.len()
        }
    }

    /// The flat positions of the group.
    pub fn group_flat_range(&self, group_idx: usize) -> (r: std::ops::Range<usize>)
        requires
            group_idx + 1 < self.group_offsets@.len(),
        ensures
            r.start == self.group_offsets@[group_idx as int],
            r.end == self.group_offsets@[group_idx + 1],
    {
        let n = self.group_offsets.len();
        assert(group_idx + 1 < n);
        self.group_offsets[group_idx]..self.group_offsets[group_idx + 1]
    }
}

proof fn lemma_offsets_increase(offsets: Seq<usize>, groups: Seq<Seq<usize>>, x: int, y: int)
    requires
        0 <= x <= y < offsets.len(),
        offsets.len() <= groups.len() + 1,
        forall|h: int|
            #![trigger groups[h]]
            0 <= h < offsets.len() - 1 ==> offsets[h + 1] == offsets[h] + groups[h].len(),
    ensures
        offsets[x] <= offsets[y],
    decreases y - x,
{
    if x < y {
        lemma_offsets_increase(offsets, groups, x, y - 1);
        assert(offsets[y] == offsets[y - 1] + groups[y - 1].len());
    }
}

/// Groups all the cards by character, in increasing order of character id,
/// and lays the groups out flat beside the cards' bands and attributes.
pub fn character_groups(cards: &[SignatureCard]) -> (r: FlatCharacterGroups)
    ensures
        r.describes(cards@),
        exists|characters: Seq<u32>, groups: Seq<Vec<usize>>|
            #[trigger] grouped_by(cards@, indices_upto(cards@.len()), characters, groups)
                && r.lays_out(groups.map_values(|g: Vec<usize>| g@)),
{
    let mut all: Vec<usize> = Vec::new();
    let mut i: usize = 0;
    while i < cards.len()
        invariant
            i <= cards@.len(),
            all@ == indices_upto(i as nat),
        decreases cards.len() - i,
    {
        all.push(i);
        assert(all@ =~= indices_upto(i as nat + 1));
        i += 1;
    }
    let groups = character_groups_for_raw_indices(cards, all.as_slice());
    let ghost gs = groups@.map_values(|g: Vec<usize>| g@);
    let mut card_indices: Vec<usize> = Vec::new();
    let mut group_indices: Vec<usize> = Vec::new();
    let mut group_offsets: Vec<usize> = Vec::new();
    group_offsets.push(0);
    let mut g: usize = 0;
    while g < groups.len()
        invariant
            g <= groups@.len(),
            gs == groups@.map_values(|v: Vec<usize>| v@),
            group_offsets@.len() == g + 1,
            group_offsets@[0] == 0,
            forall|h: int|
                #![trigger gs[h]]
                0 <= h < g ==> group_offsets@[h + 1] == group_offsets@[h] + gs[h].len(),
            card_indices@.len() == group_offsets@[g as int],
            group_indices@.len() == card_indices@.len(),
            forall|h: int, j: int|
                0 <= h < g && 0 <= j < gs[h].len() ==> {
                    &&& #[trigger] card_indices@[group_offsets@[h] + j] == gs[h][j]
                    &&& group_indices@[group_offsets@[h] + j] == h
                },
        decreases groups.len() - g,
    {
        let group = &groups[g];
        let start = card_indices.len();
        let ghost old_cards = card_indices@;
        let ghost old_groups = group_indices@;
        let ghost old_offsets = group_offsets@;
        let mut j: usize = 0;
        while j < group.len()
            invariant
                j <= group@.len(),
                start == group_offsets@[g as int],
                card_indices@.len() == start + j,
                group_indices@.len() == card_indices@.len(),
                forall|t: int| 0 <= t < j ==> card_indices@[start + t] == group@[t],
                forall|t: int| start <= t < start + j ==> #[trigger] group_indices@[t] == g,
                forall|t: int| 0 <= t < start ==> card_indices@[t] == old_cards[t],
                forall|t: int| 0 <= t < start ==> group_indices@[t] == old_groups[t],
            decreases group.len() - j,
        {
            card_indices.push(group[j]);
            group_indices.push(g);
            j += 1;
        }
        assert(gs[g as int] == group@);
        group_offsets.push(card_indices.len());
        assert forall|h: int|
            #![trigger gs[h]]
            0 <= h < g + 1 implies group_offsets@[h + 1] == group_offsets@[h] + gs[h].len() by {
            if h < g {
                assert(group_offsets@[h + 1] == old_offsets[h + 1]);
                assert(group_offsets@[h] == old_offsets[h]);
            }
        }
        assert forall|h: int, j: int|
            0 <= h < g + 1 && 0 <= j < gs[h].len() implies {
                &&& #[trigger] card_indices@[group_offsets@[h] + j] == gs[h][j]
                &&& group_indices@[group_offsets@[h] + j] == h
            } by {
            if h < g {
                assert(group_offsets@[h + 1] == group_offsets@[h] + gs[h].len());
                lemma_offsets_increase(group_offsets@, gs, h + 1, g as int);
                assert(group_offsets@[h] == old_offsets[h]);
                assert(old_cards[old_offsets[h] + j] == gs[h][j]);
                assert(old_groups[old_offsets[h] + j] == h);
            } else {
                assert(card_indices@[start + j] == group@[j]);
                assert(group_indices@[start + j] == g);
            }
        }
        g += 1;
    }
    let mut card_band_ids: Vec<u32> = Vec::new();
    let mut card_attributes: Vec<Attribute> = Vec::new();
    let mut card_band_id_codes: Vec<i32> = Vec::new();
    let mut card_attribute_codes: Vec<i32> = Vec::new();
    let mut i: usize = 0;
    while i < cards.len()
        invariant
            i <= cards@.len(),
            card_band_ids@.len() == i,
            card_attributes@.len() == i,
            card_band_id_codes@.len() == i,
            card_attribute_codes@.len() == i,
            forall|k: int| 0 <= k < i ==> #[trigger] card_band_ids@[k] == cards@[k].band_id,
            forall|k: int| 0 <= k < i ==> #[trigger] card_attributes@[k] == cards@[k].attribute,
            forall|k: int|
                0 <= k < i ==> #[trigger] card_band_id_codes@[k] == cards@[k].band_id as i32,
            forall|k: int|
                0 <= k < i ==> #[trigger] card_attribute_codes@[k] == attribute_code_spec(
                    cards@[k].attribute,
                ),
        decreases cards.len() - i,
    {
        let card = cards[i];
        card_band_ids.push(card.band_id);
        card_attributes.push(card.attribute);
        card_band_id_codes.push(card.band_id as i32);
        card_attribute_codes.push(attribute_code(card.attribute));
        i += 1;
    }
    FlatCharacterGroups {
        card_indices,
        group_indices,
        group_offsets,
        card_band_ids,
        card_attributes,
        card_band_id_codes,
        card_attribute_codes,
    }
}

} // verus!
