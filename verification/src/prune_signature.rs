//! Team signatures of the medley prune: whether a team is mixed or unified by
//! band, attribute or both, which cards each allows, and which signatures a
//! card pool offers.
use vstd::prelude::*;
use crate::model::Attribute;
use crate::text::{append_decimal, append_str, decimal_digits, string_from_chars};

verus! {

pub const TEAM_SIZE: usize = 5;

/// What the prune signatures read of a card.
#[derive(Debug, Clone, Copy, PartialEq, Eq, Structural)]
pub struct SignatureCard {
    pub character_id: u32,
    pub band_id: u32,
    pub attribute: Attribute,
}

/// The unification a team is built for.
#[derive(Debug, Clone, Copy, PartialEq, Eq, Structural)]
pub enum MedleyPruneSignature {
    Mixed,
    UnifiedBand(u32),
    UnifiedAttribute(Attribute),
    UnifiedBandAttribute(u32, Attribute),
}

impl MedleyPruneSignature {
    /// Whether a team of this signature may hold the card.
    pub open spec fn allows_spec(self, card: SignatureCard) -> bool {
        match self {
            MedleyPruneSignature::Mixed => true,
            MedleyPruneSignature::UnifiedBand(band_id) => card.band_id == band_id,
            MedleyPruneSignature::UnifiedAttribute(attribute) => card.attribute == attribute,
            MedleyPruneSignature::UnifiedBandAttribute(band_id, attribute) => card.band_id
                == band_id && card.attribute == attribute,
        }
    }

    /// Whether a team of this signature may hold the card.
    pub fn allows(self, card: &SignatureCard) -> (r: bool)
        ensures
            r == self.allows_spec(*card),
    {
        match self {
            MedleyPruneSignature::Mixed => true,
            MedleyPruneSignature::UnifiedBand(band_id) => card.band_id == band_id,
            MedleyPruneSignature::UnifiedAttribute(attribute) => card.attribute == attribute,
            MedleyPruneSignature::UnifiedBandAttribute(band_id, attribute) => {
                card.band_id == band_id && card.attribute == attribute
            },
        }
    }

    /// The band every card of the team shares, if the signature fixes one.
    pub fn team_band_id(self) -> (r: Option<u32>)
        ensures
            r == (match self {
                MedleyPruneSignature::UnifiedBand(b) => Some(b),
                MedleyPruneSignature::UnifiedBandAttribute(b, _) => Some(b),
                _ => None,
            }),
    {
        match self {
            MedleyPruneSignature::Mixed | MedleyPruneSignature::UnifiedAttribute(_) => None,
            MedleyPruneSignature::UnifiedBand(band_id)
            | MedleyPruneSignature::UnifiedBandAttribute(band_id, _) => Some(band_id),
        }
    }

    /// The attribute every card of the team shares, if the signature fixes one.
    pub fn team_attribute(self) -> (r: Option<Attribute>)
        ensures
            r == (match self {
                MedleyPruneSignature::UnifiedAttribute(a) => Some(a),
                MedleyPruneSignature::UnifiedBandAttribute(_, a) => Some(a),
                _ => None,
            }),
    {
        match self {
            MedleyPruneSignature::Mixed | MedleyPruneSignature::UnifiedBand(_) => None,
            MedleyPruneSignature::UnifiedAttribute(attribute)
            | MedleyPruneSignature::UnifiedBandAttribute(_, attribute) => Some(attribute),
        }
    }
}

/// `signatures` with `signature` appended unless it is there already.
pub open spec fn with_signature(
    signatures: Seq<MedleyPruneSignature>,
    signature: MedleyPruneSignature,
) -> Seq<MedleyPruneSignature> {
    if signatures.contains(signature) {
        signatures
    } else {
        signatures.push(signature)
    }
}

/// The signatures that the first `n` cards offer, in order of first offer,
/// after the mixed one.
pub open spec fn seed_signatures_spec(cards: Seq<SignatureCard>, n: int) -> Seq<MedleyPruneSignature>
    decreases n,
{
    if n <= 0 {
        seq![MedleyPruneSignature::Mixed]
    } else {
        let card = cards[n - 1];
        with_signature(
            with_signature(
                with_signature(
                    seed_signatures_spec(cards, n - 1),
                    MedleyPruneSignature::UnifiedBand(card.band_id),
                ),
                MedleyPruneSignature::UnifiedAttribute(card.attribute),
            ),
            MedleyPruneSignature::UnifiedBandAttribute(card.band_id, card.attribute),
        )
    }
}

/// The signature is mixed, or unified by the band, the attribute, or both, of
/// one of the cards.
pub open spec fn offered_by(cards: Seq<SignatureCard>, signature: MedleyPruneSignature) -> bool {
    match signature {
        MedleyPruneSignature::Mixed => true,
        MedleyPruneSignature::UnifiedBand(b) => exists|i: int|
            0 <= i < cards.len() && #[trigger] cards[i].band_id == b,
        MedleyPruneSignature::UnifiedAttribute(a) => exists|i: int|
            0 <= i < cards.len() && #[trigger] cards[i].attribute == a,
        MedleyPruneSignature::UnifiedBandAttribute(b, a) => exists|i: int|
            0 <= i < cards.len() && #[trigger] cards[i].band_id == b && cards[i].attribute == a,
    }
}

/// Appends `signature` unless it is there already.
pub fn push_seed_signature(
    signatures: &mut Vec<MedleyPruneSignature>,
    signature: MedleyPruneSignature,
)
    ensures
        final(signatures)@ == with_signature(old(signatures)@, signature),
{
    let mut k: usize = 0;
    while k < signatures.len()
        invariant
            k <= signatures@.len(),
            forall|j: int| 0 <= j < k ==> signatures@[j] != signature,
        decreases signatures.len() - k,
    {
        if signatures[k] == signature {
            assert(signatures@.contains(signature));
            return;
        }
        k += 1;
    }
    signatures.push(signature);
}

proof fn lemma_with_signature(
    signatures: Seq<MedleyPruneSignature>,
    signature: MedleyPruneSignature,
)
    ensures
        signatures.no_duplicates() ==> with_signature(signatures, signature).no_duplicates(),
        forall|s: MedleyPruneSignature| #[trigger]
            with_signature(signatures, signature).contains(s) <==> (signatures.contains(s) || s
                == signature),
        signatures.len() > 0 ==> with_signature(signatures, signature)[0] == signatures[0],
{
    if !signatures.contains(signature) {
        let out = signatures.push(signature);
        assert forall|s: MedleyPruneSignature| #[trigger] out.contains(s) <==> (
        signatures.contains(s) || s == signature) by {
            if out.contains(s) {
                let i = choose|i: int| 0 <= i < out.len() && out[i] == s;
                if i < signatures.len() {
                    assert(signatures[i] == s);
                }
            }
            if signatures.contains(s) {
                let i = choose|i: int| 0 <= i < signatures.len() && signatures[i] == s;
                assert(out[i] == s);
            }
            if s == signature {
                assert(out[signatures.len() as int] == s);
            }
        }
    }
}

proof fn lemma_seed_signatures(cards: Seq<SignatureCard>, n: int)
    requires
        0 <= n <= cards.len(),
    ensures
        seed_signatures_spec(cards, n).no_duplicates(),
        seed_signatures_spec(cards, n)[0] == MedleyPruneSignature::Mixed,
        forall|s: MedleyPruneSignature| #[trigger]
            seed_signatures_spec(cards, n).contains(s) <==> offered_by(cards.take(n), s),
    decreases n,
{
    let out = seed_signatures_spec(cards, n);
    if n == 0 {
        assert forall|s: MedleyPruneSignature| #[trigger] out.contains(s) <==> offered_by(
            cards.take(n),
            s,
        ) by {
            if out.contains(s) {
                let i = choose|i: int| 0 <= i < out.len() && out[i] == s;
                assert(s == MedleyPruneSignature::Mixed);
            }
            if s == MedleyPruneSignature::Mixed {
                assert(out[0] == s);
            }
        }
    } else {
        lemma_seed_signatures(cards, n - 1);
        let card = cards[n - 1];
        let s0 = seed_signatures_spec(cards, n - 1);
        let band = MedleyPruneSignature::UnifiedBand(card.band_id);
        let attribute = MedleyPruneSignature::UnifiedAttribute(card.attribute);
        let both = MedleyPruneSignature::UnifiedBandAttribute(card.band_id, card.attribute);
        let s1 = with_signature(s0, band);
        let s2 = with_signature(s1, attribute);
        lemma_with_signature(s0, band);
        lemma_with_signature(s1, attribute);
        lemma_with_signature(s2, both);
        let before = cards.take(n - 1);
        let now = cards.take(n);
        assert forall|s: MedleyPruneSignature| #[trigger] out.contains(s) <==> offered_by(now, s) by {
            assert(s0.contains(s) <==> offered_by(before, s));
            match s {
                MedleyPruneSignature::Mixed => {},
                MedleyPruneSignature::UnifiedBand(b) => {
                    if offered_by(now, s) {
                        let i = choose|i: int| 0 <= i < now.len() && #[trigger] now[i].band_id == b;
                        if i < n - 1 {
                            assert(before[i].band_id == b);
                        }
                    }
                    if offered_by(before, s) {
                        let i = choose|i: int|
                            0 <= i < before.len() && #[trigger] before[i].band_id == b;
                        assert(now[i].band_id == b);
                    }
                    if s == band {
                        assert(now[n - 1].band_id == b);
                    }
                },
                MedleyPruneSignature::UnifiedAttribute(a) => {
                    if offered_by(now, s) {
                        let i = choose|i: int| 0 <= i < now.len() && #[trigger] now[i].attribute == a;
                        if i < n - 1 {
                            assert(before[i].attribute == a);
                        }
                    }
                    if offered_by(before, s) {
                        let i = choose|i: int|
                            0 <= i < before.len() && #[trigger] before[i].attribute == a;
                        assert(now[i].attribute == a);
                    }
                    if s == attribute {
                        assert(now[n - 1].attribute == a);
                    }
                },
                MedleyPruneSignature::UnifiedBandAttribute(b, a) => {
                    if offered_by(now, s) {
                        let i = choose|i: int|
                            0 <= i < now.len() && #[trigger] now[i].band_id == b && now[i].attribute
                                == a;
                        if i < n - 1 {
                            assert(before[i].band_id == b && before[i].attribute == a);
                        }
                    }
                    if offered_by(before, s) {
                        let i = choose|i: int|
                            0 <= i < before.len() && #[trigger] before[i].band_id == b
                                && before[i].attribute == a;
                        assert(now[i].band_id == b && now[i].attribute == a);
                    }
                    if s == both {
                        assert(now[n - 1].band_id == b && now[n - 1].attribute == a);
                    }
                },
            }
        }
    }
}

/// The signatures a card pool offers: the mixed one first, then, card by
/// card, its band, its attribute, and both together, each once.
pub fn seed_signatures(cards: &[SignatureCard]) -> (r: Vec<MedleyPruneSignature>)
    ensures
        r@ == seed_signatures_spec(cards@, cards@.len() as int),
        r@.no_duplicates(),
        r@[0] == MedleyPruneSignature::Mixed,
        forall|s: MedleyPruneSignature| #[trigger] r@.contains(s) <==> offered_by(cards@, s),
{
    let mut signatures: Vec<MedleyPruneSignature> = Vec::new();
    signatures.push(MedleyPruneSignature::Mixed);
    assert(signatures@ =~= seq![MedleyPruneSignature::Mixed]);
    let mut k: usize = 0;
    while k < cards.len()
        invariant
            k <= cards@.len(),
            signatures@ == seed_signatures_spec(cards@, k as int),
        decreases cards.len() - k,
    {
        let card = cards[k];
        push_seed_signature(&mut signatures, MedleyPruneSignature::UnifiedBand(card.band_id));
        push_seed_signature(&mut signatures, MedleyPruneSignature::UnifiedAttribute(card.attribute));
        push_seed_signature(
            &mut signatures,
            MedleyPruneSignature::UnifiedBandAttribute(card.band_id, card.attribute),
        );
        k += 1;
    }
    proof {
        lemma_seed_signatures(cards@, cards@.len() as int);
        assert(cards@.take(cards@.len() as int) =~= cards@);
    }
    signatures
}

/// The name of an attribute in signature labels.
pub open spec fn attribute_label_spec(attribute: Attribute) -> Seq<char> {
    match attribute {
        Attribute::Cool => "cool"@,
        Attribute::Happy => "happy"@,
        Attribute::Pure => "pure"@,
        Attribute::Powerful => "powerful"@,
        Attribute::All => "all"@,
    }
}

/// The name of an attribute in signature labels.
pub fn attribute_label(attribute: Attribute) -> (r: &'static str)
    ensures
        r@ == attribute_label_spec(attribute),
{
    match attribute {
        Attribute::Cool => "cool",
        Attribute::Happy => "happy",
        Attribute::Pure => "pure",
        Attribute::Powerful => "powerful",
        Attribute::All => "all",
    }
}

/// How a signature is named in traces.
pub open spec fn signature_label_spec(signature: MedleyPruneSignature) -> Seq<char> {
    match signature {
        MedleyPruneSignature::Mixed => "mixed"@,
        MedleyPruneSignature::UnifiedBand(b) => "unifiedBand("@ + decimal_digits(b as nat) + ")"@,
        MedleyPruneSignature::UnifiedAttribute(a) => "unifiedAttribute("@ + attribute_label_spec(a)
            + ")"@,
        MedleyPruneSignature::UnifiedBandAttribute(b, a) => "unifiedBandAttribute("@
            + decimal_digits(b as nat) + ","@ + attribute_label_spec(a) + ")"@,
    }
}

/// How a signature is named in traces.
pub fn signature_label(signature: MedleyPruneSignature) -> (r: String)
    ensures
        r@ == signature_label_spec(signature),
{
    let mut out: Vec<char> = Vec::new();
    match signature {
        MedleyPruneSignature::Mixed => {
            append_str(&mut out, "mixed");
        },
        MedleyPruneSignature::UnifiedBand(band_id) => {
            append_str(&mut out, "unifiedBand(");
            append_decimal(&mut out, band_id as u64);
            append_str(&mut out, ")");
        },
        MedleyPruneSignature::UnifiedAttribute(attribute) => {
            append_str(&mut out, "unifiedAttribute(");
            append_str(&mut out, attribute_label(attribute));
            append_str(&mut out, ")");
        },
        MedleyPruneSignature::UnifiedBandAttribute(band_id, attribute) => {
            append_str(&mut out, "unifiedBandAttribute(");
            append_decimal(&mut out, band_id as u64);
            append_str(&mut out, ",");
            append_str(&mut out, attribute_label(attribute));
            append_str(&mut out, ")");
        },
    }
    string_from_chars(&out)
}

/// The characters of the cards that a team of the signature may hold.
pub open spec fn allowed_characters(
    cards: Seq<SignatureCard>,
    signature: MedleyPruneSignature,
) -> Set<u32> {
    Set::new(
        |c: u32|
            exists|i: int|
                0 <= i < cards.len() && signature.allows_spec(#[trigger] cards[i])
                    && cards[i].character_id == c,
    )
}

/// The card at `idx` fits the signature, and the cards that fit it hold at
/// least five distinct characters, so a team with it can be completed.
pub open spec fn can_complete_spec(
    cards: Seq<SignatureCard>,
    idx: int,
    signature: MedleyPruneSignature,
) -> bool {
    &&& 0 <= idx < cards.len()
    &&& signature.allows_spec(cards[idx])
    &&& allowed_characters(cards, signature).len() >= TEAM_SIZE
}

/// The characters met so far: that of the card at `idx`, and those of the
/// first `k` cards that fit the signature.
spec fn seen_characters(
    cards: Seq<SignatureCard>,
    idx: int,
    k: int,
    signature: MedleyPruneSignature,
) -> Set<u32> {
    Set::new(
        |c: u32|
            c == cards[idx].character_id || exists|i: int|
                0 <= i < k && signature.allows_spec(#[trigger] cards[i]) && cards[i].character_id
                    == c,
    )
}

proof fn lemma_allowed_characters_finite(cards: Seq<SignatureCard>, signature: MedleyPruneSignature)
    ensures
        allowed_characters(cards, signature).finite(),
{
    let all = cards.map_values(|c: SignatureCard| c.character_id).to_set();
    assert forall|c: u32| allowed_characters(cards, signature).contains(c) implies all.contains(
        c,
    ) by {
        let i = choose|i: int|
            0 <= i < cards.len() && signature.allows_spec(#[trigger] cards[i])
                && cards[i].character_id == c;
        assert(cards.map_values(|c: SignatureCard| c.character_id)[i] == c);
    }
    vstd::set_lib::lemma_len_subset(allowed_characters(cards, signature), all);
}

/// Whether a team of the signature can hold the card at `idx` together with
/// four cards of other characters.
pub fn signature_can_complete_with_card(
    cards: &[SignatureCard],
    idx: usize,
    signature: MedleyPruneSignature,
) -> (r: bool)
    ensures
        r == can_complete_spec(cards@, idx as int, signature),
{
    if idx >= cards.len() {
        return false;
    }
    let card = cards[idx];
    if !signature.allows(&card) {
        return false;
    }
    let ghost cs = cards@;
    proof {
        lemma_allowed_characters_finite(cs, signature);
    }
    let mut characters: Vec<u32> = Vec::new();
    characters.push(card.character_id);
    assert(characters@.to_set() =~= seen_characters(cs, idx as int, 0, signature)) by {
        assert(characters@[0] == card.character_id);
    }
    let mut k: usize = 0;
    while k < cards.len()
        invariant
            k <= cards@.len(),
            cs == cards@,
            idx < cards@.len(),
            signature.allows_spec(cs[idx as int]),
            allowed_characters(cs, signature).finite(),
            characters@.no_duplicates(),
            characters@.len() < TEAM_SIZE,
            characters@.to_set() =~= seen_characters(cs, idx as int, k as int, signature),
        decreases cards.len() - k,
    {
        let other = cards[k];
        let ghost before = characters@;
        let mut present = false;
        let mut j: usize = 0;
        while j < characters.len()
            invariant
                j <= characters@.len(),
                present == characters@.take(j as int).contains(other.character_id),
            decreases characters.len() - j,
        {
            assert(characters@.take(j as int + 1) =~= characters@.take(j as int).push(
                characters@[j as int],
            ));
            proof {
                crate::items::lemma_push_contains(characters@.take(j as int), characters@[j as int]);
            }
            if characters[j] == other.character_id {
                present = true;
            }
            j += 1;
        }
        assert(characters@.take(characters@.len() as int) =~= characters@);
        if k != idx && signature.allows(&other) && !present {
            characters.push(other.character_id);
            proof {
                before.lemma_push_to_set_commute(other.character_id);
                assert forall|a: int, b: int|
                    0 <= a < b < characters@.len() implies characters@[a] != characters@[b] by {
                    if b == before.len() {
                        assert(before.contains(before[a]));
                    }
                }
            }
            assert(characters@.to_set() =~= seen_characters(
                cs,
                idx as int,
                k as int + 1,
                signature,
            )) by {
                assert forall|c: u32| #[trigger]
                    seen_characters(cs, idx as int, k as int + 1, signature).contains(c)
                        implies characters@.to_set().contains(c) by {
                    if c != other.character_id && c != cs[idx as int].character_id {
                        let i = choose|i: int|
                            0 <= i < k + 1 && signature.allows_spec(#[trigger] cs[i])
                                && cs[i].character_id == c;
                        assert(seen_characters(cs, idx as int, k as int, signature).contains(c));
                    }
                }
            }
            if characters.len() >= TEAM_SIZE {
                proof {
                    characters@.unique_seq_to_set();
                    assert(characters@.to_set().subset_of(allowed_characters(cs, signature)));
                    vstd::set_lib::lemma_len_subset(
                        characters@.to_set(),
                        allowed_characters(cs, signature),
                    );
                }
                return true;
            }
        } else {
            assert(characters@.to_set() =~= seen_characters(
                cs,
                idx as int,
                k as int + 1,
                signature,
            )) by {
                assert forall|c: u32| #[trigger]
                    seen_characters(cs, idx as int, k as int + 1, signature).contains(c)
                        implies characters@.to_set().contains(c) by {
                    if c != cs[idx as int].character_id {
                        let i = choose|i: int|
                            0 <= i < k + 1 && signature.allows_spec(#[trigger] cs[i])
                                && cs[i].character_id == c;
                        if i == k && k != idx {
                            assert(characters@.contains(c));
                        }
                        if i == k && k == idx {
                            assert(c == cs[idx as int].character_id);
                        }
                        assert(seen_characters(cs, idx as int, k as int, signature).contains(c));
                    }
                }
            }
        }
        k += 1;
    }
    proof {
        assert(seen_characters(cs, idx as int, cs.len() as int, signature) =~= allowed_characters(
            cs,
            signature,
        ));
        characters@.unique_seq_to_set();
    }
    false
}


/// Which unification a list of entries is keyed by.
#[derive(Debug, Clone, Copy, PartialEq, Eq, Structural)]
pub enum KeyKind {
    Band,
    Attribute,
    BandAttribute,
}

/// The signature of that kind that a card belongs to.
pub open spec fn key_for(kind: KeyKind, card: SignatureCard) -> MedleyPruneSignature {
    match kind {
        KeyKind::Band => MedleyPruneSignature::UnifiedBand(card.band_id),
        KeyKind::Attribute => MedleyPruneSignature::UnifiedAttribute(card.attribute),
        KeyKind::BandAttribute => MedleyPruneSignature::UnifiedBandAttribute(card.band_id, card.attribute),
    }
}

fn key_of(kind: KeyKind, card: &SignatureCard) -> (r: MedleyPruneSignature)
    ensures
        r == key_for(kind, *card),
{
    match kind {
        KeyKind::Band => MedleyPruneSignature::UnifiedBand(card.band_id),
        KeyKind::Attribute => MedleyPruneSignature::UnifiedAttribute(card.attribute),
        KeyKind::BandAttribute => MedleyPruneSignature::UnifiedBandAttribute(card.band_id, card.attribute),
    }
}

/// The keys of that kind that the first `n` cards offer, in order of first offer.
pub open spec fn keys_in_order(cards: Seq<SignatureCard>, n: int, kind: KeyKind) -> Seq<MedleyPruneSignature>
    decreases n,
{
    if n <= 0 {
        Seq::empty()
    } else {
        with_signature(keys_in_order(cards, n - 1, kind), key_for(kind, cards[n - 1]))
    }
}

/// The keys of the entries.
pub open spec fn entry_keys(entries: Seq<(MedleyPruneSignature, Vec<u32>)>) -> Seq<MedleyPruneSignature> {
    entries.map_values(|e: (MedleyPruneSignature, Vec<u32>)| e.0)
}

/// Each entry lists, once each, the characters of the first `n` cards that its
/// key allows.
pub open spec fn entries_describe(
    entries: Seq<(MedleyPruneSignature, Vec<u32>)>,
    cards: Seq<SignatureCard>,
    n: int,
) -> bool {
    &&& forall|i: int| 0 <= i < entries.len() ==> (#[trigger] entries[i]).1@.no_duplicates()
    &&& forall|i: int|
        0 <= i < entries.len() ==> (#[trigger] entries[i]).1@.to_set() == allowed_characters(
            cards.take(n),
            entries[i].0,
        )
}

/// The signatures of that kind that the cards offer, in order of first offer,
/// whose cards hold at least five distinct characters.
pub open spec fn unified_signatures(cards: Seq<SignatureCard>, kind: KeyKind) -> Seq<MedleyPruneSignature> {
    keys_in_order(cards, cards.len() as int, kind).filter(
        |s: MedleyPruneSignature| allowed_characters(cards, s).len() >= TEAM_SIZE,
    )
}

proof fn lemma_key_allows(kind: KeyKind, c: SignatureCard, d: SignatureCard)
    ensures
        key_for(kind, c).allows_spec(d) <==> key_for(kind, c) == key_for(kind, d),
{
}

proof fn lemma_keys_in_order(cards: Seq<SignatureCard>, n: int, kind: KeyKind)
    requires
        0 <= n <= cards.len(),
    ensures
        keys_in_order(cards, n, kind).no_duplicates(),
        forall|k: MedleyPruneSignature| #[trigger] keys_in_order(cards, n, kind).contains(k) <==> exists|j: int|
            0 <= j < n && key_for(kind, #[trigger] cards[j]) == k,
    decreases n,
{
    if n > 0 {
        lemma_keys_in_order(cards, n - 1, kind);
        let before = keys_in_order(cards, n - 1, kind);
        lemma_with_signature(before, key_for(kind, cards[n - 1]));
        assert forall|k: MedleyPruneSignature| #[trigger] keys_in_order(cards, n, kind).contains(k) <==> exists|j: int|
            0 <= j < n && key_for(kind, #[trigger] cards[j]) == k by {
            if exists|j: int| 0 <= j < n && key_for(kind, #[trigger] cards[j]) == k {
                let j = choose|j: int| 0 <= j < n && key_for(kind, #[trigger] cards[j]) == k;
                if j < n - 1 {
                    assert(before.contains(k));
                }
            }
        }
    }
}

proof fn lemma_allowed_step(cards: Seq<SignatureCard>, n: int, key: MedleyPruneSignature)
    requires
        0 <= n < cards.len(),
    ensures
        allowed_characters(cards.take(n + 1), key) == if key.allows_spec(cards[n]) {
            allowed_characters(cards.take(n), key).insert(cards[n].character_id)
        } else {
            allowed_characters(cards.take(n), key)
        },
{
    let now = cards.take(n + 1);
    let before = cards.take(n);
    assert forall|c: u32| allowed_characters(now, key).contains(c) <==> (allowed_characters(before, key).contains(c)
        || (key.allows_spec(cards[n]) && c == cards[n].character_id)) by {
        if allowed_characters(now, key).contains(c) {
            let i = choose|i: int| 0 <= i < now.len() && key.allows_spec(#[trigger] now[i]) && now[i].character_id == c;
            if i < n {
                assert(before[i] == now[i]);
            }
        }
        if allowed_characters(before, key).contains(c) {
            let i = choose|i: int| 0 <= i < before.len() && key.allows_spec(#[trigger] before[i]) && before[i].character_id == c;
            assert(now[i] == before[i]);
        }
        if key.allows_spec(cards[n]) && c == cards[n].character_id {
            assert(now[n] == cards[n]);
        }
    }
    assert(allowed_characters(now, key) =~= (if key.allows_spec(cards[n]) {
        allowed_characters(before, key).insert(cards[n].character_id)
    } else {
        allowed_characters(before, key)
    }));
}

fn character_listed(characters: &Vec<u32>, character_id: u32) -> (r: bool)
    ensures
        r == characters@.contains(character_id),
{
    let mut j: usize = 0;
    while j < characters.len()
        invariant
            j <= characters@.len(),
            forall|t: int| 0 <= t < j ==> characters@[t] != character_id,
        decreases characters.len() - j,
    {
        if characters[j] == character_id {
            return true;
        }
        j += 1;
    }
    false
}

fn entry_position(entries: &Vec<(MedleyPruneSignature, Vec<u32>)>, key: MedleyPruneSignature) -> (r: Option<usize>)
    ensures
        match r {
            Some(i) => i < entries@.len() && entries@[i as int].0 == key,
            None => !entry_keys(entries@).contains(key),
        },
{
    let mut i: usize = 0;
    while i < entries.len()
        invariant
            i <= entries@.len(),
            forall|t: int| 0 <= t < i ==> entries@[t].0 != key,
        decreases entries.len() - i,
    {
        if entries[i].0 == key {
            return Some(i);
        }
        i += 1;
    }
    proof {
        if entry_keys(entries@).contains(key) {
            let t = choose|t: int| 0 <= t < entry_keys(entries@).len() && entry_keys(entries@)[t] == key;
            assert(entries@[t].0 == key);
        }
    }
    None
}

/// Records the card `cards[n]` under its key of the given kind: a new entry
/// for a new key, else its character added once.
fn push_distinct_character_by_key(
    entries: &mut Vec<(MedleyPruneSignature, Vec<u32>)>,
    card: &SignatureCard,
    kind: KeyKind,
    Ghost(cards): Ghost<Seq<SignatureCard>>,
    Ghost(n): Ghost<int>,
)
    requires
        0 <= n < cards.len(),
        *card == cards[n],
        entries_describe(old(entries)@, cards, n),
        entry_keys(old(entries)@) == keys_in_order(cards, n, kind),
    ensures
        entries_describe(final(entries)@, cards, n + 1),
        entry_keys(final(entries)@) == keys_in_order(cards, n + 1, kind),
{
    let ghost before = entries@;
    let key = key_of(kind, card);
    let character_id = card.character_id;
    proof {
        lemma_keys_in_order(cards, n, kind);
        lemma_key_allows(kind, *card, *card);
        assert forall|i: int| 0 <= i < before.len() implies (#[trigger] before[i]).0.allows_spec(*card) <==> before[i].0 == key by {
            assert(entry_keys(before)[i] == before[i].0);
            assert(keys_in_order(cards, n, kind).contains(before[i].0));
            let j = choose|j: int| 0 <= j < n && key_for(kind, #[trigger] cards[j]) == before[i].0;
            lemma_key_allows(kind, cards[j], *card);
        }
        assert forall|i: int| 0 <= i < before.len() implies allowed_characters(cards.take(n + 1), (#[trigger] before[i]).0)
            == if before[i].0 == key { allowed_characters(cards.take(n), before[i].0).insert(character_id) } else {
                allowed_characters(cards.take(n), before[i].0) } by {
            lemma_allowed_step(cards, n, before[i].0);
        }
    }
    match entry_position(entries, key) {
        Some(i) => {
            proof {
                assert(keys_in_order(cards, n, kind).contains(key)) by {
                    assert(entry_keys(before)[i as int] == key);
                }
                assert(keys_in_order(cards, n + 1, kind) == keys_in_order(cards, n, kind));
            }
            if !character_listed(&entries[i].1, character_id) {
                let mut characters = entries[i].1.clone();
                assert(characters@ =~= before[i as int].1@);
                characters.push(character_id);
                proof {
                    before[i as int].1@.lemma_push_to_set_commute(character_id);
                    assert forall|a: int, b: int| 0 <= a < b < characters@.len() implies characters@[a] != characters@[b] by {
                        if b == before[i as int].1@.len() {
                            assert(before[i as int].1@.contains(characters@[a]));
                        }
                    }
                }
                entries.set(i, (key, characters));
            } else {
                proof {
                    assert(before[i as int].1@.to_set().insert(character_id) =~= before[i as int].1@.to_set());
                }
            }
            proof {
                assert(entry_keys(entries@) =~= entry_keys(before));
                assert forall|t: int| 0 <= t < entries@.len() implies (#[trigger] entries@[t]).1@.no_duplicates()
                    && entries@[t].1@.to_set() == allowed_characters(cards.take(n + 1), entries@[t].0) by {
                    if t != i {
                        assert(entries@[t] == before[t]);
                        assert(entry_keys(before)[t] != entry_keys(before)[i as int]);
                    }
                }
            }
        },
        None => {
            let mut characters: Vec<u32> = Vec::new();
            characters.push(character_id);
            proof {
                assert(!keys_in_order(cards, n, kind).contains(key));
                assert forall|c: u32| allowed_characters(cards.take(n), key).contains(c) implies false by {
                    let t = choose|t: int| 0 <= t < n && key.allows_spec(#[trigger] cards.take(n)[t]) && cards.take(n)[t].character_id == c;
                    lemma_key_allows(kind, *card, cards[t]);
                    assert(keys_in_order(cards, n, kind).contains(key_for(kind, cards[t])));
                }
                lemma_allowed_step(cards, n, key);
                assert(allowed_characters(cards.take(n + 1), key) =~= Set::empty().insert(character_id));
                assert(characters@.to_set() =~= Set::empty().insert(character_id)) by {
                    assert(characters@[0] == character_id);
                }
            }
            entries.push((key, characters));
            proof {
                assert(entry_keys(entries@) =~= entry_keys(before).push(key));
                assert forall|t: int| 0 <= t < entries@.len() implies (#[trigger] entries@[t]).1@.no_duplicates()
                    && entries@[t].1@.to_set() == allowed_characters(cards.take(n + 1), entries@[t].0) by {
                    if t < before.len() {
                        assert(entries@[t] == before[t]);
                        assert(entry_keys(before).contains(before[t].0)) by {
                            assert(entry_keys(before)[t] == before[t].0);
                        }
                    }
                }
            }
        },
    }
}

/// The bands, attributes, and bands with attributes whose cards hold at least
/// five distinct characters, each in order of first offer among the cards.
pub fn unified_keys(cards: &[SignatureCard]) -> (r: (Vec<u32>, Vec<Attribute>, Vec<(u32, Attribute)>))
    ensures
        r.0@ == unified_signatures(cards@, KeyKind::Band).map_values(|s: MedleyPruneSignature| match s {
            MedleyPruneSignature::UnifiedBand(b) => b,
            _ => 0u32,
        }),
        r.1@ == unified_signatures(cards@, KeyKind::Attribute).map_values(|s: MedleyPruneSignature| match s {
            MedleyPruneSignature::UnifiedAttribute(a) => a,
            _ => Attribute::All,
        }),
        r.2@ == unified_signatures(cards@, KeyKind::BandAttribute).map_values(|s: MedleyPruneSignature| match s {
            MedleyPruneSignature::UnifiedBandAttribute(b, a) => (b, a),
            _ => (0u32, Attribute::All),
        }),
{
    let mut bands: Vec<(MedleyPruneSignature, Vec<u32>)> = Vec::new();
    let mut attributes: Vec<(MedleyPruneSignature, Vec<u32>)> = Vec::new();
    let mut both: Vec<(MedleyPruneSignature, Vec<u32>)> = Vec::new();
    let ghost cs = cards@;
    assert(entry_keys(bands@) =~= keys_in_order(cs, 0, KeyKind::Band));
    assert(entry_keys(attributes@) =~= keys_in_order(cs, 0, KeyKind::Attribute));
    assert(entry_keys(both@) =~= keys_in_order(cs, 0, KeyKind::BandAttribute));
    let mut k: usize = 0;
    while k < cards.len()
        invariant
            k <= cs.len(),
            cs == cards@,
            entries_describe(bands@, cs, k as int),
            entries_describe(attributes@, cs, k as int),
            entries_describe(both@, cs, k as int),
            entry_keys(bands@) == keys_in_order(cs, k as int, KeyKind::Band),
            entry_keys(attributes@) == keys_in_order(cs, k as int, KeyKind::Attribute),
            entry_keys(both@) == keys_in_order(cs, k as int, KeyKind::BandAttribute),
        decreases cards.len() - k,
    {
        let card = &cards[k];
        push_distinct_character_by_key(&mut bands, card, KeyKind::Band, Ghost(cs), Ghost(k as int));
        push_distinct_character_by_key(&mut attributes, card, KeyKind::Attribute, Ghost(cs), Ghost(k as int));
        push_distinct_character_by_key(&mut both, card, KeyKind::BandAttribute, Ghost(cs), Ghost(k as int));
        k += 1;
    }
    assert(cs.take(cs.len() as int) =~= cs);
    let unified_bands = possible_unified_keys(&bands, Ghost(cs));
    let unified_attributes = possible_unified_keys(&attributes, Ghost(cs));
    let unified_both = possible_unified_keys(&both, Ghost(cs));
    let mut out_bands: Vec<u32> = Vec::new();
    let mut out_attributes: Vec<Attribute> = Vec::new();
    let mut out_both: Vec<(u32, Attribute)> = Vec::new();
    let mut i: usize = 0;
    while i < unified_bands.len()
        invariant
            i <= unified_bands@.len(),
            out_bands@ == unified_bands@.take(i as int).map_values(|s: MedleyPruneSignature| match s {
                MedleyPruneSignature::UnifiedBand(b) => b,
                _ => 0u32,
            }),
        decreases unified_bands.len() - i,
    {
        let b = match unified_bands[i] {
            MedleyPruneSignature::UnifiedBand(b) => b,
            _ => 0u32,
        };
        out_bands.push(b);
        assert(unified_bands@.take(i as int + 1) =~= unified_bands@.take(i as int).push(unified_bands@[i as int]));
        i += 1;
    }
    assert(unified_bands@.take(unified_bands@.len() as int) =~= unified_bands@);
    let mut i: usize = 0;
    while i < unified_attributes.len()
        invariant
            i <= unified_attributes@.len(),
            out_attributes@ == unified_attributes@.take(i as int).map_values(|s: MedleyPruneSignature| match s {
                MedleyPruneSignature::UnifiedAttribute(a) => a,
                _ => Attribute::All,
            }),
        decreases unified_attributes.len() - i,
    {
        let a = match unified_attributes[i] {
            MedleyPruneSignature::UnifiedAttribute(a) => a,
            _ => Attribute::All,
        };
        out_attributes.push(a);
        assert(unified_attributes@.take(i as int + 1) =~= unified_attributes@.take(i as int).push(unified_attributes@[i as int]));
        i += 1;
    }
    assert(unified_attributes@.take(unified_attributes@.len() as int) =~= unified_attributes@);
    let mut i: usize = 0;
    while i < unified_both.len()
        invariant
            i <= unified_both@.len(),
            out_both@ == unified_both@.take(i as int).map_values(|s: MedleyPruneSignature| match s {
                MedleyPruneSignature::UnifiedBandAttribute(b, a) => (b, a),
                _ => (0u32, Attribute::All),
            }),
        decreases unified_both.len() - i,
    {
        let pair = match unified_both[i] {
            MedleyPruneSignature::UnifiedBandAttribute(b, a) => (b, a),
            _ => (0u32, Attribute::All),
        };
        out_both.push(pair);
        assert(unified_both@.take(i as int + 1) =~= unified_both@.take(i as int).push(unified_both@[i as int]));
        i += 1;
    }
    assert(unified_both@.take(unified_both@.len() as int) =~= unified_both@);
    (out_bands, out_attributes, out_both)
}

/// The keys of the entries whose cards hold at least five distinct characters.
fn possible_unified_keys(entries: &Vec<(MedleyPruneSignature, Vec<u32>)>, Ghost(cards): Ghost<Seq<SignatureCard>>) -> (r: Vec<
    MedleyPruneSignature,
>)
    requires
        entries_describe(entries@, cards, cards.len() as int),
        cards.take(cards.len() as int) == cards,
    ensures
        r@ == entry_keys(entries@).filter(
            |s: MedleyPruneSignature| allowed_characters(cards, s).len() >= TEAM_SIZE,
        ),
{
    let ghost keys = entry_keys(entries@);
    let mut out: Vec<MedleyPruneSignature> = Vec::new();
    let mut i: usize = 0;
    while i < entries.len()
        invariant
            i <= entries@.len(),
            keys == entry_keys(entries@),
            entries_describe(entries@, cards, cards.len() as int),
            cards.take(cards.len() as int) == cards,
            out@ == keys.take(i as int).filter(
                |s: MedleyPruneSignature| allowed_characters(cards, s).len() >= TEAM_SIZE,
            ),
        decreases entries.len() - i,
    {
        proof {
            entries@[i as int].1@.unique_seq_to_set();
            assert(keys.take(i as int + 1).drop_last() =~= keys.take(i as int));
            assert(keys[i as int] == entries@[i as int].0);
            reveal(Seq::filter);
        }
        if entries[i].1.len() >= TEAM_SIZE {
            out.push(entries[i].0);
        }
        i += 1;
    }
    assert(keys.take(entries@.len() as int) =~= keys);
    out
}


/// All of the selected cards share the band of the first.
pub open spec fn same_band(cards: Seq<SignatureCard>, selected: Seq<usize>) -> bool {
    forall|k: int| 0 <= k < selected.len() ==> cards[#[trigger] selected[k] as int].band_id == cards[selected[0] as int].band_id
}

/// All of the selected cards share the attribute of the first.
pub open spec fn same_attribute(cards: Seq<SignatureCard>, selected: Seq<usize>) -> bool {
    forall|k: int| 0 <= k < selected.len() ==> cards[#[trigger] selected[k] as int].attribute == cards[selected[0] as int].attribute
}

/// The signature of a full team: unified by whatever its five cards share.
pub open spec fn team_signature_spec(cards: Seq<SignatureCard>, selected: Seq<usize>) -> MedleyPruneSignature {
    let first = cards[selected[0] as int];
    match (same_band(cards, selected), same_attribute(cards, selected)) {
        (true, true) => MedleyPruneSignature::UnifiedBandAttribute(first.band_id, first.attribute),
        (true, false) => MedleyPruneSignature::UnifiedBand(first.band_id),
        (false, true) => MedleyPruneSignature::UnifiedAttribute(first.attribute),
        (false, false) => MedleyPruneSignature::Mixed,
    }
}

/// The band all the selected cards share, if they do.
pub fn unified_band_id(cards: &[SignatureCard], selected_indices: &[usize; 5]) -> (r: Option<u32>)
    requires
        forall|k: int| 0 <= k < 5 ==> selected_indices@[k] < cards@.len(),
    ensures
        r == if same_band(cards@, selected_indices@) { Some(cards@[selected_indices@[0] as int].band_id) } else { None },
{
    let first = cards[selected_indices[0]].band_id;
    let mut k: usize = 0;
    while k < 5
        invariant
            k <= 5,
            first == cards@[selected_indices@[0] as int].band_id,
            forall|j: int| 0 <= j < 5 ==> selected_indices@[j] < cards@.len(),
            forall|j: int| 0 <= j < k ==> cards@[#[trigger] selected_indices@[j] as int].band_id == first,
        decreases 5 - k,
    {
        if cards[selected_indices[k]].band_id != first {
            return None;
        }
        k += 1;
    }
    Some(first)
}

/// The attribute all the selected cards share, if they do.
pub fn unified_attribute(cards: &[SignatureCard], selected_indices: &[usize; 5]) -> (r: Option<Attribute>)
    requires
        forall|k: int| 0 <= k < 5 ==> selected_indices@[k] < cards@.len(),
    ensures
        r == if same_attribute(cards@, selected_indices@) { Some(cards@[selected_indices@[0] as int].attribute) } else { None },
{
    let first = cards[selected_indices[0]].attribute;
    let mut k: usize = 0;
    while k < 5
        invariant
            k <= 5,
            first == cards@[selected_indices@[0] as int].attribute,
            forall|j: int| 0 <= j < 5 ==> selected_indices@[j] < cards@.len(),
            forall|j: int| 0 <= j < k ==> cards@[#[trigger] selected_indices@[j] as int].attribute == first,
        decreases 5 - k,
    {
        if cards[selected_indices[k]].attribute != first {
            return None;
        }
        k += 1;
    }
    Some(first)
}

/// The signature of a full team of five selected cards.
pub fn selected_resolved_team_signature(cards: &[SignatureCard], selected_indices: &[usize]) -> (r: MedleyPruneSignature)
    requires
        selected_indices@.len() == 5,
        forall|k: int| 0 <= k < 5 ==> selected_indices@[k] < cards@.len(),
    ensures
        r == team_signature_spec(cards@, selected_indices@),
{
    let team: [usize; 5] = [selected_indices[0], selected_indices[1], selected_indices[2], selected_indices[3], selected_indices[4]];
    assert(team@ =~= selected_indices@);
    match (unified_band_id(cards, &team), unified_attribute(cards, &team)) {
        (Some(band_id), Some(attribute)) => MedleyPruneSignature::UnifiedBandAttribute(band_id, attribute),
        (Some(band_id), None) => MedleyPruneSignature::UnifiedBand(band_id),
        (None, Some(attribute)) => MedleyPruneSignature::UnifiedAttribute(attribute),
        (None, None) => MedleyPruneSignature::Mixed,
    }
}

} // verus!
