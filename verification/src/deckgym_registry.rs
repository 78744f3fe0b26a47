//! The card registry as DeckGym describes its cards, and its summary.
//!
//! Discovery and simulation use the same DeckGym revision, so the search never
//! proposes a card that the engine cannot play.

use vstd::prelude::*;

use crate::domain::{Card, CardId, CardRegistry, CardType};
use crate::text::{chars_of, string_from_chars, trim, trim_chars, views, words, split_words};

verus! {

/// The registry's card counts.
#[derive(Clone, Debug, PartialEq, Eq)]
pub struct DeckGymRegistryStats {
    pub total_cards: usize,
    pub supported_cards: usize,
    pub unsupported_cards: usize,
}

/// A card that is legal and whose mechanics the engine implements.
pub open spec fn simulatable(c: Card) -> bool {
    c.legal && c.mechanics_implemented
}

/// How many of the cards are simulatable.
pub open spec fn simulatable_count(s: Seq<Card>) -> int
    decreases s.len(),
{
    if s.len() == 0 {
        0
    } else {
        simulatable_count(s.drop_last()) + if simulatable(s.last()) {
            1int
        } else {
            0int
        }
    }
}

pub proof fn lemma_simulatable_count_bounds(s: Seq<Card>)
    ensures
        0 <= simulatable_count(s) <= s.len(),
    decreases s.len(),
{
    if s.len() > 0 {
        lemma_simulatable_count_bounds(s.drop_last());
    }
}


/// A DeckGym card is registered as a basic Pokémon exactly when it is a
/// Pokémon of stage 0; a Pokémon of a later stage is a Pokémon that is not
/// basic, and a card without a stage is a trainer. Every registered card is
/// legal, simulatable exactly when the engine implements it, and kept under
/// DeckGym's identifier.
pub proof fn law_deckgym_card_kind(info: DeckGymCardInfo, c: Card)
    requires
        card_of_info(info, c),
    ensures
        (c.card_type == CardType::Pokemon { basic: true }) <==> info.pokemon_stage == Some(0u8),
        (c.card_type == CardType::Pokemon { basic: false }) <==> (info.pokemon_stage is Some
            && info.pokemon_stage != Some(0u8)),
        (c.card_type == CardType::Trainer) <==> info.pokemon_stage is None,
        c.legal,
        c.mechanics_implemented == info.implemented,
        c.name@ == info.name@,
{
}

/// Some card of `s` with identifier `id` is legal and implemented by the engine.
pub open spec fn usable_card_id(s: Seq<Card>, id: CardId) -> bool {
    exists|j: int| 0 <= j < s.len() && s[j].id == id && s[j].legal && s[j].mechanics_implemented
}

/// `id` is one of `ids`.
pub open spec fn lists_id(ids: Seq<CardId>, id: CardId) -> bool {
    exists|i: int| 0 <= i < ids.len() && ids[i] == id
}

/// The cards a search may use, and those counted as supported, are exactly
/// the cards that are both legal and implemented by the engine: every listed
/// identifier is that of such a card, every such card is listed, the
/// supported count is the number listed, and a card that is not legal leaves
/// at least one card unsupported.
pub proof fn law_supported_cards_are_legal_and_implemented(s: Seq<Card>)
    ensures
        simulatable_count(s) == simulatable_ids(s).len(),
        forall|i: int|
            0 <= i < simulatable_ids(s).len() ==> usable_card_id(s, #[trigger] simulatable_ids(s)[i]),
        forall|j: int|
            0 <= j < s.len() && (#[trigger] s[j]).legal && s[j].mechanics_implemented ==> lists_id(
                simulatable_ids(s),
                s[j].id,
            ),
        forall|j: int|
            0 <= j < s.len() && !(#[trigger] s[j]).legal ==> simulatable_count(s) + 1 <= s.len(),
    decreases s.len(),
{
    if s.len() > 0 {
        let f = s.drop_last();
        law_supported_cards_are_legal_and_implemented(f);
        lemma_simulatable_count_bounds(f);
        let ids = simulatable_ids(s);
        let fids = simulatable_ids(f);
        assert forall|i: int| 0 <= i < ids.len() implies usable_card_id(s, #[trigger] ids[i]) by {
            if i < fids.len() {
                assert(ids[i] == fids[i]);
                assert(usable_card_id(f, fids[i]));
                let j = choose|j: int|
                    0 <= j < f.len() && f[j].id == fids[i] && f[j].legal && f[j].mechanics_implemented;
                assert(s[j] == f[j]);
            } else {
                assert(s[s.len() - 1] == s.last());
            }
        }
        assert forall|j: int|
            0 <= j < s.len() && (#[trigger] s[j]).legal && s[j].mechanics_implemented implies lists_id(
                ids,
                s[j].id,
            ) by {
            if j < f.len() {
                assert(s[j] == f[j]);
                assert(lists_id(fids, f[j].id));
                let i = choose|i: int| 0 <= i < fids.len() && fids[i] == f[j].id;
                assert(ids[i] == fids[i]);
            } else {
                assert(s[j] == s.last());
                assert(ids[ids.len() - 1] == s.last().id);
            }
        }
        assert forall|j: int| 0 <= j < s.len() && !(#[trigger] s[j]).legal implies simulatable_count(
            s,
        ) + 1 <= s.len() by {
            if j < f.len() {
                assert(s[j] == f[j]);
                assert(!f[j].legal);
            } else {
                assert(s[j] == s.last());
            }
        }
    }
}

/// Counts all cards, the simulatable ones, and the others.
pub fn registry_stats(registry: &CardRegistry) -> (r: DeckGymRegistryStats)
    ensures
        r.total_cards == registry.card_list().len(),
        r.supported_cards == simulatable_count(registry.card_list()),
        r.unsupported_cards == r.total_cards - r.supported_cards,
{
    let cards = registry.iter();
    let total = registry.len();
    let mut supported: usize = 0;
    let mut i: usize = 0;
    while i < cards.len()
        invariant
            i <= cards.len(),
            cards@ == registry.card_list(),
            supported == simulatable_count(cards@.take(i as int)),
            supported <= i,
        decreases cards.len() - i,
    {
        assert(cards@.take(i + 1).drop_last() =~= cards@.take(i as int));
        if cards[i].legal && cards[i].mechanics_implemented {
            supported = supported + 1;
        }
        i = i + 1;
    }
    assert(cards@.take(cards.len() as int) =~= cards@);
    DeckGymRegistryStats {
        total_cards: total,
        supported_cards: supported,
        unsupported_cards: total - supported,
    }
}

/// The identifiers of the simulatable cards, in order.
pub open spec fn simulatable_ids(s: Seq<Card>) -> Seq<CardId>
    decreases s.len(),
{
    if s.len() == 0 {
        Seq::empty()
    } else if simulatable(s.last()) {
        simulatable_ids(s.drop_last()).push(s.last().id)
    } else {
        simulatable_ids(s.drop_last())
    }
}

/// The cards a search may put into decks: the simulatable ones, in
/// identifier order.
pub fn searchable_card_ids(registry: &CardRegistry) -> (r: Vec<CardId>)
    ensures
        r@ == simulatable_ids(registry.card_list()),
{
    let cards = registry.iter();
    let mut out: Vec<CardId> = Vec::new();
    let mut i: usize = 0;
    while i < cards.len()
        invariant
            i <= cards.len(),
            cards@ == registry.card_list(),
            out@ == simulatable_ids(cards@.take(i as int)),
        decreases cards.len() - i,
    {
        assert(cards@.take(i + 1).drop_last() =~= cards@.take(i as int));
        if cards[i].legal && cards[i].mechanics_implemented {
            out.push(cards[i].id.copy());
        }
        i = i + 1;
    }
    assert(cards@.take(cards.len() as int) =~= cards@);
    out
}

/// Every space replaced by `-`.
pub open spec fn dash_spaces(s: Seq<char>) -> Seq<char> {
    s.map_values(|c: char| if c == ' ' { '-' } else { c })
}

/// A PocketLab identifier from DeckGym's `SET NUMBER`: `A3b 041` becomes
/// `A3b-041`; anything that is not two words is trimmed and has its spaces
/// replaced by dashes.
pub open spec fn normalized_deckgym_id(raw: Seq<char>) -> Seq<char> {
    let w = words(raw);
    if w.len() == 2 {
        w[0] + seq!['-'] + w[1]
    } else {
        dash_spaces(trim(raw))
    }
}

pub fn normalize_deckgym_card_id(raw: &str) -> (r: String)
    ensures
        r@ == normalized_deckgym_id(raw@),
{
    let chars = chars_of(raw);
    let w = split_words(&chars);
    if w.len() == 2 {
        assert(views(w@)[0] == w@[0]@);
        assert(views(w@)[1] == w@[1]@);
        let mut out = crate::text::sub_chars(&w[0], 0, w[0].len());
        out.push('-');
        crate::text::extend_chars(&mut out, &w[1]);
        assert(out@ =~= normalized_deckgym_id(raw@));
        string_from_chars(&out)
    } else {
        let t = trim_chars(&chars);
        let mut out: Vec<char> = Vec::new();
        let mut i: usize = 0;
        while i < t.len()
            invariant
                i <= t.len(),
                out@ == dash_spaces(t@.take(i as int)),
            decreases t.len() - i,
        {
            let c = t[i];
            out.push(if c == ' ' { '-' } else { c });
            assert(dash_spaces(t@.take(i + 1)) =~= dash_spaces(t@.take(i as int)).push(
                if c == ' ' {
                    '-'
                } else {
                    c
                },
            ));
            i = i + 1;
        }
        assert(t@.take(t.len() as int) =~= t@);
        string_from_chars(&out)
    }
}

/// What the registry reads of one DeckGym card: its `SET NUMBER` identifier,
/// its name, its evolution stage when it is a Pokémon, and whether the engine
/// implements it completely.
#[derive(Clone, Debug)]
pub struct DeckGymCardInfo {
    pub raw_id: String,
    pub name: String,
    pub pokemon_stage: Option<u8>,
    pub implemented: bool,
}

/// The registry's card for a DeckGym card: legal, simulatable when fully
/// implemented, and a basic Pokémon when its stage is 0.
pub open spec fn card_of_info(info: DeckGymCardInfo, c: Card) -> bool {
    &&& c.id.0@ == normalized_deckgym_id(info.raw_id@)
    &&& c.name@ == info.name@
    &&& c.card_type == match info.pokemon_stage {
        Some(stage) => CardType::Pokemon { basic: stage == 0 },
        None => CardType::Trainer,
    }
    &&& c.evolves_from is None
    &&& c.required_energy_types@.len() == 0
    &&& c.legal
    &&& c.mechanics_implemented == info.implemented
}

pub fn card_from_deckgym(info: &DeckGymCardInfo) -> (r: Card)
    ensures
        card_of_info(*info, r),
{
    let card_type = match info.pokemon_stage {
        Some(stage) => CardType::Pokemon { basic: stage == 0 },
        None => CardType::Trainer,
    };
    Card {
        id: CardId(normalize_deckgym_card_id(info.raw_id.as_str())),
        name: info.name.clone(),
        card_type,
        evolves_from: None,
        required_energy_types: Vec::new(),
        legal: true,
        mechanics_implemented: info.implemented,
    }
}

/// The registry holding a card for each DeckGym card, a later card replacing an
/// earlier one with the same identifier.
pub fn registry_from_deckgym(infos: &Vec<DeckGymCardInfo>) -> (r: CardRegistry)
    ensures
        forall|k: Seq<char>|
            #[trigger] r@.contains_key(k) <==> exists|i: int|
                0 <= i < infos@.len() && normalized_deckgym_id(#[trigger] infos@[i].raw_id@) == k,
        forall|k: Seq<char>|
            #[trigger] r@.contains_key(k) ==> exists|i: int|
                0 <= i < infos@.len() && card_of_info(#[trigger] infos@[i], r@[k]) && forall|j: int|
                    i < j < infos@.len() ==> normalized_deckgym_id(#[trigger] infos@[j].raw_id@) != k,
{
    let mut registry = CardRegistry::new();
    let mut i: usize = 0;
    while i < infos.len()
        invariant
            i <= infos.len(),
            forall|k: Seq<char>|
                #[trigger] registry@.contains_key(k) <==> exists|a: int|
                    0 <= a < i && normalized_deckgym_id(#[trigger] infos@[a].raw_id@) == k,
            forall|k: Seq<char>|
                #[trigger] registry@.contains_key(k) ==> exists|a: int|
                    0 <= a < i && card_of_info(#[trigger] infos@[a], registry@[k]) && forall|j: int|
                        a < j < i ==> normalized_deckgym_id(#[trigger] infos@[j].raw_id@) != k,
        decreases infos.len() - i,
    {
        let card = card_from_deckgym(&infos[i]);
        let ghost kc = card.id.0@;
        let ghost before = registry@;
        registry.insert(card);
        assert forall|k: Seq<char>| #[trigger] registry@.contains_key(k) <==> exists|a: int|
            0 <= a < i + 1 && normalized_deckgym_id(#[trigger] infos@[a].raw_id@) == k by {
            if k == kc {
                assert(normalized_deckgym_id(infos@[i as int].raw_id@) == k);
            }
        }
        assert forall|k: Seq<char>| #[trigger] registry@.contains_key(k) implies exists|a: int|
            0 <= a < i + 1 && card_of_info(#[trigger] infos@[a], registry@[k]) && forall|j: int|
                a < j < i + 1 ==> normalized_deckgym_id(#[trigger] infos@[j].raw_id@) != k by {
            if k == kc {
                assert(card_of_info(infos@[i as int], registry@[k]));
            } else {
                assert(before.contains_key(k));
                let a = choose|a: int|
                    0 <= a < i && card_of_info(#[trigger] infos@[a], before[k]) && forall|j: int|
                        a < j < i ==> normalized_deckgym_id(#[trigger] infos@[j].raw_id@) != k;
                assert(card_of_info(infos@[a], registry@[k]));
            }
        }
        i = i + 1;
    }
    registry
}

} // verus!
