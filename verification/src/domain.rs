//! Cards, the card registry, decks and the deck legality rules.

use vstd::prelude::*;

use crate::text::{
    compare_str, decimal, extend_chars, extend_str, is_digit, join, lemma_concat_lacks,
    lemma_decimal, lemma_join_lacks, lemma_join_step, lemma_seq_lt_total, lemma_split_join,
    push_decimal, seq_lt, split_on, KeyOrder,
};
use crate::keyed::{
    find_slot, has_key, key_map, keys_sorted, lemma_has_key_take, lemma_sorted_determined,
    lemma_sorted_index, lemma_sorted_insert, lemma_sorted_update, sorted_upsert, Keyed,
};

verus! {

/// The number of cards in a legal deck.
pub const DECK_SIZE: u8 = 20;

/// How many cards of one name a legal deck may hold, over all printings.
pub const MAX_COPIES_BY_NAME: u8 = 2;

/// A card's identifier, `SET-NUMBER` such as `A3b-041` or `P-A-005`.
#[derive(Clone, Debug, PartialEq, Eq, PartialOrd, Ord, Hash)]
pub struct CardId(pub String);

impl CardId {
    /// A copy of this identifier.
    pub fn copy(&self) -> (r: CardId)
        ensures
            r == *self,
    {
        CardId(self.0.clone())
    }
}

#[derive(Clone, Copy, Debug, PartialEq, Eq, Structural)]
pub enum CardType {
    Pokemon { basic: bool },
    Trainer,
}

#[derive(Clone, Debug)]
pub struct Card {
    pub id: CardId,
    pub name: String,
    pub card_type: CardType,
    pub evolves_from: Option<String>,
    pub required_energy_types: Vec<String>,
    pub legal: bool,
    pub mechanics_implemented: bool,
}

impl Keyed for Card {
    open spec fn key_of(&self) -> Seq<char> {
        self.id.0@
    }

    fn key_str(&self) -> (r: &str) {
        self.id.0.as_str()
    }
}

impl Keyed for (CardId, u8) {
    open spec fn key_of(&self) -> Seq<char> {
        self.0.0@
    }

    fn key_str(&self) -> (r: &str) {
        self.0.0.as_str()
    }
}

/// The set of texts held by a vector of strings.
pub open spec fn string_set(s: Seq<String>) -> Set<Seq<char>> {
    Set::new(|k: Seq<char>| has_key(s, k))
}

/// Adds `x` to a sorted vector of distinct strings, unless it is there already.
pub fn sorted_set_insert(v: &mut Vec<String>, x: String)
    requires
        keys_sorted(old(v)@),
    ensures
        keys_sorted(final(v)@),
        string_set(final(v)@) == string_set(old(v)@).insert(x@),
{
    let (p, found) = find_slot(v, x.as_str());
    if !found {
        proof {
            lemma_sorted_insert(v@, p as int, x);
            assert(key_map(v@.insert(p as int, x)).dom() =~= key_map(v@).dom().insert(x@));
            assert(string_set(v@.insert(p as int, x)) =~= string_set(v@).insert(x@)) by {
                assert forall|k: Seq<char>| #[trigger] has_key(v@.insert(p as int, x), k) == (
                has_key(v@, k) || k == x@) by {
                    assert(key_map(v@.insert(p as int, x)).dom().contains(k) == has_key(
                        v@.insert(p as int, x),
                        k,
                    ));
                    assert(key_map(v@).dom().contains(k) == has_key(v@, k));
                }
            }
        }
        v.insert(p, x);
    } else {
        assert(string_set(v@) =~= string_set(v@).insert(x@));
    }
}

/// All known cards, each under its identifier.
#[derive(Debug)]
pub struct CardRegistry {
    cards: Vec<Card>,
}

impl View for CardRegistry {
    type V = Map<Seq<char>, Card>;

    closed spec fn view(&self) -> Map<Seq<char>, Card> {
        key_map(self.cards@)
    }
}

impl CardRegistry {
    #[verifier::type_invariant]
    pub closed spec fn inv(&self) -> bool {
        keys_sorted(self.cards@)
    }

    /// The cards in increasing identifier order.
    pub closed spec fn card_list(&self) -> Seq<Card> {
        self.cards@
    }

    pub proof fn lemma_inv(&self)
        requires
            self.inv(),
        ensures
            keys_sorted(self.card_list()),
            self@ == key_map(self.card_list()),
    {
    }

    /// An empty registry.
    pub fn new() -> (r: CardRegistry)
        ensures
            r@ == Map::<Seq<char>, Card>::empty(),
            r.card_list().len() == 0,
    {
        let r = CardRegistry { cards: Vec::new() };
        assert(r@ =~= Map::<Seq<char>, Card>::empty());
        r
    }

    /// Adds a card, replacing the card that had the same identifier; the
    /// registry holds one card more only when the identifier is new.
    pub fn insert(&mut self, card: Card)
        ensures
            final(self)@ == old(self)@.insert(card.id.0@, card),
            final(self).card_list().len() == old(self).card_list().len() + if old(
                self,
            )@.contains_key(card.id.0@) {
                0int
            } else {
                1int
            },
    {
        proof {
            use_type_invariant(&*self);
        }
        let mut cards: Vec<Card> = Vec::new();
        std::mem::swap(&mut cards, &mut self.cards);
        sorted_upsert(&mut cards, card);
        self.cards = cards;
    }

    /// The card with the given identifier.
    pub fn get(&self, id: &CardId) -> (r: Option<&Card>)
        ensures
            r is Some == self@.contains_key(id.0@),
            r is Some ==> *r.unwrap() == self@[id.0@],
    {
        proof {
            use_type_invariant(self);
        }
        let (p, found) = find_slot(&self.cards, id.0.as_str());
        if found {
            proof {
                lemma_sorted_index(self.cards@, p as int);
            }
            Some(&self.cards[p])
        } else {
            None
        }
    }

    /// All cards, in increasing identifier order.
    pub fn iter(&self) -> (r: &Vec<Card>)
        ensures
            r@ == self.card_list(),
            keys_sorted(r@),
            self@ == key_map(r@),
    {
        proof {
            use_type_invariant(self);
        }
        &self.cards
    }

    /// The number of cards.
    pub fn len(&self) -> (r: usize)
        ensures
            r == self.card_list().len(),
    {
        self.cards.len()
    }
}

/// Reading a registry after inserting a card: the card under its identifier,
/// and under every other identifier what was there before.
pub proof fn law_registry_read_after_insert(before: Map<Seq<char>, Card>, card: Card, id: Seq<char>)
    ensures
        before.insert(card.id.0@, card).contains_key(id) == (id == card.id.0@ || before.contains_key(
            id,
        )),
        id == card.id.0@ ==> before.insert(card.id.0@, card)[id] == card,
        id != card.id.0@ ==> before.insert(card.id.0@, card)[id] == before[id],
{
}

impl Default for CardRegistry {
    fn default() -> (r: CardRegistry)
        ensures
            r@ == Map::<Seq<char>, Card>::empty(),
            r.card_list().len() == 0,
    {
        CardRegistry::new()
    }
}


/// The sum of the counts of a list of deck entries.
pub open spec fn entries_total(s: Seq<(CardId, u8)>) -> int
    decreases s.len(),
{
    if s.len() == 0 {
        0
    } else {
        entries_total(s.drop_last()) + s.last().1
    }
}

/// The count under each card identifier of a key-sorted list of entries.
pub open spec fn count_map(s: Seq<(CardId, u8)>) -> Map<Seq<char>, u8> {
    key_map(s).map_values(|e: (CardId, u8)| e.1)
}

/// The map that inserting the pairs one after the other builds: a later pair
/// for the same card replaces an earlier one.
pub open spec fn pairs_map(s: Seq<(CardId, u8)>) -> Map<Seq<char>, u8>
    decreases s.len(),
{
    if s.len() == 0 {
        Map::empty()
    } else {
        pairs_map(s.drop_last()).insert(s.last().0.0@, s.last().1)
    }
}

/// `cards=`
pub open spec fn cards_label() -> Seq<char> {
    seq!['c', 'a', 'r', 'd', 's', '=']
}

/// `;energy=`
pub open spec fn energy_label() -> Seq<char> {
    seq![';', 'e', 'n', 'e', 'r', 'g', 'y', '=']
}

/// `ID:COUNT` for one deck entry.
pub open spec fn entry_text(e: (CardId, u8)) -> Seq<char> {
    e.0.0@ + seq![':'] + decimal(e.1 as nat)
}

/// The texts of a list of strings.
pub open spec fn texts(s: Seq<String>) -> Seq<Seq<char>> {
    s.map_values(|x: String| x@)
}

/// `cards=ID:COUNT|...;energy=TYPE,...`, entries and types in the given order.
pub open spec fn canonical_text(entries: Seq<(CardId, u8)>, energies: Seq<String>) -> Seq<char> {
    cards_label() + join(entries.map_values(|e: (CardId, u8)| entry_text(e)), seq!['|'])
        + energy_label() + join(texts(energies), seq![','])
}

/// A deck: how many copies of each card it holds, and its Energy Zone types.
#[derive(Debug, PartialEq, Eq)]
pub struct Deck {
    cards: Vec<(CardId, u8)>,
    energy_types: Vec<String>,
}

impl Deck {
    #[verifier::type_invariant]
    pub closed spec fn inv(&self) -> bool {
        keys_sorted(self.cards@) && keys_sorted(self.energy_types@)
    }

    /// The entries, one per card, in increasing identifier order.
    pub closed spec fn entries(&self) -> Seq<(CardId, u8)> {
        self.cards@
    }

    /// The Energy Zone types, in increasing order.
    pub closed spec fn energies(&self) -> Seq<String> {
        self.energy_types@
    }

    pub proof fn lemma_inv(&self)
        requires
            self.inv(),
        ensures
            keys_sorted(self.entries()),
            keys_sorted(self.energies()),
    {
    }

    /// How many copies of each card the deck holds.
    pub open spec fn counts(&self) -> Map<Seq<char>, u8> {
        count_map(self.entries())
    }

    /// The Energy Zone types.
    pub open spec fn energy_set(&self) -> Set<Seq<char>> {
        string_set(self.energies())
    }

    /// The number of cards.
    pub open spec fn total(&self) -> int {
        entries_total(self.entries())
    }

    /// A deck made of entries and types that are already in increasing order.
    pub fn from_sorted(cards: Vec<(CardId, u8)>, energy_types: Vec<String>) -> (r: Deck)
        requires
            keys_sorted(cards@),
            keys_sorted(energy_types@),
        ensures
            r.entries() == cards@,
            r.energies() == energy_types@,
    {
        Deck { cards, energy_types }
    }

    /// The deck with the given cards and types. A later pair for the same card
    /// replaces an earlier one; a repeated type counts once.
    pub fn new(cards: Vec<(CardId, u8)>, energy_types: Vec<String>) -> (r: Deck)
        ensures
            r.counts() == pairs_map(cards@),
            r.energy_set() == string_set(energy_types@),
    {
        let mut sorted_cards: Vec<(CardId, u8)> = Vec::new();
        let mut i: usize = 0;
        assert(count_map(sorted_cards@) =~= pairs_map(cards@.take(0)));
        while i < cards.len()
            invariant
                i <= cards.len(),
                keys_sorted(sorted_cards@),
                count_map(sorted_cards@) == pairs_map(cards@.take(i as int)),
            decreases cards.len() - i,
        {
            let entry = (cards[i].0.copy(), cards[i].1);
            let ghost before = sorted_cards@;
            sorted_upsert(&mut sorted_cards, entry);
            assert(cards@.take(i + 1).drop_last() =~= cards@.take(i as int));
            assert(count_map(sorted_cards@) =~= count_map(before).insert(entry.0.0@, entry.1));
            i = i + 1;
        }
        assert(cards@.take(cards.len() as int) =~= cards@);
        let mut sorted_energy: Vec<String> = Vec::new();
        let mut j: usize = 0;
        assert(string_set(sorted_energy@) =~= string_set(energy_types@.take(0)));
        while j < energy_types.len()
            invariant
                j <= energy_types.len(),
                keys_sorted(sorted_energy@),
                string_set(sorted_energy@) == string_set(energy_types@.take(j as int)),
            decreases energy_types.len() - j,
        {
            let e = energy_types[j].clone();
            sorted_set_insert(&mut sorted_energy, e);
            proof {
                lemma_has_key_take(energy_types@, j as int);
                assert(string_set(energy_types@.take(j + 1)) =~= string_set(
                    energy_types@.take(j as int),
                ).insert(energy_types@[j as int]@));
            }
            j = j + 1;
        }
        assert(energy_types@.take(energy_types.len() as int) =~= energy_types@);
        Deck { cards: sorted_cards, energy_types: sorted_energy }
    }

    /// The entries, one per card, in increasing identifier order.
    pub fn card_entries(&self) -> (r: &Vec<(CardId, u8)>)
        ensures
            r@ == self.entries(),
            keys_sorted(r@),
    {
        proof {
            use_type_invariant(self);
        }
        &self.cards
    }

    /// The Energy Zone types, in increasing order.
    pub fn energy_types(&self) -> (r: &Vec<String>)
        ensures
            r@ == self.energies(),
            keys_sorted(r@),
    {
        proof {
            use_type_invariant(self);
        }
        &self.energy_types
    }

    /// How many copies of the card the deck holds, if any.
    pub fn count_of(&self, id: &CardId) -> (r: Option<u8>)
        ensures
            r == (if self.counts().contains_key(id.0@) {
                Some(self.counts()[id.0@])
            } else {
                None::<u8>
            }),
    {
        proof {
            use_type_invariant(self);
        }
        let (p, found) = find_slot(&self.cards, id.0.as_str());
        if found {
            proof {
                lemma_sorted_index(self.cards@, p as int);
            }
            Some(self.cards[p].1)
        } else {
            None
        }
    }

    /// A copy of the entries.
    pub fn copy_entries(&self) -> (r: Vec<(CardId, u8)>)
        ensures
            r@ == self.entries(),
    {
        let mut cards: Vec<(CardId, u8)> = Vec::new();
        let mut i: usize = 0;
        while i < self.cards.len()
            invariant
                i <= self.cards.len(),
                cards@ == self.cards@.take(i as int),
            decreases self.cards.len() - i,
        {
            cards.push((self.cards[i].0.copy(), self.cards[i].1));
            assert(self.cards@.take(i + 1) =~= self.cards@.take(i as int).push(self.cards@[i as int]));
            i = i + 1;
        }
        assert(cards@ =~= self.cards@);
        cards
    }

    /// A copy of this deck.
    pub fn duplicate(&self) -> (r: Deck)
        ensures
            r.entries() == self.entries(),
            r.energies() == self.energies(),
    {
        proof {
            use_type_invariant(self);
        }
        let mut cards: Vec<(CardId, u8)> = Vec::new();
        let mut i: usize = 0;
        while i < self.cards.len()
            invariant
                i <= self.cards.len(),
                cards@ == self.cards@.take(i as int),
            decreases self.cards.len() - i,
        {
            cards.push((self.cards[i].0.copy(), self.cards[i].1));
            assert(self.cards@.take(i + 1) =~= self.cards@.take(i as int).push(self.cards@[i as int]));
            i = i + 1;
        }
        let mut energy: Vec<String> = Vec::new();
        let mut j: usize = 0;
        while j < self.energy_types.len()
            invariant
                j <= self.energy_types.len(),
                energy@ == self.energy_types@.take(j as int),
            decreases self.energy_types.len() - j,
        {
            energy.push(self.energy_types[j].clone());
            assert(self.energy_types@.take(j + 1) =~= self.energy_types@.take(j as int).push(
                self.energy_types@[j as int],
            ));
            j = j + 1;
        }
        assert(cards@ =~= self.cards@);
        assert(energy@ =~= self.energy_types@);
        Deck { cards, energy_types: energy }
    }

    /// Whether the deck holds at most 255 cards, as `total_cards` and
    /// `validate` need.
    pub fn total_fits(&self) -> (r: bool)
        ensures
            r == (self.total() <= 255),
    {
        let mut sum: u32 = 0;
        let mut i: usize = 0;
        while i < self.cards.len()
            invariant
                i <= self.cards.len(),
                sum == entries_total(self.cards@.take(i as int)),
                sum <= 255,
            decreases self.cards.len() - i,
        {
            assert(self.cards@.take(i + 1).drop_last() =~= self.cards@.take(i as int));
            sum = sum + self.cards[i].1 as u32;
            if sum > 255 {
                proof {
                    lemma_entries_total_prefix(self.cards@, i + 1);
                }
                return false;
            }
            i = i + 1;
        }
        assert(self.cards@.take(self.cards.len() as int) =~= self.cards@);
        true
    }

    /// The number of cards in the deck.
    pub fn total_cards(&self) -> (r: u8)
        requires
            self.total() <= 255,
        ensures
            r == self.total(),
    {
        let mut sum: u8 = 0;
        let mut i: usize = 0;
        while i < self.cards.len()
            invariant
                i <= self.cards.len(),
                entries_total(self.cards@) <= 255,
                sum == entries_total(self.cards@.take(i as int)),
            decreases self.cards.len() - i,
        {
            proof {
                lemma_entries_total_prefix(self.cards@, i + 1);
                assert(self.cards@.take(i + 1).drop_last() =~= self.cards@.take(i as int));
            }
            sum = sum + self.cards[i].1;
            i = i + 1;
        }
        assert(self.cards@.take(self.cards.len() as int) =~= self.cards@);
        sum
    }

    /// `cards=ID:COUNT|...;energy=TYPE,...` with cards and types in increasing
    /// order: a text that depends only on what the deck holds.
    pub fn canonical_key(&self) -> (r: String)
        ensures
            r@ == canonical_text(self.entries(), self.energies()),
    {
        let ghost parts = self.cards@.map_values(|e: (CardId, u8)| entry_text(e));
        let ghost names = texts(self.energy_types@);
        let mut out: Vec<char> = vec!['c', 'a', 'r', 'd', 's', '='];
        assert(out@ =~= cards_label());
        let mut i: usize = 0;
        while i < self.cards.len()
            invariant
                i <= self.cards.len(),
                parts == self.cards@.map_values(|e: (CardId, u8)| entry_text(e)),
                out@ == cards_label() + join(parts.take(i as int), seq!['|']),
            decreases self.cards.len() - i,
        {
            let ghost before = out@;
            if i > 0 {
                out.push('|');
            }
            extend_str(&mut out, self.cards[i].0.0.as_str());
            out.push(':');
            push_decimal(&mut out, self.cards[i].1 as u64);
            proof {
                lemma_join_step(parts, seq!['|'], i as int);
                if i > 0 {
                    assert(out@ =~= before + seq!['|'] + parts[i as int]);
                } else {
                    assert(out@ =~= before + parts[i as int]);
                    assert(parts.take(0) =~= Seq::<Seq<char>>::empty());
                }
            }
            i = i + 1;
        }
        assert(parts.take(self.cards.len() as int) =~= parts);
        let label = vec![';', 'e', 'n', 'e', 'r', 'g', 'y', '='];
        assert(label@ =~= energy_label());
        extend_chars(&mut out, &label);
        let ghost head = out@;
        let mut j: usize = 0;
        assert(out@ =~= head + join(names.take(0), seq![',']));
        while j < self.energy_types.len()
            invariant
                j <= self.energy_types.len(),
                names == texts(self.energy_types@),
                out@ == head + join(names.take(j as int), seq![',']),
            decreases self.energy_types.len() - j,
        {
            let ghost before = out@;
            if j > 0 {
                out.push(',');
            }
            extend_str(&mut out, self.energy_types[j].as_str());
            proof {
                lemma_join_step(names, seq![','], j as int);
                if j > 0 {
                    assert(out@ =~= before + seq![','] + names[j as int]);
                } else {
                    assert(out@ =~= before + names[j as int]);
                }
            }
            j = j + 1;
        }
        assert(names.take(self.energy_types.len() as int) =~= names);
        assert(out@ =~= canonical_text(self.cards@, self.energy_types@));
        crate::text::string_from_chars(&out)
    }
}

impl Clone for Deck {
    /// A deck holding the same.
    fn clone(&self) -> (r: Deck)
        ensures
            r.entries() == self.entries(),
            r.energies() == self.energies(),
    {
        self.duplicate()
    }
}

/// The count of card `k`, zero when absent.
pub open spec fn count_or_zero(m: Map<Seq<char>, u8>, k: Seq<char>) -> int {
    if m.contains_key(k) {
        m[k] as int
    } else {
        0
    }
}

/// Adds `count` copies of card `id` to key-sorted entries.
pub fn add_copies(entries: &mut Vec<(CardId, u8)>, id: String, count: u8)
    requires
        keys_sorted(old(entries)@),
        count_or_zero(count_map(old(entries)@), id@) + count <= 255,
    ensures
        keys_sorted(final(entries)@),
        count_map(final(entries)@) == count_map(old(entries)@).insert(
            id@,
            (count_or_zero(count_map(old(entries)@), id@) + count) as u8,
        ),
        entries_total(final(entries)@) == entries_total(old(entries)@) + count,
{
    let (p, found) = find_slot(entries, id.as_str());
    let ghost old_entries = entries@;
    if found {
        proof {
            lemma_sorted_index(entries@, p as int);
        }
        let c = entries[p].1;
        let kept = entries[p].0.copy();
        let x = (kept, c + count);
        proof {
            lemma_sorted_update(entries@, p as int, x);
            lemma_total_update(entries@, p as int, x);
        }
        entries.set(p, x);
        assert(count_map(entries@) =~= count_map(old_entries).insert(id@, (c + count) as u8));
    } else {
        let x = (CardId(id), count);
        proof {
            lemma_sorted_insert(entries@, p as int, x);
            lemma_total_insert(entries@, p as int, x);
        }
        entries.insert(p, x);
        assert(count_map(entries@) =~= count_map(old_entries).insert(x.0.0@, count));
    }
}

/// The total after changing one entry's count.
pub proof fn lemma_total_update(s: Seq<(CardId, u8)>, p: int, x: (CardId, u8))
    requires
        0 <= p < s.len(),
    ensures
        entries_total(s.update(p, x)) == entries_total(s) - s[p].1 + x.1,
    decreases s.len(),
{
    if p < s.len() - 1 {
        lemma_total_update(s.drop_last(), p, x);
        assert(s.update(p, x).drop_last() =~= s.drop_last().update(p, x));
        assert(s.update(p, x).last() == s.last());
    } else {
        assert(s.update(p, x).drop_last() =~= s.drop_last());
    }
}

pub proof fn lemma_total_remove(s: Seq<(CardId, u8)>, p: int)
    requires
        0 <= p < s.len(),
    ensures
        entries_total(s.remove(p)) == entries_total(s) - s[p].1,
    decreases s.len(),
{
    if p < s.len() - 1 {
        lemma_total_remove(s.drop_last(), p);
        assert(s.remove(p).drop_last() =~= s.drop_last().remove(p));
    } else {
        assert(s.remove(p) =~= s.drop_last());
    }
}

pub proof fn lemma_total_insert(s: Seq<(CardId, u8)>, p: int, x: (CardId, u8))
    requires
        0 <= p <= s.len(),
    ensures
        entries_total(s.insert(p, x)) == entries_total(s) + x.1,
    decreases s.len(),
{
    if p < s.len() {
        lemma_total_insert(s.drop_last(), p, x);
        assert(s.insert(p, x).drop_last() =~= s.drop_last().insert(p, x));
    } else {
        assert(s.insert(p, x).drop_last() =~= s);
    }
}

pub proof fn lemma_entry_le_total(s: Seq<(CardId, u8)>, p: int)
    requires
        0 <= p < s.len(),
    ensures
        s[p].1 <= entries_total(s),
    decreases s.len(),
{
    lemma_entries_total_nonneg(s.drop_last());
    if p < s.len() - 1 {
        lemma_entry_le_total(s.drop_last(), p);
    }
}


/// Counts are never negative, so a prefix totals no more than the whole.
pub proof fn lemma_entries_total_prefix(s: Seq<(CardId, u8)>, i: int)
    requires
        0 <= i <= s.len(),
    ensures
        0 <= entries_total(s.take(i)) <= entries_total(s),
    decreases s.len() - i,
{
    if i < s.len() {
        lemma_entries_total_prefix(s, i + 1);
        assert(s.take(i + 1).drop_last() =~= s.take(i));
        lemma_entries_total_nonneg(s.take(i));
    } else {
        assert(s.take(i) =~= s);
        lemma_entries_total_nonneg(s);
    }
}

pub proof fn lemma_entries_total_nonneg(s: Seq<(CardId, u8)>)
    ensures
        entries_total(s) >= 0,
    decreases s.len(),
{
    if s.len() > 0 {
        lemma_entries_total_nonneg(s.drop_last());
    }
}


/// Why a deck breaks the rules.
#[derive(Clone, Debug, PartialEq, Eq)]
pub enum DeckValidationError {
    WrongSize(u8),
    UnknownCard(CardId),
    IllegalCard(CardId),
    UnsupportedCard(CardId),
    ZeroCount(CardId),
    TooManyCopies { name: String, count: u8 },
    NoBasicPokemon,
}

/// A broken rule, with texts in place of strings.
pub enum DeckIssue {
    WrongSize(int),
    UnknownCard(Seq<char>),
    IllegalCard(Seq<char>),
    UnsupportedCard(Seq<char>),
    ZeroCount(Seq<char>),
    TooManyCopies(Seq<char>, int),
    NoBasicPokemon,
}

impl DeckValidationError {
    pub open spec fn issue(&self) -> DeckIssue {
        match self {
            DeckValidationError::WrongSize(n) => DeckIssue::WrongSize(*n as int),
            DeckValidationError::UnknownCard(id) => DeckIssue::UnknownCard(id.0@),
            DeckValidationError::IllegalCard(id) => DeckIssue::IllegalCard(id.0@),
            DeckValidationError::UnsupportedCard(id) => DeckIssue::UnsupportedCard(id.0@),
            DeckValidationError::ZeroCount(id) => DeckIssue::ZeroCount(id.0@),
            DeckValidationError::TooManyCopies { name, count } => DeckIssue::TooManyCopies(
                name@,
                *count as int,
            ),
            DeckValidationError::NoBasicPokemon => DeckIssue::NoBasicPokemon,
        }
    }
}

/// What is wrong with one entry on its own: no copies, or a card that is
/// unknown, not legal, or not simulatable.
pub open spec fn entry_issue(e: (CardId, u8), reg: Map<Seq<char>, Card>) -> Option<DeckIssue> {
    let k = e.0.0@;
    if e.1 == 0 {
        Some(DeckIssue::ZeroCount(k))
    } else if !reg.contains_key(k) {
        Some(DeckIssue::UnknownCard(k))
    } else if !reg[k].legal {
        Some(DeckIssue::IllegalCard(k))
    } else if !reg[k].mechanics_implemented {
        Some(DeckIssue::UnsupportedCard(k))
    } else {
        None
    }
}

/// The issue of the first entry that has one.
pub open spec fn first_entry_issue(s: Seq<(CardId, u8)>, reg: Map<Seq<char>, Card>) -> Option<
    DeckIssue,
>
    decreases s.len(),
{
    if s.len() == 0 {
        None
    } else if entry_issue(s[0], reg) is Some {
        entry_issue(s[0], reg)
    } else {
        first_entry_issue(s.drop_first(), reg)
    }
}

/// The number of copies of cards named `name`, over all printings.
pub open spec fn name_total(s: Seq<(CardId, u8)>, reg: Map<Seq<char>, Card>, name: Seq<char>) -> int
    decreases s.len(),
{
    if s.len() == 0 {
        0
    } else {
        let k = s.last().0.0@;
        name_total(s.drop_last(), reg, name) + if reg.contains_key(k) && reg[k].name@ == name {
            s.last().1 as int
        } else {
            0
        }
    }
}

/// More copies of cards named `name` than the rules allow.
pub open spec fn over_limit(s: Seq<(CardId, u8)>, reg: Map<Seq<char>, Card>, name: Seq<char>) -> bool {
    name_total(s, reg, name) > MAX_COPIES_BY_NAME as int
}

/// `name` is over the limit and no name before it in order is.
pub open spec fn least_over_limit(
    s: Seq<(CardId, u8)>,
    reg: Map<Seq<char>, Card>,
    name: Seq<char>,
) -> bool {
    &&& over_limit(s, reg, name)
    &&& forall|m: Seq<char>| #[trigger] over_limit(s, reg, m) ==> !seq_lt(m, name)
}

/// The entry is a basic Pokémon.
pub open spec fn is_basic_entry(e: (CardId, u8), reg: Map<Seq<char>, Card>) -> bool {
    reg.contains_key(e.0.0@) && reg[e.0.0@].card_type == CardType::Pokemon { basic: true }
}

pub open spec fn has_basic(s: Seq<(CardId, u8)>, reg: Map<Seq<char>, Card>) -> bool {
    exists|j: int| 0 <= j < s.len() && #[trigger] is_basic_entry(s[j], reg)
}

/// The first rule that the entries break, checked in this order: the deck
/// size; then entry by entry, the count and the card; the copies by name,
/// reporting the first name in order; a basic Pokémon.
pub open spec fn deck_issue(s: Seq<(CardId, u8)>, reg: Map<Seq<char>, Card>) -> Option<DeckIssue> {
    if entries_total(s) != DECK_SIZE as int {
        Some(DeckIssue::WrongSize(entries_total(s)))
    } else if first_entry_issue(s, reg) is Some {
        first_entry_issue(s, reg)
    } else if exists|n: Seq<char>| over_limit(s, reg, n) {
        let n = choose|n: Seq<char>| least_over_limit(s, reg, n);
        Some(DeckIssue::TooManyCopies(n, name_total(s, reg, n)))
    } else if !has_basic(s, reg) {
        Some(DeckIssue::NoBasicPokemon)
    } else {
        None
    }
}

pub proof fn lemma_name_total_bounds(s: Seq<(CardId, u8)>, reg: Map<Seq<char>, Card>, name: Seq<char>)
    ensures
        0 <= name_total(s, reg, name) <= entries_total(s),
    decreases s.len(),
{
    if s.len() > 0 {
        lemma_name_total_bounds(s.drop_last(), reg, name);
    }
}

pub proof fn lemma_name_total_witness(s: Seq<(CardId, u8)>, reg: Map<Seq<char>, Card>, name: Seq<char>)
    requires
        name_total(s, reg, name) > 0,
    ensures
        exists|j: int|
            0 <= j < s.len() && reg.contains_key(#[trigger] s[j].0.0@) && reg[s[j].0.0@].name@
                == name,
    decreases s.len(),
{
    let k = s.last().0.0@;
    if !(reg.contains_key(k) && reg[k].name@ == name) {
        lemma_name_total_witness(s.drop_last(), reg, name);
        let j = choose|j: int|
            0 <= j < s.drop_last().len() && reg.contains_key(#[trigger] s.drop_last()[j].0.0@)
                && reg[s.drop_last()[j].0.0@].name@ == name;
        assert(s[j] == s.drop_last()[j]);
    } else {
        assert(s[s.len() - 1].0.0@ == k);
    }
}

/// The copies of cards named `name` that the entries hold.
fn count_by_name(cards: &Vec<(CardId, u8)>, registry: &CardRegistry, name: &String) -> (r: u32)
    requires
        entries_total(cards@) <= 255,
    ensures
        r == name_total(cards@, registry@, name@),
{
    let mut acc: u32 = 0;
    let mut k: usize = 0;
    while k < cards.len()
        invariant
            k <= cards.len(),
            entries_total(cards@) <= 255,
            acc == name_total(cards@.take(k as int), registry@, name@),
        decreases cards.len() - k,
    {
        proof {
            assert(cards@.take(k + 1).drop_last() =~= cards@.take(k as int));
            lemma_name_total_bounds(cards@.take(k as int), registry@, name@);
            lemma_entries_total_prefix(cards@, k as int);
        }
        match registry.get(&cards[k].0) {
            Some(card) => {
                if card.name == *name {
                    acc = acc + cards[k].1 as u32;
                }
            },
            None => {},
        }
        k = k + 1;
    }
    assert(cards@.take(cards.len() as int) =~= cards@);
    acc
}

impl Deck {
    /// Checks the deck against the rules: twenty cards, each card known, legal
    /// and simulatable with at least one copy, at most two copies per name over
    /// all printings, and a basic Pokémon.
    pub fn validate(&self, registry: &CardRegistry) -> (r: Result<(), DeckValidationError>)
        requires
            self.total() <= 255,
        ensures
            match r {
                Ok(()) => deck_issue(self.entries(), registry@) is None,
                Err(e) => deck_issue(self.entries(), registry@) == Some(e.issue()),
            },
    {
        proof {
            use_type_invariant(self);
        }
        let ghost s = self.cards@;
        let ghost reg = registry@;
        let total = self.total_cards();
        if total != DECK_SIZE {
            return Err(DeckValidationError::WrongSize(total));
        }
        let n = self.cards.len();
        let mut i: usize = 0;
        assert(s.skip(0) =~= s);
        while i < n
            invariant
                n == s.len(),
                s == self.cards@,
                reg == registry@,
                i <= n,
                entries_total(s) == DECK_SIZE as int,
                first_entry_issue(s, reg) == first_entry_issue(s.skip(i as int), reg),
                forall|j: int| 0 <= j < i ==> #[trigger] entry_issue(s[j], reg) is None,
            decreases n - i,
        {
            let id = &self.cards[i].0;
            assert(s.skip(i as int)[0] == s[i as int]);
            assert(s.skip(i as int).drop_first() =~= s.skip(i + 1));
            if self.cards[i].1 == 0 {
                return Err(DeckValidationError::ZeroCount(id.copy()));
            }
            match registry.get(id) {
                None => {
                    return Err(DeckValidationError::UnknownCard(id.copy()));
                },
                Some(card) => {
                    if !card.legal {
                        return Err(DeckValidationError::IllegalCard(id.copy()));
                    }
                    if !card.mechanics_implemented {
                        return Err(DeckValidationError::UnsupportedCard(id.copy()));
                    }
                },
            }
            i = i + 1;
        }
        assert(s.skip(n as int) =~= Seq::<(CardId, u8)>::empty());
        let mut best: Option<usize> = None;
        let mut best_total: u32 = 0;
        let mut i: usize = 0;
        while i < n
            invariant
                n == s.len(),
                s == self.cards@,
                reg == registry@,
                i <= n,
                entries_total(s) == DECK_SIZE as int,
                first_entry_issue(s, reg) is None,
                forall|j: int| 0 <= j < n ==> #[trigger] entry_issue(s[j], reg) is None,
                best is None ==> forall|j: int|
                    0 <= j < i ==> !over_limit(s, reg, #[trigger] reg[s[j].0.0@].name@),
                best is Some ==> {
                    let b = best.unwrap() as int;
                    &&& 0 <= b < i
                    &&& over_limit(s, reg, reg[s[b].0.0@].name@)
                    &&& best_total == name_total(s, reg, reg[s[b].0.0@].name@)
                    &&& forall|j: int|
                        0 <= j < i && over_limit(s, reg, #[trigger] reg[s[j].0.0@].name@)
                            ==> !seq_lt(reg[s[j].0.0@].name@, reg[s[b].0.0@].name@)
                },
            decreases n - i,
        {
            assert(entry_issue(s[i as int], reg) is None);
            let ghost name_i = reg[s[i as int].0.0@].name@;
            match registry.get(&self.cards[i].0) {
                Some(card) => {
                    assert(card.name@ == name_i);
                    let t = count_by_name(&self.cards, registry, &card.name);
                    proof {
                        crate::text::lemma_seq_lt_irreflexive(name_i);
                    }
                    if t > 2 {
                        match best {
                            None => {
                                best = Some(i);
                                best_total = t;
                            },
                            Some(b) => {
                                assert(entry_issue(s[b as int], reg) is None);
                                let ghost name_b = reg[s[b as int].0.0@].name@;
                                let best_card = registry.get(&self.cards[b].0);
                                match best_card {
                                    Some(bc) => {
                                        assert(bc.name@ == name_b);
                                        proof {
                                            lemma_seq_lt_total(name_i, name_b);
                                        }
                                        match compare_str(card.name.as_str(), bc.name.as_str()) {
                                            KeyOrder::Less => {
                                                proof {
                                                    assert forall|j: int|
                                                        0 <= j < i + 1 && over_limit(
                                                            s,
                                                            reg,
                                                            #[trigger] reg[s[j].0.0@].name@,
                                                        ) implies !seq_lt(
                                                        reg[s[j].0.0@].name@,
                                                        name_i,
                                                    ) by {
                                                        if j < i && seq_lt(
                                                            reg[s[j].0.0@].name@,
                                                            name_i,
                                                        ) {
                                                            crate::text::lemma_seq_lt_transitive(
                                                                reg[s[j].0.0@].name@,
                                                                name_i,
                                                                name_b,
                                                            );
                                                        }
                                                    }
                                                }
                                                best = Some(i);
                                                best_total = t;
                                            },
                                            _ => {},
                                        }
                                    },
                                    None => {},
                                }
                            },
                        }
                    }
                },
                None => {},
            }
            i = i + 1;
        }
        match best {
            Some(b) => {
                let best_card = registry.get(&self.cards[b].0);
                match best_card {
                    Some(bc) => {
                        proof {
                            let nb = bc.name@;
                            assert forall|m: Seq<char>| #[trigger]
                                over_limit(s, reg, m) implies !seq_lt(m, nb) by {
                                lemma_name_total_witness(s, reg, m);
                                let j = choose|j: int|
                                    0 <= j < s.len() && reg.contains_key(#[trigger] s[j].0.0@)
                                        && reg[s[j].0.0@].name@ == m;
                                assert(over_limit(s, reg, reg[s[j].0.0@].name@));
                            }
                            assert(least_over_limit(s, reg, nb));
                            let c = choose|x: Seq<char>| least_over_limit(s, reg, x);
                            assert(least_over_limit(s, reg, c));
                            lemma_seq_lt_total(c, nb);
                            lemma_name_total_bounds(s, reg, nb);
                        }
                        return Err(
                            DeckValidationError::TooManyCopies {
                                name: bc.name.clone(),
                                count: best_total as u8,
                            },
                        );
                    },
                    None => {
                        assert(entry_issue(s[b as int], reg) is None);
                    },
                }
            },
            None => {
                proof {
                    assert forall|m: Seq<char>| !over_limit(s, reg, m) by {
                        if over_limit(s, reg, m) {
                            lemma_name_total_witness(s, reg, m);
                            let j = choose|j: int|
                                0 <= j < s.len() && reg.contains_key(#[trigger] s[j].0.0@)
                                    && reg[s[j].0.0@].name@ == m;
                            assert(!over_limit(s, reg, reg[s[j].0.0@].name@));
                        }
                    }
                }
            },
        }
        let mut i: usize = 0;
        while i < n
            invariant
                n == s.len(),
                s == self.cards@,
                reg == registry@,
                i <= n,
                entries_total(s) == DECK_SIZE as int,
                first_entry_issue(s, reg) is None,
                forall|m: Seq<char>| !#[trigger] over_limit(s, reg, m),
                forall|j: int| 0 <= j < i ==> !#[trigger] is_basic_entry(s[j], reg),
            decreases n - i,
        {
            match registry.get(&self.cards[i].0) {
                Some(card) => {
                    match card.card_type {
                        CardType::Pokemon { basic: true } => {
                            assert(is_basic_entry(s[i as int], reg));
                            return Ok(());
                        },
                        _ => {},
                    }
                },
                None => {},
            }
            i = i + 1;
        }
        Err(DeckValidationError::NoBasicPokemon)
    }
}


/// A deck passes the rules only with a basic Pokémon in it: when the deck has
/// no issue, some card of it is, in the registry, a Pokémon that is basic;
/// and a deck of twenty known, legal, simulatable cards within the copy limit
/// whose Pokémon are all evolved (or that has none) has exactly the issue
/// that it lacks a basic Pokémon.
pub proof fn law_legal_decks_hold_a_basic_pokemon(s: Seq<(CardId, u8)>, reg: Map<Seq<char>, Card>)
    ensures
        deck_issue(s, reg) is None ==> exists|j: int|
            0 <= j < s.len() && reg.contains_key(#[trigger] s[j].0.0@) && reg[s[j].0.0@].card_type
                == (CardType::Pokemon { basic: true }),
        ({
            &&& entries_total(s) == 20
            &&& first_entry_issue(s, reg) is None
            &&& forall|n: Seq<char>| !#[trigger] over_limit(s, reg, n)
            &&& forall|j: int|
                0 <= j < s.len() && reg.contains_key(#[trigger] s[j].0.0@) ==> reg[s[j].0.0@].card_type
                    != (CardType::Pokemon { basic: true })
        }) ==> deck_issue(s, reg) == Some(DeckIssue::NoBasicPokemon),
{
    if deck_issue(s, reg) is None {
        assert(has_basic(s, reg));
        let j = choose|j: int| 0 <= j < s.len() && #[trigger] is_basic_entry(s[j], reg);
        assert(reg.contains_key(s[j].0.0@));
    }
    if entries_total(s) == 20 && first_entry_issue(s, reg) is None && (forall|n: Seq<char>|
        !#[trigger] over_limit(s, reg, n)) && (forall|j: int|
        0 <= j < s.len() && reg.contains_key(#[trigger] s[j].0.0@) ==> reg[s[j].0.0@].card_type
            != (CardType::Pokemon { basic: true })) {
        if has_basic(s, reg) {
            let j = choose|j: int| 0 <= j < s.len() && #[trigger] is_basic_entry(s[j], reg);
            assert(reg.contains_key(s[j].0.0@));
        }
    }
}


/// The energy types that the listed cards require, over the cards the registry knows.
pub open spec fn required_energy(reg: Map<Seq<char>, Card>, s: Seq<(CardId, u8)>) -> Set<Seq<char>> {
    Set::new(
        |e: Seq<char>|
            exists|j: int|
                0 <= j < s.len() && reg.contains_key(#[trigger] s[j].0.0@) && string_set(
                    reg[s[j].0.0@].required_energy_types@,
                ).contains(e),
    )
}

impl CardRegistry {
    /// The energy types that the cards of the entries require, in increasing order.
    pub fn infer_energy_types(&self, cards: &Vec<(CardId, u8)>) -> (r: Vec<String>)
        ensures
            keys_sorted(r@),
            string_set(r@) == required_energy(self@, cards@),
    {
        let mut out: Vec<String> = Vec::new();
        let mut i: usize = 0;
        assert(string_set(out@) =~= required_energy(self@, cards@.take(0)));
        while i < cards.len()
            invariant
                i <= cards.len(),
                keys_sorted(out@),
                string_set(out@) == required_energy(self@, cards@.take(i as int)),
            decreases cards.len() - i,
        {
            let ghost before = string_set(out@);
            match self.get(&cards[i].0) {
                Some(card) => {
                    let req = &card.required_energy_types;
                    let mut k: usize = 0;
                    assert(string_set(req@.take(0)) =~= Set::<Seq<char>>::empty());
                    while k < req.len()
                        invariant
                            k <= req.len(),
                            keys_sorted(out@),
                            string_set(out@) == before.union(string_set(req@.take(k as int))),
                        decreases req.len() - k,
                    {
                        sorted_set_insert(&mut out, req[k].clone());
                        proof {
                            lemma_has_key_take(req@, k as int);
                            assert(string_set(req@.take(k + 1)) =~= string_set(req@.take(k as int)).insert(
                                req@[k as int]@,
                            ));
                        }
                        assert(string_set(out@) =~= before.union(string_set(req@.take(k + 1))));
                        k = k + 1;
                    }
                    assert(req@.take(req.len() as int) =~= req@);
                    assert forall|e: Seq<char>|
                        #[trigger] required_energy(self@, cards@.take(i + 1)).contains(e) == (
                        before.contains(e) || string_set(req@).contains(e)) by {
                        if required_energy(self@, cards@.take(i + 1)).contains(e) {
                            let j = choose|j: int|
                                0 <= j < i + 1 && self@.contains_key(
                                    #[trigger] cards@.take(i + 1)[j].0.0@,
                                ) && string_set(
                                    self@[cards@.take(i + 1)[j].0.0@].required_energy_types@,
                                ).contains(e);
                            if j < i {
                                assert(cards@.take(i as int)[j] == cards@.take(i + 1)[j]);
                            }
                        }
                        if before.contains(e) {
                            let j = choose|j: int|
                                0 <= j < i && self@.contains_key(
                                    #[trigger] cards@.take(i as int)[j].0.0@,
                                ) && string_set(
                                    self@[cards@.take(i as int)[j].0.0@].required_energy_types@,
                                ).contains(e);
                            assert(cards@.take(i as int)[j] == cards@.take(i + 1)[j]);
                        }
                        if string_set(req@).contains(e) {
                            assert(cards@.take(i + 1)[i as int] == cards@[i as int]);
                        }
                    }
                    assert(string_set(out@) =~= required_energy(self@, cards@.take(i + 1)));
                },
                None => {
                    assert forall|e: Seq<char>|
                        #[trigger] required_energy(self@, cards@.take(i + 1)).contains(e)
                            == before.contains(e) by {
                        if required_energy(self@, cards@.take(i + 1)).contains(e) {
                            let j = choose|j: int|
                                0 <= j < i + 1 && self@.contains_key(
                                    #[trigger] cards@.take(i + 1)[j].0.0@,
                                ) && string_set(
                                    self@[cards@.take(i + 1)[j].0.0@].required_energy_types@,
                                ).contains(e);
                            assert(cards@.take(i as int)[j] == cards@.take(i + 1)[j]);
                        }
                        if before.contains(e) {
                            let j = choose|j: int|
                                0 <= j < i && self@.contains_key(
                                    #[trigger] cards@.take(i as int)[j].0.0@,
                                ) && string_set(
                                    self@[cards@.take(i as int)[j].0.0@].required_energy_types@,
                                ).contains(e);
                            assert(cards@.take(i as int)[j] == cards@.take(i + 1)[j]);
                        }
                    }
                    assert(string_set(out@) =~= required_energy(self@, cards@.take(i + 1)));
                },
            }
            i = i + 1;
        }
        assert(cards@.take(cards.len() as int) =~= cards@);
        out
    }
}


/// A deck's canonical key depends only on what the deck holds, not on the
/// order in which its cards or energy types were given.
pub proof fn law_canonical_key_depends_only_on_contents(a: Deck, b: Deck)
    requires
        a.inv(),
        b.inv(),
        a.counts() == b.counts(),
        a.energy_set() == b.energy_set(),
    ensures
        canonical_text(a.entries(), a.energies()) == canonical_text(b.entries(), b.energies()),
{
    let f = |e: (CardId, u8)| (e.0.0@, e.1);
    assert forall|k: Seq<char>| #[trigger] has_key(a.entries(), k) == has_key(b.entries(), k) by {
        assert(a.counts().dom().contains(k) == has_key(a.entries(), k));
        assert(b.counts().dom().contains(k) == has_key(b.entries(), k));
    }
    assert forall|k: Seq<char>| #[trigger] has_key(a.entries(), k) implies f(
        key_map(a.entries())[k],
    ) == f(key_map(b.entries())[k]) by {
        let i = crate::keyed::key_index(a.entries(), k);
        assert(has_key(b.entries(), k));
        let j = crate::keyed::key_index(b.entries(), k);
        assert(a.entries()[i].key_of() == k);
        assert(b.entries()[j].key_of() == k);
        assert(key_map(a.entries())[k] == a.entries()[i]);
        assert(key_map(b.entries())[k] == b.entries()[j]);
        assert(a.counts()[k] == a.entries()[i].1);
        assert(b.counts()[k] == b.entries()[j].1);
        assert(a.counts()[k] == b.counts()[k]);
    }
    lemma_sorted_determined(a.entries(), b.entries(), f);
    let g = |x: String| x@;
    assert forall|k: Seq<char>| #[trigger] has_key(a.energies(), k) == has_key(b.energies(), k) by {
        assert(a.energy_set().contains(k) == has_key(a.energies(), k));
        assert(b.energy_set().contains(k) == has_key(b.energies(), k));
    }
    assert forall|k: Seq<char>| #[trigger] has_key(a.energies(), k) implies g(
        key_map(a.energies())[k],
    ) == g(key_map(b.energies())[k]) by {
        let i = crate::keyed::key_index(a.energies(), k);
        let j = crate::keyed::key_index(b.energies(), k);
    }
    lemma_sorted_determined(a.energies(), b.energies(), g);
    assert(texts(a.energies()) =~= a.energies().map_values(g));
    assert(texts(b.energies()) =~= b.energies().map_values(g));
    let h = |e: (CardId, u8)| entry_text(e);
    assert(a.entries().map_values(f).len() == b.entries().map_values(f).len());
    assert(a.entries().len() == b.entries().len());
    assert(a.entries().map_values(h) =~= b.entries().map_values(h)) by {
        assert forall|i: int| 0 <= i < a.entries().len() implies #[trigger] a.entries().map_values(
            h,
        )[i] == b.entries().map_values(h)[i] by {
            assert(a.entries().map_values(f)[i] == b.entries().map_values(f)[i]);
            assert(a.entries().map_values(f)[i] == f(a.entries()[i]));
            assert(b.entries().map_values(f)[i] == f(b.entries()[i]));
        }
    }
}



/// A card identifier that cannot be confused inside a canonical key: it holds
/// none of the separators `:`, `|` and `;`.
pub open spec fn key_safe_id(k: Seq<char>) -> bool {
    !k.contains(':') && !k.contains('|') && !k.contains(';')
}

/// An energy type that cannot be confused inside a canonical key: non-empty
/// and without `,`.
pub open spec fn key_safe_energy(e: Seq<char>) -> bool {
    e.len() > 0 && !e.contains(',')
}

proof fn lemma_decimal_lacks(n: nat, c: char)
    requires
        !is_digit(c),
    ensures
        !decimal(n).contains(c),
{
    lemma_decimal(n);
    if decimal(n).contains(c) {
        let i = choose|i: int| 0 <= i < decimal(n).len() && decimal(n)[i] == c;
        assert(is_digit(decimal(n)[i]));
    }
}

proof fn lemma_one_char_lacks(a: char, c: char)
    requires
        a != c,
    ensures
        !seq![a].contains(c),
{
    if seq![a].contains(c) {
        let i = choose|i: int| 0 <= i < 1 && seq![a][i] == c;
        assert(seq![a][0] == a);
    }
}

/// The text of an entry with a key-safe identifier is non-empty, holds no
/// `|` or `;`, and splits at `:` into the identifier and the count.
proof fn lemma_entry_text_parts(e: (CardId, u8))
    requires
        key_safe_id(e.0.0@),
    ensures
        entry_text(e).len() > 0,
        !entry_text(e).contains('|'),
        !entry_text(e).contains(';'),
        split_on(entry_text(e), ':') == seq![e.0.0@, decimal(e.1 as nat)],
{
    let k = e.0.0@;
    let d = decimal(e.1 as nat);
    let colon = seq![':'];
    lemma_decimal_lacks(e.1 as nat, '|');
    lemma_decimal_lacks(e.1 as nat, ';');
    lemma_decimal_lacks(e.1 as nat, ':');
    lemma_one_char_lacks(':', '|');
    lemma_one_char_lacks(':', ';');
    lemma_concat_lacks(k, colon, '|');
    lemma_concat_lacks(k + colon, d, '|');
    lemma_concat_lacks(k, colon, ';');
    lemma_concat_lacks(k + colon, d, ';');
    let parts = seq![k, d];
    assert(parts.drop_last() =~= seq![k]);
    assert(join(seq![k], colon) == k);
    assert(parts.last() == d);
    assert(join(parts, colon) =~= k + colon + d);
    assert(entry_text(e) == k + colon + d);
    lemma_split_join(parts, ':');
}

/// Two labelled halves that are equal as a whole are equal half by half,
/// when neither first half holds `;`.
proof fn lemma_split_labelled(a: Seq<char>, x: Seq<char>, b: Seq<char>, y: Seq<char>)
    requires
        cards_label() + a + energy_label() + x == cards_label() + b + energy_label() + y,
        !a.contains(';'),
        !b.contains(';'),
    ensures
        a == b,
        x == y,
{
    let ta = cards_label() + a + energy_label() + x;
    let tb = cards_label() + b + energy_label() + y;
    let la: int = a.len() as int;
    let lb: int = b.len() as int;
    assert(energy_label()[0] == ';');
    if la < lb {
        assert(ta[6 + la] == ';');
        assert(tb[6 + la] == b[la]);
    } else if lb < la {
        assert(tb[6 + lb] == ';');
        assert(ta[6 + lb] == a[lb]);
    }
    assert(a =~= ta.subrange(6, 6 + la));
    assert(b =~= tb.subrange(6, 6 + lb));
    assert(x =~= ta.skip(14 + la));
    assert(y =~= tb.skip(14 + lb));
}

/// Non-empty parts without `sep` are determined by what they join into.
proof fn lemma_join_parts_equal(pa: Seq<Seq<char>>, pb: Seq<Seq<char>>, sep: char)
    requires
        join(pa, seq![sep]) == join(pb, seq![sep]),
        forall|i: int| 0 <= i < pa.len() ==> (#[trigger] pa[i]).len() > 0 && !pa[i].contains(sep),
        forall|i: int| 0 <= i < pb.len() ==> (#[trigger] pb[i]).len() > 0 && !pb[i].contains(sep),
    ensures
        pa == pb,
{
    if pa.len() > 0 && pb.len() > 0 {
        lemma_split_join(pa, sep);
        lemma_split_join(pb, sep);
    } else if pa.len() == 0 && pb.len() > 0 {
        lemma_split_join(pb, sep);
        assert(split_on(Seq::<char>::empty(), sep) =~= seq![Seq::<char>::empty()]);
        assert(pb[0].len() > 0);
    } else if pb.len() == 0 && pa.len() > 0 {
        lemma_split_join(pa, sep);
        assert(split_on(Seq::<char>::empty(), sep) =~= seq![Seq::<char>::empty()]);
        assert(pa[0].len() > 0);
    } else {
        assert(pa =~= pb);
    }
}

/// Decks with the same canonical key hold the same copies of the same cards
/// and the same Energy Zone, when no card identifier holds `:`, `|` or `;`
/// and every energy type is non-empty without `,`.
pub proof fn law_canonical_key_identifies_deck(a: Deck, b: Deck)
    requires
        a.inv(),
        b.inv(),
        forall|i: int| 0 <= i < a.entries().len() ==> key_safe_id(#[trigger] a.entries()[i].0.0@),
        forall|i: int| 0 <= i < b.entries().len() ==> key_safe_id(#[trigger] b.entries()[i].0.0@),
        forall|i: int| 0 <= i < a.energies().len() ==> key_safe_energy(#[trigger] a.energies()[i]@),
        forall|i: int| 0 <= i < b.energies().len() ==> key_safe_energy(#[trigger] b.energies()[i]@),
        canonical_text(a.entries(), a.energies()) == canonical_text(b.entries(), b.energies()),
    ensures
        a.counts() == b.counts(),
        a.energy_set() == b.energy_set(),
{
    let ea = a.entries();
    let eb = b.entries();
    let pa = ea.map_values(|e: (CardId, u8)| entry_text(e));
    let pb = eb.map_values(|e: (CardId, u8)| entry_text(e));
    assert forall|i: int| 0 <= i < pa.len() implies (#[trigger] pa[i]).len() > 0 && !pa[i].contains(
        '|',
    ) && !pa[i].contains(';') by {
        lemma_entry_text_parts(ea[i]);
    }
    assert forall|i: int| 0 <= i < pb.len() implies (#[trigger] pb[i]).len() > 0 && !pb[i].contains(
        '|',
    ) && !pb[i].contains(';') by {
        lemma_entry_text_parts(eb[i]);
    }
    lemma_one_char_lacks('|', ';');
    lemma_join_lacks(pa, seq!['|'], ';');
    lemma_join_lacks(pb, seq!['|'], ';');
    let xa = join(texts(a.energies()), seq![',']);
    let xb = join(texts(b.energies()), seq![',']);
    lemma_split_labelled(join(pa, seq!['|']), xa, join(pb, seq!['|']), xb);
    lemma_join_parts_equal(pa, pb, '|');
    assert(ea.len() == eb.len());
    assert forall|i: int| 0 <= i < ea.len() implies #[trigger] ea[i].0.0@ == eb[i].0.0@ && ea[i].1
        == eb[i].1 by {
        lemma_entry_text_parts(ea[i]);
        lemma_entry_text_parts(eb[i]);
        assert(pa[i] == pb[i]);
        lemma_decimal(ea[i].1 as nat);
        lemma_decimal(eb[i].1 as nat);
    }
    let ta = texts(a.energies());
    let tb = texts(b.energies());
    assert forall|i: int| 0 <= i < ta.len() implies (#[trigger] ta[i]).len() > 0 && !ta[i].contains(
        ',',
    ) by {
        assert(ta[i] == a.energies()[i]@);
    }
    assert forall|i: int| 0 <= i < tb.len() implies (#[trigger] tb[i]).len() > 0 && !tb[i].contains(
        ',',
    ) by {
        assert(tb[i] == b.energies()[i]@);
    }
    lemma_join_parts_equal(ta, tb, ',');
    assert(a.counts() =~= b.counts()) by {
        assert forall|k: Seq<char>| #[trigger] has_key(ea, k) == has_key(eb, k) by {
            if has_key(ea, k) {
                let i = crate::keyed::key_index(ea, k);
                assert(eb[i].key_of() == k);
            }
            if has_key(eb, k) {
                let i = crate::keyed::key_index(eb, k);
                assert(ea[i].key_of() == k);
            }
        }
        assert forall|k: Seq<char>| #[trigger] a.counts().contains_key(k) implies a.counts()[k]
            == b.counts()[k] by {
            let i = crate::keyed::key_index(ea, k);
            lemma_sorted_index(ea, i);
            assert(eb[i].key_of() == k);
            lemma_sorted_index(eb, i);
        }
    }
    assert(a.energy_set() =~= b.energy_set()) by {
        assert forall|k: Seq<char>| #[trigger] has_key(a.energies(), k) == has_key(b.energies(), k) by {
            if has_key(a.energies(), k) {
                let i = crate::keyed::key_index(a.energies(), k);
                assert(ta[i] == a.energies()[i]@);
                assert(tb[i] == b.energies()[i]@);
                assert(b.energies()[i].key_of() == k);
            }
            if has_key(b.energies(), k) {
                let i = crate::keyed::key_index(b.energies(), k);
                assert(ta[i] == a.energies()[i]@);
                assert(tb[i] == b.energies()[i]@);
                assert(a.energies()[i].key_of() == k);
            }
        }
    }
}

/// `Water`, the Energy Zone type used when no card asks for one.
pub open spec fn water() -> Seq<char> {
    seq!['W', 'a', 't', 'e', 'r']
}

/// The given types, or `Water` alone when there are none.
pub open spec fn energy_or_water(s: Set<Seq<char>>) -> Set<Seq<char>> {
    if s == Set::<Seq<char>>::empty() {
        Set::<Seq<char>>::empty().insert(water())
    } else {
        s
    }
}

/// The energy types the cards require, or `Water` when they require none
/// (Pocket needs an Energy Zone, and a colorless deck can use any type).
pub fn inferred_energy(registry: &CardRegistry, cards: &Vec<(CardId, u8)>) -> (r: Vec<String>)
    ensures
        keys_sorted(r@),
        string_set(r@) == energy_or_water(required_energy(registry@, cards@)),
{
    let inferred = registry.infer_energy_types(cards);
    if inferred.len() == 0 {
        assert(string_set(inferred@) =~= Set::<Seq<char>>::empty());
        let w = crate::text::string_from_chars(&vec!['W', 'a', 't', 'e', 'r']);
        let mut r: Vec<String> = Vec::new();
        assert(string_set(r@) =~= Set::<Seq<char>>::empty());
        sorted_set_insert(&mut r, w);
        assert(w@ =~= water());
        r
    } else {
        assert(has_key(inferred@, inferred@[0].key_of()));
        assert(string_set(inferred@).contains(inferred@[0]@));
        inferred
    }
}

} // verus!
