//! Tournament data from Limitless: decklists, and opponent pools built from standings.

use vstd::prelude::*;

use crate::deck_text::{
    apply_line, card_line_id, counts_fit, counts_in_range, energies_listed, int_counts,
    is_skipped_line, lit_energy, lit_pokemon, lit_pokemon_accented, lit_trainer,
    normalize_card_number, normalize_energy, normalized_energy, normalized_number, parse_lines,
    TextIssue, TextState,
};
use crate::domain::{
    add_copies, count_map, count_or_zero, deck_issue, energy_or_water, entries_total, texts,
    inferred_energy, required_energy, sorted_set_insert, string_set, CardId, CardRegistry, Deck,
    DeckIssue, DeckValidationError,
};
use crate::keyed::{find_slot, keys_sorted, lemma_sorted_insert, Keyed};
use crate::search::{
    deck_key, first_with_key, has_source, is_covered, is_dedupe_of, lemma_dedupe_insert,
    lemma_dedupe_skip, lemma_first_with_key_push, lemma_same_deck_key, same_deck,
};
use crate::text::{
    ascii_lower_seq, chars_of, contains_chars, contains_seq, decimal, extend_chars, has_prefix,
    is_digit, is_ws, join, lemma_concat_lacks, lemma_decimal, lemma_join_lacks, lemma_join_last,
    lemma_join_spaced, lemma_no_ws_lacks, lemma_split_join, lemma_trim_plain, lemma_trim_space,
    lemma_words_concat, lemma_words_single, lemma_words_space, lower_chars, no_ws, parse_u8_spec,
    push_decimal, seq_lt, split_on, string_from_chars, trim, words,
};
use vstd::pervasive::arbitrary;

verus! {

#[derive(Clone, Debug, PartialEq, Eq)]
pub struct LimitlessTournament {
    pub id: String,
    pub name: String,
}

#[derive(Clone, Debug, PartialEq, Eq)]
pub struct LimitlessDeckArchetype {
    pub id: String,
    pub name: String,
    pub icons: Vec<String>,
}

#[derive(Clone, Debug, PartialEq, Eq)]
pub struct LimitlessDeckCard {
    pub count: u8,
    pub set: String,
    pub number: String,
    pub name: String,
}

#[derive(Clone, Debug, PartialEq, Eq)]
pub struct LimitlessDeckList {
    pub pokemon: Vec<LimitlessDeckCard>,
    pub trainer: Vec<LimitlessDeckCard>,
    pub energy: Vec<String>,
}

impl Default for LimitlessDeckList {
    fn default() -> (r: LimitlessDeckList)
        ensures
            r.pokemon@.len() == 0,
            r.trainer@.len() == 0,
            r.energy@.len() == 0,
    {
        LimitlessDeckList { pokemon: Vec::new(), trainer: Vec::new(), energy: Vec::new() }
    }
}

#[derive(Clone, Debug, PartialEq, Eq)]
pub struct LimitlessStanding {
    pub player: String,
    pub placing: u32,
    pub deck: Option<LimitlessDeckArchetype>,
    pub decklist: Option<LimitlessDeckList>,
}

/// The identifier of a decklist card: `SET-NUMBER`, the number normalized.
pub open spec fn list_card_id(c: LimitlessDeckCard) -> Seq<char> {
    c.set@ + seq!['-'] + normalized_number(c.number@)
}

/// The copies per card of a list of decklist cards, adding up repeated cards.
pub open spec fn list_counts(cards: Seq<LimitlessDeckCard>) -> Map<Seq<char>, int>
    decreases cards.len(),
{
    if cards.len() == 0 {
        Map::empty()
    } else {
        let m = list_counts(cards.drop_last());
        let k = list_card_id(cards.last());
        m.insert(
            k,
            (if m.contains_key(k) {
                m[k]
            } else {
                0
            }) + cards.last().count,
        )
    }
}

/// All copies of a list of decklist cards.
pub open spec fn list_total(cards: Seq<LimitlessDeckCard>) -> int
    decreases cards.len(),
{
    if cards.len() == 0 {
        0
    } else {
        list_total(cards.drop_last()) + cards.last().count
    }
}

/// The Pokémon, then the trainers.
pub open spec fn list_cards(l: LimitlessDeckList) -> Seq<LimitlessDeckCard> {
    l.pokemon@ + l.trainer@
}

/// No card of the list has more than 255 copies in all.
pub open spec fn list_fits(l: LimitlessDeckList) -> bool {
    forall|k: Seq<char>|
        #[trigger] list_counts(list_cards(l)).contains_key(k) ==> list_counts(list_cards(l))[k] <= 255
}

/// The normalized energy types a decklist names.
pub open spec fn listed_energy_types(l: LimitlessDeckList) -> Set<Seq<char>> {
    Set::new(
        |e: Seq<char>|
            exists|i: int| 0 <= i < l.energy@.len() && normalized_energy(#[trigger] l.energy@[i]@) == e,
    )
}

proof fn lemma_list_counts_grow(cards: Seq<LimitlessDeckCard>, i: int)
    requires
        0 <= i <= cards.len(),
    ensures
        forall|k: Seq<char>| #[trigger]
            list_counts(cards.take(i)).contains_key(k) ==> list_counts(cards).contains_key(k)
                && list_counts(cards.take(i))[k] <= list_counts(cards)[k],
    decreases cards.len() - i,
{
    if i < cards.len() {
        lemma_list_counts_grow(cards, i + 1);
        assert(cards.take(i + 1).drop_last() =~= cards.take(i));
        let a = list_counts(cards.take(i));
        let b = list_counts(cards.take(i + 1));
        assert forall|k: Seq<char>| #[trigger] a.contains_key(k) implies b.contains_key(k) && a[k]
            <= b[k] by {}
    } else {
        assert(cards.take(i) =~= cards);
    }
}

/// Adds the copies of decklist cards to key-sorted entries.
fn add_list_cards(
    entries: &mut Vec<(CardId, u8)>,
    cards: &Vec<LimitlessDeckCard>,
    Ghost(done): Ghost<Seq<LimitlessDeckCard>>,
    Ghost(all): Ghost<Seq<LimitlessDeckCard>>,
)
    requires
        keys_sorted(old(entries)@),
        int_counts(old(entries)@) == list_counts(done),
        entries_total(old(entries)@) == list_total(done),
        all.take((done.len() + cards@.len()) as int) == done + cards@,
        done.len() + cards@.len() <= all.len(),
        forall|k: Seq<char>| #[trigger] list_counts(all).contains_key(k) ==> list_counts(all)[k] <= 255,
    ensures
        keys_sorted(final(entries)@),
        int_counts(final(entries)@) == list_counts(done + cards@),
        entries_total(final(entries)@) == list_total(done + cards@),
{
    let mut i: usize = 0;
    assert(done + cards@.take(0) =~= done);
    while i < cards.len()
        invariant
            i <= cards.len(),
            keys_sorted(entries@),
            int_counts(entries@) == list_counts(done + cards@.take(i as int)),
            entries_total(entries@) == list_total(done + cards@.take(i as int)),
            all.take((done.len() + cards@.len()) as int) == done + cards@,
            done.len() + cards@.len() <= all.len(),
            forall|k: Seq<char>| #[trigger] list_counts(all).contains_key(k) ==> list_counts(all)[k] <= 255,
        decreases cards.len() - i,
    {
        let c = &cards[i];
        let ghost prev = done + cards@.take(i as int);
        let ghost next = done + cards@.take(i + 1);
        assert(next.drop_last() =~= prev);
        assert(next.last() == cards@[i as int]);
        assert(next =~= all.take(done.len() + i + 1)) by {
            assert(all.take((done.len() + cards@.len()) as int).take(done.len() + i + 1) =~= next);
        }
        let number = normalize_card_number(c.number.as_str());
        let mut id = c.set.clone();
        id.append("-");
        id.append(number.as_str());
        proof {
            reveal_strlit("-");
            assert(id@ =~= list_card_id(cards@[i as int]));
            lemma_list_counts_grow(all, done.len() + i + 1);
            assert(list_counts(next).contains_key(id@));
            assert(count_or_zero(count_map(entries@), id@) == if list_counts(prev).contains_key(id@) {
                list_counts(prev)[id@]
            } else {
                0
            }) by {
                assert(int_counts(entries@).contains_key(id@) == count_map(entries@).contains_key(id@));
            }
        }
        let ghost before = entries@;
        add_copies(entries, id, c.count);
        assert(int_counts(entries@) =~= list_counts(next));
        i = i + 1;
    }
    assert(cards@.take(cards.len() as int) =~= cards@);
}

impl LimitlessDeckList {
    /// The deck of this list: each card `SET-NUMBER` with the number
    /// normalized, copies of a card adding up; the listed energy types, or,
    /// when none are listed, those the cards require (or `Water`).
    pub fn to_deck(&self, registry: &CardRegistry) -> (r: Deck)
        requires
            list_fits(*self),
        ensures
            int_counts(r.entries()) == list_counts(list_cards(*self)),
            r.total() == list_total(list_cards(*self)),
            r.energy_set() == if self.energy@.len() == 0 {
                energy_or_water(required_energy(registry@, r.entries()))
            } else {
                listed_energy_types(*self)
            },
    {
        let ghost all = list_cards(*self);
        let mut entries: Vec<(CardId, u8)> = Vec::new();
        assert(int_counts(entries@) =~= list_counts(Seq::<LimitlessDeckCard>::empty()));
        assert(all.take(self.pokemon@.len() as int) =~= Seq::<LimitlessDeckCard>::empty() + self.pokemon@);
        add_list_cards(&mut entries, &self.pokemon, Ghost(Seq::empty()), Ghost(all));
        assert(Seq::<LimitlessDeckCard>::empty() + self.pokemon@ =~= self.pokemon@);
        assert(all.take((self.pokemon@.len() + self.trainer@.len()) as int) =~= self.pokemon@ + self.trainer@);
        add_list_cards(&mut entries, &self.trainer, Ghost(self.pokemon@), Ghost(all));
        let energy = if self.energy.len() == 0 {
            inferred_energy(registry, &entries)
        } else {
            let mut set: Vec<String> = Vec::new();
            let mut j: usize = 0;
            while j < self.energy.len()
                invariant
                    j <= self.energy.len(),
                    keys_sorted(set@),
                    string_set(set@) == Set::new(
                        |e: Seq<char>|
                            exists|i: int| 0 <= i < j && normalized_energy(#[trigger] self.energy@[i]@) == e,
                    ),
                decreases self.energy.len() - j,
            {
                let e = normalize_energy(self.energy[j].as_str());
                sorted_set_insert(&mut set, e);
                assert(string_set(set@) =~= Set::new(
                    |x: Seq<char>|
                        exists|i: int| 0 <= i < j + 1 && normalized_energy(#[trigger] self.energy@[i]@) == x,
                ));
                j = j + 1;
            }
            assert(string_set(set@) =~= listed_energy_types(*self));
            set
        };
        Deck::from_sorted(entries, energy)
    }
}

/// The position of the first tournament whose name contains the fragment,
/// ignoring ASCII case.
pub fn find_tournament_index(tournaments: &Vec<LimitlessTournament>, name_fragment: &str) -> (r:
    Option<usize>)
    ensures
        match r {
            Some(i) => i < tournaments@.len() && contains_seq(
                ascii_lower_seq(tournaments@[i as int].name@),
                ascii_lower_seq(name_fragment@),
            ) && forall|k: int|
                0 <= k < i ==> !contains_seq(
                    ascii_lower_seq(#[trigger] tournaments@[k].name@),
                    ascii_lower_seq(name_fragment@),
                ),
            None => forall|k: int|
                0 <= k < tournaments@.len() ==> !contains_seq(
                    ascii_lower_seq(#[trigger] tournaments@[k].name@),
                    ascii_lower_seq(name_fragment@),
                ),
        },
{
    let needle = lower_chars(&chars_of(name_fragment));
    let mut i: usize = 0;
    while i < tournaments.len()
        invariant
            i <= tournaments.len(),
            needle@ == ascii_lower_seq(name_fragment@),
            forall|k: int|
                0 <= k < i ==> !contains_seq(
                    ascii_lower_seq(#[trigger] tournaments@[k].name@),
                    ascii_lower_seq(name_fragment@),
                ),
        decreases tournaments.len() - i,
    {
        let hay = lower_chars(&chars_of(tournaments[i].name.as_str()));
        if contains_chars(&hay, &needle) {
            return Some(i);
        }
        i = i + 1;
    }
    None
}


/// The position of the first deck of `a` with key `k`.
pub open spec fn first_index(a: Seq<Deck>, k: Seq<char>) -> int {
    choose|j: int| 0 <= j < a.len() && first_with_key(a, j) && #[trigger] deck_key(a[j]) == k
}

/// How many decks of `a` have key `k`.
pub open spec fn key_count(a: Seq<Deck>, k: Seq<char>) -> nat
    decreases a.len(),
{
    if a.len() == 0 {
        0
    } else {
        key_count(a.drop_last(), k) + if deck_key(a.last()) == k {
            1nat
        } else {
            0nat
        }
    }
}

proof fn lemma_first_index_unique(a: Seq<Deck>, j: int)
    requires
        0 <= j < a.len(),
        first_with_key(a, j),
    ensures
        first_index(a, deck_key(a[j])) == j,
{
    let k = deck_key(a[j]);
    let i = first_index(a, k);
    assert(0 <= i < a.len() && first_with_key(a, i) && deck_key(a[i]) == k);
    if i < j {
        assert(deck_key(a[i]) != deck_key(a[j]));
    } else if j < i {
        assert(deck_key(a[j]) != deck_key(a[i]));
    }
}

proof fn lemma_key_count_bound(a: Seq<Deck>, k: Seq<char>)
    ensures
        key_count(a, k) <= a.len(),
    decreases a.len(),
{
    if a.len() > 0 {
        lemma_key_count_bound(a.drop_last(), k);
    }
}

proof fn lemma_key_count_absent(a: Seq<Deck>, k: Seq<char>)
    requires
        forall|j: int| 0 <= j < a.len() ==> deck_key(#[trigger] a[j]) != k,
    ensures
        key_count(a, k) == 0,
    decreases a.len(),
{
    if a.len() > 0 {
        assert forall|j: int| 0 <= j < a.drop_last().len() implies deck_key(
            #[trigger] a.drop_last()[j],
        ) != k by {
            assert(a.drop_last()[j] == a[j]);
        }
        lemma_key_count_absent(a.drop_last(), k);
        assert(deck_key(a[a.len() - 1]) != k);
    }
}

/// The decks gathered so far, one per canonical key in increasing key order,
/// with the label of the first deck of each key and how many decks had it.
pub open spec fn pool_state(
    keys: Seq<String>,
    decks: Seq<Deck>,
    labels: Seq<String>,
    copies: Seq<u64>,
    a: Seq<Deck>,
    l: Seq<Seq<char>>,
) -> bool {
    &&& keys_sorted(keys)
    &&& decks.len() == keys.len()
    &&& labels.len() == keys.len()
    &&& copies.len() == keys.len()
    &&& l.len() == a.len()
    &&& forall|q: int| 0 <= q < keys.len() ==> (#[trigger] keys[q])@ == deck_key(decks[q])
    &&& is_dedupe_of(decks, a)
    &&& forall|q: int|
        0 <= q < labels.len() ==> (#[trigger] labels[q])@ == l[first_index(a, deck_key(decks[q]))]
    &&& forall|q: int| 0 <= q < copies.len() ==> #[trigger] copies[q] == key_count(a, deck_key(decks[q]))
}

/// Adds one accepted deck with its label to the gathered decks.
fn record_accepted(
    keys: &mut Vec<String>,
    decks: &mut Vec<Deck>,
    labels: &mut Vec<String>,
    copies: &mut Vec<u64>,
    d: Deck,
    label: String,
    Ghost(a): Ghost<Seq<Deck>>,
    Ghost(l): Ghost<Seq<Seq<char>>>,
)
    requires
        pool_state(old(keys)@, old(decks)@, old(labels)@, old(copies)@, a, l),
        a.len() < u64::MAX,
    ensures
        pool_state(final(keys)@, final(decks)@, final(labels)@, final(copies)@, a.push(d), l.push(label@)),
        final(keys)@.len() <= old(keys)@.len() + 1,
{
    let k = d.canonical_key();
    assert(k@ == deck_key(d)) by {
        reveal(deck_key);
    }
    let (p, found) = find_slot(keys, k.as_str());
    let ghost na = a.push(d);
    let ghost nl = l.push(label@);
    let ghost od = decks@;
    let ghost ok = keys@;
    let ghost ol = labels@;
    let ghost oc = copies@;
    proof {
        lemma_key_count_bound(a, deck_key(d));
        assert forall|q: int| 0 <= q < od.len() implies first_index(na, deck_key(#[trigger] od[q]))
            == first_index(a, deck_key(od[q])) && key_count(na, deck_key(od[q])) == key_count(
            a,
            deck_key(od[q]),
        ) + if deck_key(od[q]) == deck_key(d) {
            1nat
        } else {
            0nat
        } by {
            assert(has_source(od, a, q));
            let j = choose|j: int|
                0 <= j < a.len() && first_with_key(a, j) && same_deck(od[q], #[trigger] a[j]);
            lemma_same_deck_key(od[q], a[j]);
            lemma_first_index_unique(a, j);
            lemma_first_with_key_push(a, d, j);
            assert(na[j] == a[j]);
            lemma_first_index_unique(na, j);
            assert(na.drop_last() =~= a);
        }
    }
    if found {
        proof {
            assert(ok[p as int].key_of() == deck_key(od[p as int]));
            lemma_dedupe_skip(od, a, d, p as int);
            assert forall|q: int| 0 <= q < od.len() && q != p implies deck_key(#[trigger] od[q])
                != deck_key(d) by {
                assert(ok[q].key_of() == deck_key(od[q]));
                crate::text::lemma_seq_lt_irreflexive(deck_key(d));
                if q < p {
                    assert(seq_lt(ok[q].key_of(), ok[p as int].key_of()));
                } else {
                    assert(seq_lt(ok[p as int].key_of(), ok[q].key_of()));
                }
            }
            assert(copies@[p as int] < u64::MAX) by {
                lemma_key_count_bound(a, deck_key(od[p as int]));
            }
        }
        let c = copies[p];
        copies.set(p, c + 1);
        assert forall|q: int| 0 <= q < labels@.len() implies (#[trigger] labels@[q])@ == nl[first_index(
            na,
            deck_key(decks@[q]),
        )] by {
            let j = first_index(a, deck_key(od[q]));
            assert(has_source(od, a, q));
            let w = choose|w: int|
                0 <= w < a.len() && first_with_key(a, w) && same_deck(od[q], #[trigger] a[w]);
            lemma_same_deck_key(od[q], a[w]);
            lemma_first_index_unique(a, w);
        }
        assert forall|q: int| 0 <= q < copies@.len() implies #[trigger] copies@[q] == key_count(
            na,
            deck_key(decks@[q]),
        ) by {}
    } else {
        proof {
            lemma_sorted_insert(ok, p as int, k);
            assert forall|q: int| 0 <= q < p implies seq_lt(
                deck_key(#[trigger] od[q]),
                deck_key(d),
            ) by {
                assert(ok[q].key_of() == deck_key(od[q]));
            }
            assert forall|q: int| p <= q < od.len() implies seq_lt(
                deck_key(d),
                deck_key(#[trigger] od[q]),
            ) by {
                assert(ok[q].key_of() == deck_key(od[q]));
            }
            lemma_dedupe_insert(od, a, d, p as int);
            assert forall|j: int| 0 <= j < a.len() implies deck_key(#[trigger] a[j]) != deck_key(d) by {
                assert(is_covered(od, a, j));
                let q = choose|q: int| 0 <= q < od.len() && deck_key(#[trigger] od[q]) == deck_key(a[j]);
                crate::text::lemma_seq_lt_irreflexive(deck_key(d));
            }
            lemma_key_count_absent(a, deck_key(d));
            assert(na.drop_last() =~= a);
            assert(first_with_key(na, a.len() as int)) by {
                assert forall|k2: int| 0 <= k2 < a.len() implies deck_key(#[trigger] na[k2]) != deck_key(
                    na[a.len() as int],
                ) by {
                    assert(na[k2] == a[k2]);
                }
            }
            lemma_first_index_unique(na, a.len() as int);
        }
        let ghost dg = d;
        keys.insert(p, k);
        decks.insert(p, d);
        labels.insert(p, label);
        copies.insert(p, 1);
        proof {
            assert forall|q: int| 0 <= q < keys@.len() implies (#[trigger] keys@[q])@ == deck_key(
                decks@[q],
            ) by {
                if q < p {
                    assert(keys@[q] == ok[q] && decks@[q] == od[q]);
                } else if q > p {
                    assert(keys@[q] == ok[q - 1] && decks@[q] == od[q - 1]);
                }
            }
            assert forall|q: int| 0 <= q < labels@.len() implies (#[trigger] labels@[q])@ == nl[first_index(
                na,
                deck_key(decks@[q]),
            )] by {
                if q != p {
                    let q2 = if q < p {
                        q
                    } else {
                        q - 1
                    };
                    assert(labels@[q] == ol[q2] && decks@[q] == od[q2]);
                    assert(has_source(od, a, q2));
                    let w = choose|w: int|
                        0 <= w < a.len() && first_with_key(a, w) && same_deck(od[q2], #[trigger] a[w]);
                    lemma_same_deck_key(od[q2], a[w]);
                    lemma_first_index_unique(a, w);
                } else {
                    assert(decks@[q] == dg);
                    assert(na[a.len() as int] == dg);
                }
            }
            assert forall|q: int| 0 <= q < copies@.len() implies #[trigger] copies@[q] == key_count(
                na,
                deck_key(decks@[q]),
            ) by {
                crate::text::lemma_seq_lt_irreflexive(deck_key(dg));
                if q < p {
                    assert(copies@[q] == oc[q] && decks@[q] == od[q]);
                    assert(seq_lt(deck_key(od[q]), deck_key(dg)));
                } else if q > p {
                    assert(copies@[q] == oc[q - 1] && decks@[q] == od[q - 1]);
                    assert(seq_lt(deck_key(dg), deck_key(od[q - 1])));
                } else {
                    assert(decks@[q] == dg);
                    assert(na.last() == dg);
                    assert(key_count(na, deck_key(dg)) == key_count(a, deck_key(dg)) + 1);
                }
            }
        }
    }
}


/// How an import from standings went.
#[derive(Clone, Debug, PartialEq, Eq)]
pub struct LimitlessImportStats {
    pub standings: usize,
    pub with_decklist: usize,
    pub accepted_entries: usize,
    pub unique_decks: usize,
    pub skipped_invalid: usize,
    pub skipped_unsupported: usize,
}

impl Default for LimitlessImportStats {
    fn default() -> (r: LimitlessImportStats)
        ensures
            r == (LimitlessImportStats {
                standings: 0,
                with_decklist: 0,
                accepted_entries: 0,
                unique_decks: 0,
                skipped_invalid: 0,
                skipped_unsupported: 0,
            }),
    {
        LimitlessImportStats {
            standings: 0,
            with_decklist: 0,
            accepted_entries: 0,
            unique_decks: 0,
            skipped_invalid: 0,
            skipped_unsupported: 0,
        }
    }
}

/// One opponent deck gathered from standings: `limitless:INDEX:LABEL`, the
/// deck, and how many accepted entries played it.
#[derive(Debug)]
pub struct GatheredDeck {
    pub id: String,
    pub deck: Deck,
    pub copies: u64,
}

/// The gathered decks in increasing canonical key order, and the counts.
#[derive(Debug)]
pub struct GatheredStandings {
    pub decks: Vec<GatheredDeck>,
    pub stats: LimitlessImportStats,
}

/// `Unclassified`, the label of an entry without an archetype.
pub open spec fn unclassified() -> Seq<char> {
    seq!['U', 'n', 'c', 'l', 'a', 's', 's', 'i', 'f', 'i', 'e', 'd']
}

/// The archetype name of an entry, or `Unclassified`.
pub open spec fn standing_label(s: LimitlessStanding) -> Seq<char> {
    match s.deck {
        Some(a) => a.name@,
        None => unclassified(),
    }
}

/// `d` is the deck that the entry's decklist gives.
pub open spec fn list_deck(s: LimitlessStanding, reg: Map<Seq<char>, crate::domain::Card>, d: Deck) -> bool {
    s.decklist matches Some(l) ==> {
        &&& keys_sorted(d.entries())
        &&& keys_sorted(d.energies())
        &&& int_counts(d.entries()) == list_counts(list_cards(l))
        &&& d.total() == list_total(list_cards(l))
        &&& d.energy_set() == if l.energy@.len() == 0 {
            energy_or_water(required_energy(reg, d.entries()))
        } else {
            listed_energy_types(l)
        }
    }
}

/// The entry's decklist is within what reading and checking it can count.
pub open spec fn standing_fits(s: LimitlessStanding) -> bool {
    s.decklist matches Some(l) ==> list_fits(l) && list_total(list_cards(l)) <= 255
}

/// No card of a list has more copies than the list has cards.
proof fn lemma_list_counts_le_total(cards: Seq<LimitlessDeckCard>)
    ensures
        list_total(cards) >= 0,
        forall|k: Seq<char>| #[trigger]
            list_counts(cards).contains_key(k) ==> 0 <= list_counts(cards)[k] <= list_total(cards),
    decreases cards.len(),
{
    if cards.len() > 0 {
        let front = cards.drop_last();
        lemma_list_counts_le_total(front);
        let m = list_counts(front);
        let k0 = list_card_id(cards.last());
        assert forall|k: Seq<char>| #[trigger] list_counts(cards).contains_key(k) implies 0
            <= list_counts(cards)[k] <= list_total(cards) by {
            if k != k0 {
                assert(m.contains_key(k));
                assert(list_counts(cards)[k] == m[k]);
            }
        }
    }
}

/// Whether a decklist holds at most 255 cards in all; then every count fits
/// the deck model, as `to_deck` and `gather_standings` need.
pub fn decklist_fits(l: &LimitlessDeckList) -> (r: bool)
    ensures
        r == (list_total(list_cards(*l)) <= 255),
        r ==> list_fits(*l),
{
    let ghost all = list_cards(*l);
    proof {
        lemma_list_total_append(l.pokemon@, l.trainer@);
        lemma_list_total_nonneg(l.pokemon@);
        lemma_list_total_nonneg(l.trainer@);
    }
    let fits = match cards_total_within(&l.pokemon, 0) {
        None => false,
        Some(t) => match cards_total_within(&l.trainer, t) {
            None => false,
            Some(_) => true,
        },
    };
    proof {
        if fits {
            lemma_list_counts_le_total(all);
        }
    }
    fits
}

/// `start` plus the copies of the cards, when that is at most 255.
fn cards_total_within(cards: &Vec<LimitlessDeckCard>, start: u32) -> (r: Option<u32>)
    requires
        start <= 255,
    ensures
        match r {
            Some(t) => t == start + list_total(cards@) && t <= 255,
            None => start + list_total(cards@) > 255,
        },
{
    let mut total: u32 = start;
    let mut i: usize = 0;
    assert(cards@.take(0) =~= Seq::<LimitlessDeckCard>::empty());
    while i < cards.len()
        invariant
            i <= cards.len(),
            total == start + list_total(cards@.take(i as int)),
            total <= 255,
        decreases cards.len() - i,
    {
        assert(cards@.take(i + 1).drop_last() =~= cards@.take(i as int));
        total = total + cards[i].count as u32;
        if total > 255 {
            proof {
                lemma_list_total_prefix(cards@, i + 1);
            }
            return None;
        }
        i = i + 1;
    }
    assert(cards@.take(cards.len() as int) =~= cards@);
    Some(total)
}

/// The copies of two lists of cards, one after the other.
proof fn lemma_list_total_append(a: Seq<LimitlessDeckCard>, b: Seq<LimitlessDeckCard>)
    ensures
        list_total(a + b) == list_total(a) + list_total(b),
    decreases b.len(),
{
    if b.len() == 0 {
        assert(a + b =~= a);
    } else {
        lemma_list_total_append(a, b.drop_last());
        assert((a + b).drop_last() =~= a + b.drop_last());
        assert((a + b).last() == b.last());
    }
}

proof fn lemma_list_total_nonneg(a: Seq<LimitlessDeckCard>)
    ensures
        list_total(a) >= 0,
    decreases a.len(),
{
    if a.len() > 0 {
        lemma_list_total_nonneg(a.drop_last());
    }
}

/// A prefix of a list holds no more cards than the list.
proof fn lemma_list_total_prefix(cards: Seq<LimitlessDeckCard>, i: int)
    requires
        0 <= i <= cards.len(),
    ensures
        list_total(cards.take(i)) <= list_total(cards),
    decreases cards.len() - i,
{
    if i < cards.len() {
        lemma_list_total_prefix(cards, i + 1);
        assert(cards.take(i + 1).drop_last() =~= cards.take(i));
        assert(cards.take(i + 1).last() == cards[i]);
    } else {
        assert(cards.take(i) =~= cards);
    }
}

/// Whether the entry is within what reading and checking it can count: no
/// decklist, or one with at most 255 cards.
pub fn standing_within_limits(s: &LimitlessStanding) -> (r: bool)
    ensures
        r == standing_fits(*s),
{
    match &s.decklist {
        None => true,
        Some(l) => {
            let fits = decklist_fits(l);
            proof {
                if !fits {
                    assert(!(list_total(list_cards(*l)) <= 255));
                }
            }
            fits
        },
    }
}

/// The entry has a decklist and its deck is legal.
pub open spec fn accepted_at(s: LimitlessStanding, d: Deck, reg: Map<Seq<char>, crate::domain::Card>) -> bool {
    s.decklist is Some && deck_issue(d.entries(), reg) is None
}

/// The entry's deck holds a card that the engine cannot simulate.
pub open spec fn unsupported_at(s: LimitlessStanding, d: Deck, reg: Map<Seq<char>, crate::domain::Card>) -> bool {
    s.decklist is Some && deck_issue(d.entries(), reg) matches Some(DeckIssue::UnsupportedCard(_))
}

/// The entry's deck breaks another rule.
pub open spec fn invalid_at(s: LimitlessStanding, d: Deck, reg: Map<Seq<char>, crate::domain::Card>) -> bool {
    s.decklist is Some && deck_issue(d.entries(), reg) is Some && !unsupported_at(s, d, reg)
}

/// The decks of the accepted entries, in order.
pub open spec fn accepted_decks(st: Seq<LimitlessStanding>, ds: Seq<Deck>, reg: Map<Seq<char>, crate::domain::Card>) -> Seq<Deck>
    decreases st.len(),
{
    if st.len() == 0 || ds.len() != st.len() {
        Seq::empty()
    } else {
        let prev = accepted_decks(st.drop_last(), ds.drop_last(), reg);
        if accepted_at(st.last(), ds.last(), reg) {
            prev.push(ds.last())
        } else {
            prev
        }
    }
}

/// The labels of the accepted entries, in order.
pub open spec fn accepted_labels(st: Seq<LimitlessStanding>, ds: Seq<Deck>, reg: Map<Seq<char>, crate::domain::Card>) -> Seq<Seq<char>>
    decreases st.len(),
{
    if st.len() == 0 || ds.len() != st.len() {
        Seq::empty()
    } else {
        let prev = accepted_labels(st.drop_last(), ds.drop_last(), reg);
        if accepted_at(st.last(), ds.last(), reg) {
            prev.push(standing_label(st.last()))
        } else {
            prev
        }
    }
}

/// How many entries have a decklist.
pub open spec fn lists_count(st: Seq<LimitlessStanding>) -> nat
    decreases st.len(),
{
    if st.len() == 0 {
        0
    } else {
        lists_count(st.drop_last()) + if st.last().decklist is Some {
            1nat
        } else {
            0nat
        }
    }
}

/// How many entries satisfy `p`.
pub open spec fn entries_where(
    st: Seq<LimitlessStanding>,
    ds: Seq<Deck>,
    reg: Map<Seq<char>, crate::domain::Card>,
    unsupported: bool,
) -> nat
    decreases st.len(),
{
    if st.len() == 0 || ds.len() != st.len() {
        0
    } else {
        entries_where(st.drop_last(), ds.drop_last(), reg, unsupported) + if (unsupported
            && unsupported_at(st.last(), ds.last(), reg)) || (!unsupported && invalid_at(
            st.last(),
            ds.last(),
            reg,
        )) {
            1nat
        } else {
            0nat
        }
    }
}

/// `limitless:INDEX:LABEL`
pub open spec fn pool_id(index: nat, label: Seq<char>) -> Seq<char> {
    seq!['l', 'i', 'm', 'i', 't', 'l', 'e', 's', 's', ':'] + decimal(index) + seq![':'] + label
}

/// The decks of gathered decks.
pub open spec fn gathered_decks(g: Seq<GatheredDeck>) -> Seq<Deck> {
    g.map_values(|x: GatheredDeck| x.deck)
}

/// The result of gathering: `r` holds one deck per canonical key of the
/// accepted entries, in key order, each the first accepted deck with its key,
/// named after its index and that entry's label, with the number of accepted
/// entries that played it; and the counts of the entries.
pub open spec fn gathered_from(
    r: GatheredStandings,
    st: Seq<LimitlessStanding>,
    ds: Seq<Deck>,
    reg: Map<Seq<char>, crate::domain::Card>,
) -> bool {
    let a = accepted_decks(st, ds, reg);
    let l = accepted_labels(st, ds, reg);
    let out = gathered_decks(r.decks@);
    &&& is_dedupe_of(out, a)
    &&& forall|q: int|
        0 <= q < r.decks@.len() ==> (#[trigger] r.decks@[q]).id@ == pool_id(
            q as nat,
            l[first_index(a, deck_key(out[q]))],
        ) && r.decks@[q].copies == key_count(a, deck_key(out[q]))
    &&& r.stats.standings == st.len()
    &&& r.stats.with_decklist == lists_count(st)
    &&& r.stats.accepted_entries == a.len()
    &&& r.stats.skipped_unsupported == entries_where(st, ds, reg, true)
    &&& r.stats.skipped_invalid == entries_where(st, ds, reg, false)
    &&& r.stats.unique_decks == out.len()
    &&& r.stats.with_decklist == r.stats.accepted_entries + r.stats.skipped_invalid
        + r.stats.skipped_unsupported
    &&& r.stats.unique_decks <= r.stats.accepted_entries
}


/// Gathers the decks of tournament entries into one deck per canonical key.
/// Entries without a decklist are passed over; a deck with a card the engine
/// cannot simulate is skipped as unsupported, one that breaks another rule as
/// invalid; the accepted ones are grouped, keeping the first deck and label of
/// each key and counting the entries.
pub fn gather_standings(standings: &Vec<LimitlessStanding>, registry: &CardRegistry) -> (r:
    GatheredStandings)
    requires
        forall|i: int| 0 <= i < standings@.len() ==> #[trigger] standing_fits(standings@[i]),
    ensures
        exists|ds: Seq<Deck>|
            ds.len() == standings@.len() && (forall|i: int|
                0 <= i < ds.len() ==> list_deck(standings@[i], registry@, #[trigger] ds[i]))
                && gathered_from(r, standings@, ds, registry@),
{
    let ghost st = standings@;
    let ghost reg = registry@;
    let mut keys: Vec<String> = Vec::new();
    let mut decks: Vec<Deck> = Vec::new();
    let mut labels: Vec<String> = Vec::new();
    let mut copies: Vec<u64> = Vec::new();
    let mut with_decklist: usize = 0;
    let mut accepted: usize = 0;
    let mut invalid: usize = 0;
    let mut unsupported: usize = 0;
    let ghost mut ds: Seq<Deck> = Seq::empty();
    let n = standings.len();
    let mut i: usize = 0;
    assert(st.take(0) =~= Seq::<LimitlessStanding>::empty());
    assert(is_dedupe_of(decks@, Seq::<Deck>::empty()));
    while i < n
        invariant
            n == st.len(),
            st == standings@,
            reg == registry@,
            i <= n,
            forall|j: int| 0 <= j < st.len() ==> #[trigger] standing_fits(st[j]),
            ds.len() == i,
            forall|j: int| 0 <= j < i ==> list_deck(st[j], reg, #[trigger] ds[j]),
            pool_state(
                keys@,
                decks@,
                labels@,
                copies@,
                accepted_decks(st.take(i as int), ds, reg),
                accepted_labels(st.take(i as int), ds, reg),
            ),
            with_decklist == lists_count(st.take(i as int)),
            accepted == accepted_decks(st.take(i as int), ds, reg).len(),
            unsupported == entries_where(st.take(i as int), ds, reg, true),
            invalid == entries_where(st.take(i as int), ds, reg, false),
            with_decklist == accepted + invalid + unsupported,
            keys@.len() <= accepted,
            with_decklist <= i,
        decreases n - i,
    {
        let ghost prev_st = st.take(i as int);
        let ghost next_st = st.take(i + 1);
        assert(next_st.drop_last() =~= prev_st);
        assert(next_st.last() == st[i as int]);
        let ghost a = accepted_decks(prev_st, ds, reg);
        let ghost l = accepted_labels(prev_st, ds, reg);
        match &standings[i].decklist {
            None => {
                let ghost dz: Deck = arbitrary();
                proof {
                    let nds = ds.push(dz);
                    assert(nds.drop_last() =~= ds);
                    ds = nds;
                }
            },
            Some(list) => {
                assert(standing_fits(st[i as int]));
                let d = list.to_deck(registry);
                let ghost dg = d;
                proof {
                    use_type_invariant(&d);
                    d.lemma_inv();
                    let nds = ds.push(dg);
                    assert(nds.drop_last() =~= ds);
                    ds = nds;
                }
                with_decklist = with_decklist + 1;
                match d.validate(registry) {
                    Ok(()) => {
                        let label = match &standings[i].deck {
                            Some(arch) => arch.name.clone(),
                            None => {
                                let u = string_from_chars(
                                    &vec!['U', 'n', 'c', 'l', 'a', 's', 's', 'i', 'f', 'i', 'e', 'd'],
                                );
                                assert(u@ =~= unclassified());
                                u
                            },
                        };
                        assert(label@ == standing_label(st[i as int]));
                        record_accepted(
                            &mut keys,
                            &mut decks,
                            &mut labels,
                            &mut copies,
                            d,
                            label,
                            Ghost(a),
                            Ghost(l),
                        );
                        accepted = accepted + 1;
                    },
                    Err(DeckValidationError::UnsupportedCard(_)) => {
                        unsupported = unsupported + 1;
                    },
                    Err(_) => {
                        invalid = invalid + 1;
                    },
                }
            },
        }
        assert(forall|j: int| 0 <= j < i + 1 ==> list_deck(st[j], reg, #[trigger] ds[j]));
        i = i + 1;
    }
    assert(st.take(n as int) =~= st);
    let ghost a = accepted_decks(st, ds, reg);
    let ghost l = accepted_labels(st, ds, reg);
    let ghost od = decks@;
    let mut out: Vec<GatheredDeck> = Vec::new();
    let mut q: usize = 0;
    let m = decks.len();
    assert(od.skip(0) =~= od);
    while q < m
        invariant
            m == od.len(),
            q <= m,
            decks@ == od.skip(q as int),
            labels@.len() == m,
            copies@.len() == m,
            pool_state(keys@, od, labels@, copies@, a, l),
            out@.len() == q,
            forall|x: int| 0 <= x < q ==> (#[trigger] out@[x]).deck == od[x],
            forall|x: int|
                0 <= x < q ==> (#[trigger] out@[x]).id@ == pool_id(
                    x as nat,
                    l[first_index(a, deck_key(od[x]))],
                ) && out@[x].copies == key_count(a, deck_key(od[x])),
        decreases m - q,
    {
        let d = decks.remove(0);
        assert(d == od[q as int]);
        assert(decks@ =~= od.skip(q + 1));
        let mut id = vec!['l', 'i', 'm', 'i', 't', 'l', 'e', 's', 's', ':'];
        push_decimal(&mut id, q as u64);
        id.push(':');
        let lab = crate::text::chars_of(labels[q].as_str());
        extend_chars(&mut id, &lab);
        assert(id@ =~= pool_id(q as nat, labels@[q as int]@));
        out.push(GatheredDeck { id: string_from_chars(&id), deck: d, copies: copies[q] });
        q = q + 1;
    }
    assert(gathered_decks(out@) =~= od);
    let stats = LimitlessImportStats {
        standings: n,
        with_decklist,
        accepted_entries: accepted,
        unique_decks: m,
        skipped_invalid: invalid,
        skipped_unsupported: unsupported,
    };
    let r = GatheredStandings { decks: out, stats };
    assert(gathered_from(r, st, ds, reg));
    r
}


/// The deck text line of a decklist card: `COUNT NAME SET NUMBER`.
pub open spec fn list_line(c: LimitlessDeckCard) -> Seq<char> {
    decimal(c.count as nat) + seq![' '] + c.name@ + seq![' '] + c.set@ + seq![' '] + c.number@
}

/// `Energy: ` and the listed types joined by `, `.
pub open spec fn list_energy_line(l: LimitlessDeckList) -> Seq<char> {
    seq!['E', 'n', 'e', 'r', 'g', 'y', ':', ' '] + join(texts(l.energy@), seq![',', ' '])
}

/// The lines of a decklist's deck text: the energy line when types are
/// listed, then one line per card, Pokémon first.
pub open spec fn list_lines(l: LimitlessDeckList) -> Seq<Seq<char>> {
    (if l.energy@.len() > 0 {
        seq![list_energy_line(l)]
    } else {
        Seq::<Seq<char>>::empty()
    }) + list_cards(l).map_values(|c: LimitlessDeckCard| list_line(c))
}

/// The deck text of a decklist: its lines joined by newlines.
pub open spec fn list_text(l: LimitlessDeckList) -> Seq<char> {
    join(list_lines(l), seq!['\n'])
}

/// A card whose line reads back as it is: set code and number non-empty
/// without whitespace, and a name without a line break.
pub open spec fn card_readable(c: LimitlessDeckCard) -> bool {
    &&& c.set@.len() > 0
    &&& no_ws(c.set@)
    &&& c.number@.len() > 0
    &&& no_ws(c.number@)
    &&& !c.name@.contains('\n')
}

/// An energy type that reads back as it is from an energy line: non-empty,
/// trimmed, without `,` or a line break.
pub open spec fn energy_readable(e: Seq<char>) -> bool {
    &&& e.len() > 0
    &&& !is_ws(e[0])
    &&& !is_ws(e.last())
    &&& !e.contains(',')
    &&& !e.contains('\n')
}

proof fn lemma_first_char_not_header(line: Seq<char>)
    requires
        line.len() > 0,
        line[0] != 'P',
        line[0] != 'T',
    ensures
        !is_skipped_line(line),
{
    assert(lit_pokemon_accented()[0] == 'P');
    assert(lit_pokemon()[0] == 'P');
    assert(lit_trainer()[0] == 'T');
    if has_prefix(line, lit_pokemon_accented()) {
        assert(line.take(8)[0] == line[0]);
    }
    if has_prefix(line, lit_pokemon()) {
        assert(line.take(8)[0] == line[0]);
    }
    if has_prefix(line, lit_trainer()) {
        assert(line.take(8)[0] == line[0]);
    }
}

/// The line of a readable card holds no newline and reads back as that many
/// copies of the card's identifier.
proof fn lemma_list_line_reads(c: LimitlessDeckCard, st: TextState)
    requires
        card_readable(c),
    ensures
        !list_line(c).contains('\n'),
        apply_line(trim(list_line(c)), st) == Ok::<TextState, TextIssue>(
            (
                st.0.insert(
                    list_card_id(c),
                    (if st.0.contains_key(list_card_id(c)) {
                        st.0[list_card_id(c)]
                    } else {
                        0
                    }) + c.count,
                ),
                st.1,
            ),
        ),
{
    let dec = decimal(c.count as nat);
    lemma_decimal(c.count as nat);
    let sp = seq![' '];
    let name = c.name@;
    let set = c.set@;
    let num = c.number@;
    let line = list_line(c);
    assert(line == dec + sp + name + sp + set + sp + num);
    assert(line[0] == dec[0]);
    assert(is_digit(dec[0]));
    assert(line.last() == num.last());
    assert(!is_ws(num[num.len() - 1]));
    lemma_trim_plain(line);
    let x1 = dec + sp;
    let x2 = name + sp;
    let x3 = set + sp;
    assert(line =~= x1 + (x2 + (x3 + num)));
    assert(x1.last() == ' ');
    assert(x2.last() == ' ');
    assert(x3.last() == ' ');
    lemma_words_concat(x1, x2 + (x3 + num));
    lemma_words_concat(x2, x3 + num);
    lemma_words_concat(x3, num);
    assert(x1 =~= dec.push(' '));
    assert(x2 =~= name.push(' '));
    assert(x3 =~= set.push(' '));
    lemma_words_space(dec);
    lemma_words_space(name);
    lemma_words_space(set);
    lemma_words_single(dec);
    lemma_words_single(set);
    lemma_words_single(num);
    let w = words(line);
    assert(w =~= seq![dec] + words(name) + seq![set] + seq![num]);
    assert(w.len() >= 3);
    assert(w[0] == dec);
    assert(w[w.len() - 2] == set);
    assert(w[w.len() - 1] == num);
    lemma_first_char_not_header(line);
    assert(!has_prefix(line, lit_energy())) by {
        assert(lit_energy()[0] == 'E');
        if has_prefix(line, lit_energy()) {
            assert(line.take(7)[0] == line[0]);
        }
    }
    assert(parse_u8_spec(dec) == Some(c.count));
    assert(card_line_id(w) == list_card_id(c));
    lemma_no_ws_lacks(dec, '\n');
    lemma_no_ws_lacks(set, '\n');
    lemma_no_ws_lacks(num, '\n');
    assert(!sp.contains('\n')) by {
        if sp.contains('\n') {
            let i = choose|i: int| 0 <= i < sp.len() && sp[i] == '\n';
            assert(sp[0] == ' ');
        }
    }
    lemma_concat_lacks(dec, sp, '\n');
    lemma_concat_lacks(dec + sp, name, '\n');
    lemma_concat_lacks(dec + sp + name, sp, '\n');
    lemma_concat_lacks(dec + sp + name + sp, set, '\n');
    lemma_concat_lacks(dec + sp + name + sp + set, sp, '\n');
    lemma_concat_lacks(dec + sp + name + sp + set + sp, num, '\n');
}

/// The energy line of readable types holds no newline and reads back as the
/// listed types.
proof fn lemma_list_energy_reads(l: LimitlessDeckList, st: TextState)
    requires
        l.energy@.len() > 0,
        forall|i: int| 0 <= i < l.energy@.len() ==> energy_readable(#[trigger] l.energy@[i]@),
    ensures
        !list_energy_line(l).contains('\n'),
        apply_line(trim(list_energy_line(l)), st) == Ok::<TextState, TextIssue>(
            (st.0, Some(listed_energy_types(l))),
        ),
{
    let es = texts(l.energy@);
    assert forall|i: int| 0 <= i < es.len() implies energy_readable(#[trigger] es[i]) by {
        assert(es[i] == l.energy@[i]@);
    }
    let sep = seq![',', ' '];
    let j = join(es, sep);
    let head = seq!['E', 'n', 'e', 'r', 'g', 'y', ':', ' '];
    let line = list_energy_line(l);
    assert(line == head + j);
    assert(es.last() == es[es.len() - 1]);
    lemma_join_last(es, sep);
    assert(line.last() == j.last());
    assert(es.last().last() == es.last()[es.last().len() - 1]);
    assert(line[0] == 'E');
    lemma_trim_plain(line);
    lemma_first_char_not_header(line);
    assert(line.take(7) =~= lit_energy());
    assert(line.skip(7) =~= seq![' '] + j);
    lemma_join_spaced(es);
    let spaced = es.map_values(|e: Seq<char>| seq![' '] + e);
    assert forall|i: int| 0 <= i < spaced.len() implies !(#[trigger] spaced[i]).contains(',') by {
        assert(spaced[i] == seq![' '] + es[i]);
        assert(!seq![' '].contains(',')) by {
            if seq![' '].contains(',') {
                let q = choose|q: int| 0 <= q < 1 && seq![' '][q] == ',';
            }
        }
        lemma_concat_lacks(seq![' '], es[i], ',');
    }
    lemma_split_join(spaced, ',');
    assert forall|q: int| 0 <= q < spaced.len() implies trim(#[trigger] spaced[q]) == es[q] by {
        assert(spaced[q] == seq![' '] + es[q]);
        lemma_trim_space(es[q]);
    }
    assert(energies_listed(spaced) =~= listed_energy_types(l)) by {
        assert forall|x: Seq<char>| #[trigger] energies_listed(spaced).contains(x)
            == listed_energy_types(l).contains(x) by {
            if energies_listed(spaced).contains(x) {
                let q = choose|q: int|
                    0 <= q < spaced.len() && trim(#[trigger] spaced[q]).len() > 0
                        && normalized_energy(trim(spaced[q])) == x;
                assert(es[q] == l.energy@[q]@);
                assert(normalized_energy(l.energy@[q]@) == x);
            }
            if listed_energy_types(l).contains(x) {
                let i = choose|i: int|
                    0 <= i < l.energy@.len() && normalized_energy(#[trigger] l.energy@[i]@) == x;
                assert(es[i] == l.energy@[i]@);
                assert(trim(spaced[i]) == es[i]);
            }
        }
    }
    assert(listed_energy_types(l).contains(normalized_energy(l.energy@[0]@)));
    assert(listed_energy_types(l) != Set::<Seq<char>>::empty()) by {
        assert(!Set::<Seq<char>>::empty().contains(normalized_energy(l.energy@[0]@)));
    }
    assert(!sep.contains('\n')) by {
        if sep.contains('\n') {
            let q = choose|q: int| 0 <= q < sep.len() && sep[q] == '\n';
            assert(q == 0 || q == 1);
        }
    }
    lemma_join_lacks(es, sep, '\n');
    assert(!head.contains('\n')) by {
        if head.contains('\n') {
            let q = choose|q: int| 0 <= q < head.len() && head[q] == '\n';
            assert(0 <= q < 8);
        }
    }
    lemma_concat_lacks(head, j, '\n');
}

/// Reading the head lines and then the lines of the first `i` cards gives the
/// copies per card of those cards.
proof fn lemma_read_list_prefix(
    cards: Seq<LimitlessDeckCard>,
    heads: Seq<Seq<char>>,
    e0: Option<Set<Seq<char>>>,
    i: int,
)
    requires
        forall|j: int| 0 <= j < cards.len() ==> card_readable(#[trigger] cards[j]),
        parse_lines(heads) == Ok::<TextState, TextIssue>((Map::<Seq<char>, int>::empty(), e0)),
        0 <= i <= cards.len(),
    ensures
        parse_lines(heads + cards.map_values(|c: LimitlessDeckCard| list_line(c)).take(i))
            == Ok::<TextState, TextIssue>((list_counts(cards.take(i)), e0)),
    decreases i,
{
    let ls = cards.map_values(|c: LimitlessDeckCard| list_line(c));
    if i == 0 {
        assert(heads + ls.take(0) =~= heads);
        assert(list_counts(cards.take(0)) == Map::<Seq<char>, int>::empty()) by {
            assert(cards.take(0).len() == 0);
        }
    } else {
        lemma_read_list_prefix(cards, heads, e0, i - 1);
        let all = heads + ls.take(i);
        assert(all.drop_last() =~= heads + ls.take(i - 1));
        assert(all.last() == list_line(cards[i - 1]));
        assert(cards.take(i).drop_last() =~= cards.take(i - 1));
        assert(cards.take(i).last() == cards[i - 1]);
        lemma_list_line_reads(cards[i - 1], (list_counts(cards.take(i - 1)), e0));
    }
}

/// Parsing the deck text of a decklist gives what `to_deck` builds from it:
/// the same copies of each card, and the listed energy types, or, when none
/// are listed, none, so that both take the types the cards require; and
/// parsing it never overflows a count. It holds for a decklist that fits the
/// deck model whose cards and types read back as they are (`card_readable`,
/// `energy_readable`).
pub proof fn law_list_text_reads_as_to_deck(l: LimitlessDeckList)
    requires
        list_fits(l),
        forall|i: int| 0 <= i < list_cards(l).len() ==> card_readable(#[trigger] list_cards(l)[i]),
        forall|i: int| 0 <= i < l.energy@.len() ==> energy_readable(#[trigger] l.energy@[i]@),
    ensures
        counts_fit(list_text(l)),
        parse_lines(split_on(list_text(l), '\n')) == Ok::<TextState, TextIssue>(
            (
                list_counts(list_cards(l)),
                if l.energy@.len() > 0 {
                    Some(listed_energy_types(l))
                } else {
                    None
                },
            ),
        ),
{
    let cards = list_cards(l);
    let ls = cards.map_values(|c: LimitlessDeckCard| list_line(c));
    let empty_state: TextState = (Map::<Seq<char>, int>::empty(), None::<Set<Seq<char>>>);
    let e0 = if l.energy@.len() > 0 {
        Some(listed_energy_types(l))
    } else {
        None
    };
    let heads = if l.energy@.len() > 0 {
        seq![list_energy_line(l)]
    } else {
        Seq::<Seq<char>>::empty()
    };
    if l.energy@.len() > 0 {
        lemma_list_energy_reads(l, empty_state);
        assert(heads.drop_last() =~= Seq::<Seq<char>>::empty());
        assert(heads.last() == list_energy_line(l));
        assert(parse_lines(heads.drop_last()) == Ok::<TextState, TextIssue>(empty_state));
        assert(parse_lines(heads) == apply_line(trim(list_energy_line(l)), empty_state));
    } else {
        assert(heads.len() == 0);
    }
    assert(parse_lines(heads) == Ok::<TextState, TextIssue>((Map::<Seq<char>, int>::empty(), e0)));
    let lines = list_lines(l);
    assert(lines == heads + ls);
    lemma_read_list_prefix(cards, heads, e0, cards.len() as int);
    assert(ls.take(cards.len() as int) =~= ls);
    assert(cards.take(cards.len() as int) =~= cards);
    if lines.len() > 0 {
        assert forall|i: int| 0 <= i < lines.len() implies !(#[trigger] lines[i]).contains('\n') by {
            if i < heads.len() {
                assert(lines[i] == list_energy_line(l));
            } else {
                assert(lines[i] == list_line(cards[i - heads.len()]));
                lemma_list_line_reads(cards[i - heads.len()], empty_state);
            }
        }
        lemma_split_join(lines, '\n');
    } else {
        assert(list_text(l) == Seq::<char>::empty());
        assert(split_on(Seq::<char>::empty(), '\n') =~= seq![Seq::<char>::empty()]);
        assert(seq![Seq::<char>::empty()].drop_last() =~= Seq::<Seq<char>>::empty());
        assert(trim(Seq::<char>::empty()) =~= Seq::<char>::empty());
        assert(cards.len() == 0);
        assert(list_counts(cards) == Map::<Seq<char>, int>::empty());
    }
    assert(counts_fit(list_text(l))) by {
        if lines.len() > 0 {
            assert forall|i: int| 0 <= i <= lines.len() implies #[trigger] counts_in_range(
                parse_lines(lines.take(i)),
            ) by {
                if i <= heads.len() {
                    if i == 0 {
                        assert(lines.take(0) =~= Seq::<Seq<char>>::empty());
                    } else {
                        assert(lines.take(i) =~= heads);
                    }
                } else {
                    let k = i - heads.len();
                    assert(lines.take(i) =~= heads + ls.take(k));
                    lemma_read_list_prefix(cards, heads, e0, k);
                    lemma_list_counts_grow(cards, k);
                }
            }
        } else {
            assert forall|i: int| 0 <= i <= 1 implies #[trigger] counts_in_range(
                parse_lines(seq![Seq::<char>::empty()].take(i)),
            ) by {
                if i == 0 {
                    assert(seq![Seq::<char>::empty()].take(0) =~= Seq::<Seq<char>>::empty());
                } else {
                    assert(seq![Seq::<char>::empty()].take(1) =~= seq![Seq::<char>::empty()]);
                    assert(seq![Seq::<char>::empty()].drop_last() =~= Seq::<Seq<char>>::empty());
                    assert(trim(Seq::<char>::empty()) =~= Seq::<char>::empty());
                }
            }
        }
    }
}

} // verus!
