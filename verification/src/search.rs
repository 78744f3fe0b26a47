//! The elitist one-slot mutation search, apart from the scoring of decks.

use vstd::prelude::*;

use crate::domain::{
    count_map, count_or_zero, deck_issue, energy_or_water, entries_total, inferred_energy, lemma_entry_le_total,
    lemma_total_insert, lemma_total_remove, lemma_total_update, required_energy, CardId,
    CardRegistry, Deck,
};
use crate::keyed::{
    find_slot, has_key, key_index, key_map, keys_sorted, lemma_sorted_index,
    lemma_sorted_insert, lemma_sorted_remove, lemma_sorted_update, Keyed,
};
use crate::text::{
    lemma_seq_lt_irreflexive, lemma_seq_lt_total, lemma_seq_lt_transitive, seq_lt,
};

verus! {

/// One step of the xorshift64 generator.
pub open spec fn xorshift_step(x: u64) -> u64 {
    let a = x ^ (x << 13u64);
    let b = a ^ (a >> 7u64);
    b ^ (b << 17u64)
}

/// A small deterministic pseudo-random generator (xorshift64).
pub struct XorShift64 {
    state: u64,
}

impl View for XorShift64 {
    type V = u64;

    closed spec fn view(&self) -> u64 {
        self.state
    }
}

impl XorShift64 {
    /// A generator started from `seed`; a zero seed is taken as one, since
    /// xorshift stays at zero forever.
    pub fn new(seed: u64) -> (r: XorShift64)
        ensures
            r@ == if seed == 0 {
                1
            } else {
                seed
            },
    {
        XorShift64 { state: if seed == 0 { 1 } else { seed } }
    }

    /// The next value, which is also the new state.
    pub fn next(&mut self) -> (r: u64)
        ensures
            r == xorshift_step(old(self)@),
            final(self)@ == r,
    {
        let mut x = self.state;
        x = x ^ (x << 13u64);
        x = x ^ (x >> 7u64);
        x = x ^ (x << 17u64);
        self.state = x;
        x
    }

    /// A position below `len` drawn from the next value.
    pub fn index(&mut self, len: usize) -> (r: usize)
        requires
            len > 0,
        ensures
            final(self)@ == xorshift_step(old(self)@),
            r == (xorshift_step(old(self)@) as usize) % len,
            r < len,
    {
        (self.next() as usize) % len
    }
}

/// The entries with one copy fewer of card `k`; the card leaves when its last copy does.
pub open spec fn dec_entries(s: Seq<(CardId, u8)>, k: Seq<char>) -> Seq<(CardId, u8)> {
    if has_key(s, k) {
        let i = key_index(s, k);
        if s[i].1 == 1 {
            s.remove(i)
        } else {
            s.update(i, (s[i].0, (s[i].1 - 1) as u8))
        }
    } else {
        s
    }
}

/// `p` is the place for key `k`: every key before it is smaller, every key from it on larger.
pub open spec fn is_insert_pos(s: Seq<(CardId, u8)>, k: Seq<char>, p: int) -> bool {
    &&& 0 <= p <= s.len()
    &&& forall|i: int| 0 <= i < p ==> seq_lt(#[trigger] s[i].key_of(), k)
    &&& forall|i: int| p <= i < s.len() ==> seq_lt(k, #[trigger] s[i].key_of())
}

/// Where a new key goes in a key-sorted sequence.
pub open spec fn insert_pos(s: Seq<(CardId, u8)>, k: Seq<char>) -> int {
    choose|p: int| #[trigger] is_insert_pos(s, k, p)
}

/// The entries with one copy more of card `id`.
pub open spec fn inc_entries(s: Seq<(CardId, u8)>, id: CardId) -> Seq<(CardId, u8)> {
    if has_key(s, id.0@) {
        let i = key_index(s, id.0@);
        s.update(i, (s[i].0, (s[i].1 + 1) as u8))
    } else {
        s.insert(insert_pos(s, id.0@), (id, 1u8))
    }
}

/// Every entry holds at least one copy.
pub open spec fn positive_counts(s: Seq<(CardId, u8)>) -> bool {
    forall|i: int| 0 <= i < s.len() ==> #[trigger] s[i].1 > 0
}

proof fn lemma_insert_pos_unique(s: Seq<(CardId, u8)>, k: Seq<char>, p: int)
    requires
        0 <= p <= s.len(),
        forall|i: int| 0 <= i < p ==> seq_lt(#[trigger] s[i].key_of(), k),
        forall|i: int| p <= i < s.len() ==> seq_lt(k, #[trigger] s[i].key_of()),
    ensures
        insert_pos(s, k) == p,
{
    assert(is_insert_pos(s, k, p));
    let q = insert_pos(s, k);
    assert(is_insert_pos(s, k, q));
    if q < p {
        assert(seq_lt(s[q].key_of(), k));
        assert(seq_lt(k, s[q].key_of()));
        crate::text::lemma_seq_lt_asymmetric(k, s[q].key_of());
    } else if p < q {
        assert(seq_lt(s[p].key_of(), k));
        assert(seq_lt(k, s[p].key_of()));
        crate::text::lemma_seq_lt_asymmetric(k, s[p].key_of());
    }
}

/// Takes one copy of card `k` out of key-sorted entries.
fn decrement(cards: &mut Vec<(CardId, u8)>, k: &CardId)
    requires
        keys_sorted(old(cards)@),
        has_key(old(cards)@, k.0@) ==> old(cards)@[key_index(old(cards)@, k.0@)].1 > 0,
    ensures
        keys_sorted(final(cards)@),
        positive_counts(old(cards)@) ==> positive_counts(final(cards)@),
        final(cards)@ == dec_entries(old(cards)@, k.0@),
        entries_total(final(cards)@) == entries_total(old(cards)@) - if has_key(
            old(cards)@,
            k.0@,
        ) {
            1int
        } else {
            0int
        },
{
    let (p, found) = find_slot(cards, k.0.as_str());
    if found {
        proof {
            lemma_sorted_index(cards@, p as int);
        }
        let c = cards[p].1;
        if c == 1 {
            let ghost s = cards@;
            cards.remove(p);
            proof {
                assert forall|i: int, j: int| 0 <= i < j < cards@.len() implies seq_lt(
                    #[trigger] cards@[i].key_of(),
                    #[trigger] cards@[j].key_of(),
                ) by {
                    let i2 = if i < p {
                        i
                    } else {
                        i + 1
                    };
                    let j2 = if j < p {
                        j
                    } else {
                        j + 1
                    };
                    assert(seq_lt(s[i2].key_of(), s[j2].key_of()));
                }
                lemma_total_remove(s, p as int);
            }
        } else {
            let id = cards[p].0.copy();
            let ghost s = cards@;
            proof {
                lemma_sorted_update(cards@, p as int, (id, (c - 1) as u8));
                lemma_total_update(cards@, p as int, (id, (c - 1) as u8));
            }
            cards.set(p, (id, c - 1));
        }
    }
}

/// Adds one copy of card `id` to key-sorted entries.
fn increment(cards: &mut Vec<(CardId, u8)>, id: CardId)
    requires
        keys_sorted(old(cards)@),
        positive_counts(old(cards)@),
        entries_total(old(cards)@) < 255,
    ensures
        keys_sorted(final(cards)@),
        positive_counts(final(cards)@),
        final(cards)@ == inc_entries(old(cards)@, id),
        entries_total(final(cards)@) == entries_total(old(cards)@) + 1,
{
    let (p, found) = find_slot(cards, id.0.as_str());
    if found {
        proof {
            lemma_sorted_index(cards@, p as int);
            lemma_entry_le_total(cards@, p as int);
        }
        let c = cards[p].1;
        let kept = cards[p].0.copy();
        proof {
            lemma_sorted_update(cards@, p as int, (kept, (c + 1) as u8));
            lemma_total_update(cards@, p as int, (kept, (c + 1) as u8));
        }
        cards.set(p, (kept, c + 1));
    } else {
        proof {
            lemma_insert_pos_unique(cards@, id.0@, p as int);
            lemma_sorted_insert(cards@, p as int, (id, 1u8));
            lemma_total_insert(cards@, p as int, (id, 1u8));
        }
        cards.insert(p, (id, 1));
    }
}

/// Up to `tries` attempts, each drawing a card of the deck to take out and a
/// card to put in from the generator, until the swap gives a legal deck.
pub open spec fn mutation_search(
    s: Seq<(CardId, u8)>,
    ids: Seq<CardId>,
    reg: Map<Seq<char>, crate::domain::Card>,
    state: u64,
    tries: nat,
) -> (Option<Seq<(CardId, u8)>>, u64)
    decreases tries,
{
    if tries == 0 {
        (None, state)
    } else {
        let s1 = xorshift_step(state);
        let s2 = xorshift_step(s1);
        let remove = s[((s1 as usize) as int) % (s.len() as int)].0;
        let add = ids[((s2 as usize) as int) % (ids.len() as int)];
        if remove.0@ == add.0@ {
            mutation_search(s, ids, reg, s2, (tries - 1) as nat)
        } else {
            let child = inc_entries(dec_entries(s, remove.0@), add);
            if deck_issue(child, reg) is None {
                (Some(child), s2)
            } else {
                mutation_search(s, ids, reg, s2, (tries - 1) as nat)
            }
        }
    }
}

/// How many swaps one mutation tries before giving up.
pub const MUTATION_TRIES: u32 = 64;

/// A one-slot mutation: nothing for an empty deck or no candidate cards,
/// otherwise the first legal swap among `MUTATION_TRIES` attempts.
pub open spec fn mutation(
    s: Seq<(CardId, u8)>,
    ids: Seq<CardId>,
    reg: Map<Seq<char>, crate::domain::Card>,
    state: u64,
) -> (Option<Seq<(CardId, u8)>>, u64) {
    if s.len() == 0 || ids.len() == 0 {
        (None, state)
    } else {
        mutation_search(s, ids, reg, state, MUTATION_TRIES as nat)
    }
}

/// Replaces one copy of one card of the deck by one copy of a candidate card,
/// both drawn from `rng`, retrying until the result is a legal deck; its Energy
/// Zone is what its cards require (or `Water`).
pub fn mutate_one_slot(
    deck: &Deck,
    card_ids: &Vec<CardId>,
    registry: &CardRegistry,
    rng: &mut XorShift64,
) -> (r: Option<Deck>)
    requires
        positive_counts(deck.entries()),
        deck.total() <= 255,
    ensures
        ({
            let (res, st) = mutation(deck.entries(), card_ids@, registry@, old(rng)@);
            &&& final(rng)@ == st
            &&& match r {
                None => res is None,
                Some(child) => {
                    &&& res == Some(child.entries())
                    &&& deck_issue(child.entries(), registry@) is None
                    &&& child.energy_set() == energy_or_water(
                        required_energy(registry@, child.entries()),
                    )
                    &&& positive_counts(child.entries())
                },
            }
        }),
{
    let existing = deck.card_entries();
    if existing.len() == 0 || card_ids.len() == 0 {
        return None;
    }
    let ghost s = deck.entries();
    let ghost start = rng@;
    let mut t: u32 = 0;
    while t < MUTATION_TRIES
        invariant
            existing@ == s,
            start == old(rng)@,
            s == deck.entries(),
            keys_sorted(s),
            positive_counts(s),
            entries_total(s) <= 255,
            s.len() > 0,
            card_ids@.len() > 0,
            t <= MUTATION_TRIES,
            mutation(s, card_ids@, registry@, start) == mutation_search(
                s,
                card_ids@,
                registry@,
                rng@,
                (MUTATION_TRIES - t) as nat,
            ),
        decreases MUTATION_TRIES - t,
    {
        let ghost st0 = rng@;
        let ri = rng.index(existing.len());
        let ai = rng.index(card_ids.len());
        assert(rng@ == xorshift_step(xorshift_step(st0)));
        let remove = &existing[ri].0;
        let add = &card_ids[ai];
        if remove.0 == add.0 {
            t = t + 1;
            continue;
        }
        let mut cards = deck.copy_entries();
        decrement(&mut cards, remove);
        assert(has_key(s, remove.0@)) by {
            assert(s[ri as int].key_of() == remove.0@);
        }
        increment(&mut cards, add.copy());
        let energy = inferred_energy(registry, &cards);
        let child = Deck::from_sorted(cards, energy);
        match child.validate(registry) {
            Ok(()) => {
                assert(child.entries() == inc_entries(dec_entries(s, remove.0@), *add));
                assert(deck_issue(child.entries(), registry@) is None);
                assert(mutation_search(s, card_ids@, registry@, st0, (MUTATION_TRIES - t) as nat)
                    == (Some(child.entries()), rng@));
                return Some(child);
            },
            Err(_) => {},
        }
        t = t + 1;
    }
    None
}


/// The canonical key of a deck.
#[verifier::opaque]
pub open spec fn deck_key(d: Deck) -> Seq<char> {
    crate::domain::canonical_text(d.entries(), d.energies())
}

/// Two decks that hold the same.
pub open spec fn same_deck(a: Deck, b: Deck) -> bool {
    a.entries() == b.entries() && a.energies() == b.energies()
}

/// No deck before position `j` has the key of the deck at `j`.
pub open spec fn first_with_key(s: Seq<Deck>, j: int) -> bool {
    forall|k: int| 0 <= k < j ==> deck_key(#[trigger] s[k]) != deck_key(s[j])
}

/// The deck at `out[i]` is the first deck of `input` with its key.
pub open spec fn has_source(out: Seq<Deck>, input: Seq<Deck>, i: int) -> bool {
    exists|j: int|
        0 <= j < input.len() && first_with_key(input, j) && same_deck(out[i], #[trigger] input[j])
}

/// Some deck of `out` has the key of `input[j]`.
pub open spec fn is_covered(out: Seq<Deck>, input: Seq<Deck>, j: int) -> bool {
    exists|i: int| 0 <= i < out.len() && deck_key(#[trigger] out[i]) == deck_key(input[j])
}

/// `out` holds one deck per canonical key of `input`, in increasing key
/// order, each being the first deck of `input` with its key.
pub open spec fn is_dedupe_of(out: Seq<Deck>, input: Seq<Deck>) -> bool {
    &&& forall|i: int, j: int|
        0 <= i < j < out.len() ==> seq_lt(deck_key(#[trigger] out[i]), deck_key(#[trigger] out[j]))
    &&& forall|i: int| 0 <= i < out.len() ==> #[trigger] has_source(out, input, i)
    &&& forall|j: int| 0 <= j < input.len() ==> #[trigger] is_covered(out, input, j)
}

pub proof fn lemma_same_deck_key(a: Deck, b: Deck)
    requires
        same_deck(a, b),
    ensures
        deck_key(a) == deck_key(b),
{
    reveal(deck_key);
}

pub proof fn lemma_first_with_key_push(prev: Seq<Deck>, d: Deck, j: int)
    requires
        0 <= j < prev.len(),
    ensures
        first_with_key(prev.push(d), j) == first_with_key(prev, j),
{
    assert forall|k2: int| 0 <= k2 < j implies prev.push(d)[k2] == prev[k2] by {}
    assert(prev.push(d)[j] == prev[j]);
}

proof fn lemma_source_push(out: Seq<Deck>, o: Seq<Deck>, prev: Seq<Deck>, d: Deck, a: int, a2: int)
    requires
        0 <= a2 < out.len(),
        0 <= a < o.len(),
        o[a] == out[a2],
        has_source(out, prev, a2),
    ensures
        has_source(o, prev.push(d), a),
{
    let j = choose|j: int|
        0 <= j < prev.len() && first_with_key(prev, j) && same_deck(out[a2], #[trigger] prev[j]);
    lemma_first_with_key_push(prev, d, j);
    assert(prev.push(d)[j] == prev[j]);
}

pub proof fn lemma_dedupe_skip(out: Seq<Deck>, prev: Seq<Deck>, d: Deck, p: int)
    requires
        is_dedupe_of(out, prev),
        0 <= p < out.len(),
        deck_key(out[p]) == deck_key(d),
    ensures
        is_dedupe_of(out, prev.push(d)),
{
    let next = prev.push(d);
    assert forall|a: int| 0 <= a < out.len() implies #[trigger] has_source(out, next, a) by {
        assert(has_source(out, prev, a));
        lemma_source_push(out, out, prev, d, a, a);
    }
    assert forall|j: int| 0 <= j < next.len() implies #[trigger] is_covered(out, next, j) by {
        if j < prev.len() {
            assert(is_covered(out, prev, j));
            assert(next[j] == prev[j]);
            let a = choose|a: int| 0 <= a < out.len() && deck_key(#[trigger] out[a]) == deck_key(prev[j]);
            assert(deck_key(out[a]) == deck_key(next[j]));
        } else {
            assert(next[j] == d);
            assert(deck_key(out[p]) == deck_key(next[j]));
        }
    }
}

pub proof fn lemma_dedupe_insert(out: Seq<Deck>, prev: Seq<Deck>, d: Deck, p: int)
    requires
        is_dedupe_of(out, prev),
        0 <= p <= out.len(),
        forall|a: int| 0 <= a < p ==> seq_lt(deck_key(#[trigger] out[a]), deck_key(d)),
        forall|a: int| p <= a < out.len() ==> seq_lt(deck_key(d), deck_key(#[trigger] out[a])),
    ensures
        is_dedupe_of(out.insert(p, d), prev.push(d)),
{
    let next = prev.push(d);
    let o = out.insert(p, d);
    assert forall|j: int| 0 <= j < prev.len() implies deck_key(#[trigger] prev[j]) != deck_key(d) by {
        assert(is_covered(out, prev, j));
        let a = choose|a: int| 0 <= a < out.len() && deck_key(#[trigger] out[a]) == deck_key(prev[j]);
        if a < p {
            assert(seq_lt(deck_key(out[a]), deck_key(d)));
        } else {
            assert(seq_lt(deck_key(d), deck_key(out[a])));
        }
        lemma_seq_lt_irreflexive(deck_key(d));
    }
    assert(first_with_key(next, prev.len() as int)) by {
        assert forall|k: int| 0 <= k < prev.len() implies deck_key(#[trigger] next[k]) != deck_key(
            next[prev.len() as int],
        ) by {
            assert(next[k] == prev[k]);
        }
    }
    assert forall|a: int, b: int| 0 <= a < b < o.len() implies seq_lt(
        deck_key(#[trigger] o[a]),
        deck_key(#[trigger] o[b]),
    ) by {
        if b < p {
            assert(o[a] == out[a] && o[b] == out[b]);
        } else if b == p {
            assert(o[a] == out[a]);
        } else if a < p {
            assert(o[a] == out[a] && o[b] == out[b - 1]);
            lemma_seq_lt_transitive(deck_key(out[a]), deck_key(d), deck_key(out[b - 1]));
        } else if a == p {
            assert(o[b] == out[b - 1]);
        } else {
            assert(o[a] == out[a - 1] && o[b] == out[b - 1]);
        }
    }
    assert forall|a: int| 0 <= a < o.len() implies #[trigger] has_source(o, next, a) by {
        if a == p {
            assert(next[prev.len() as int] == d);
            assert(same_deck(o[a], next[prev.len() as int]));
        } else {
            let a2 = if a < p {
                a
            } else {
                a - 1
            };
            assert(o[a] == out[a2]);
            assert(has_source(out, prev, a2));
            lemma_source_push(out, o, prev, d, a, a2);
        }
    }
    assert forall|j: int| 0 <= j < next.len() implies #[trigger] is_covered(o, next, j) by {
        if j < prev.len() {
            assert(next[j] == prev[j]);
            assert(is_covered(out, prev, j));
            let a = choose|a: int| 0 <= a < out.len() && deck_key(#[trigger] out[a]) == deck_key(prev[j]);
            let a2 = if a < p {
                a
            } else {
                a + 1
            };
            assert(o[a2] == out[a]);
            assert(deck_key(o[a2]) == deck_key(next[j]));
        } else {
            assert(next[j] == d);
            assert(o[p] == d);
            assert(deck_key(o[p]) == deck_key(next[j]));
        }
    }
}

/// Keeps the first deck of each canonical key, in increasing key order.
pub fn dedupe(decks: Vec<Deck>) -> (r: Vec<Deck>)
    ensures
        is_dedupe_of(r@, decks@),
{
    let ghost orig = decks@;
    let mut input = decks;
    let mut keys: Vec<String> = Vec::new();
    let mut out: Vec<Deck> = Vec::new();
    let n = input.len();
    let mut i: usize = 0;
    assert(orig.take(0) =~= Seq::<Deck>::empty());
    assert(orig.skip(0) =~= orig);
    while i < n
        invariant
            n == orig.len(),
            i <= n,
            input@ == orig.skip(i as int),
            keys_sorted(keys@),
            out@.len() == keys@.len(),
            forall|q: int| 0 <= q < out@.len() ==> (#[trigger] keys@[q])@ == deck_key(out@[q]),
            is_dedupe_of(out@, orig.take(i as int)),
        decreases n - i,
    {
        let d = input.remove(0);
        assert(d == orig[i as int]);
        assert(input@ =~= orig.skip(i + 1));
        let k = d.canonical_key();
        assert(k@ == deck_key(d)) by {
            reveal(deck_key);
        }
        let (p, found) = find_slot(&keys, k.as_str());
        assert(orig.take(i + 1) =~= orig.take(i as int).push(d));
        if found {
            proof {
                assert(keys@[p as int].key_of() == deck_key(out@[p as int]));
                lemma_dedupe_skip(out@, orig.take(i as int), d, p as int);
            }
        } else {
            let ghost old_out = out@;
            let ghost old_keys = keys@;
            proof {
                lemma_sorted_insert(keys@, p as int, k);
                assert forall|a: int| 0 <= a < p implies seq_lt(
                    deck_key(#[trigger] old_out[a]),
                    deck_key(d),
                ) by {
                    assert(old_keys[a].key_of() == deck_key(old_out[a]));
                }
                assert forall|a: int| p <= a < old_out.len() implies seq_lt(
                    deck_key(d),
                    deck_key(#[trigger] old_out[a]),
                ) by {
                    assert(old_keys[a].key_of() == deck_key(old_out[a]));
                }
                lemma_dedupe_insert(old_out, orig.take(i as int), d, p as int);
            }
            keys.insert(p, k);
            out.insert(p, d);
            proof {
                assert forall|q: int| 0 <= q < out@.len() implies (#[trigger] keys@[q])@ == deck_key(
                    out@[q],
                ) by {
                    if q < p {
                        assert(keys@[q] == old_keys[q]);
                        assert(out@[q] == old_out[q]);
                    } else if q > p {
                        assert(keys@[q] == old_keys[q - 1]);
                        assert(out@[q] == old_out[q - 1]);
                    }
                }
            }
        }
        i = i + 1;
    }
    assert(orig.take(n as int) =~= orig);
    out
}


/// The children of one deck: `n` mutations drawn one after the other, keeping
/// those that succeed.
pub open spec fn offspring(
    e: Seq<(CardId, u8)>,
    ids: Seq<CardId>,
    reg: Map<Seq<char>, crate::domain::Card>,
    state: u64,
    n: nat,
) -> (Seq<Seq<(CardId, u8)>>, u64)
    decreases n,
{
    if n == 0 {
        (Seq::empty(), state)
    } else {
        let (prev, st) = offspring(e, ids, reg, state, (n - 1) as nat);
        let (c, st2) = mutation(e, ids, reg, st);
        (
            match c {
                Some(x) => prev.push(x),
                None => prev,
            },
            st2,
        )
    }
}

/// The children of each elite in turn, `n` attempts each.
pub open spec fn brood(
    elites: Seq<Seq<(CardId, u8)>>,
    ids: Seq<CardId>,
    reg: Map<Seq<char>, crate::domain::Card>,
    state: u64,
    n: nat,
) -> (Seq<Seq<(CardId, u8)>>, u64)
    decreases elites.len(),
{
    if elites.len() == 0 {
        (Seq::empty(), state)
    } else {
        let (prev, st) = brood(elites.drop_last(), ids, reg, state, n);
        let (kids, st2) = offspring(elites.last(), ids, reg, st, n);
        (prev + kids, st2)
    }
}

/// The decks hold the given entries, with the Energy Zone their cards require.
pub open spec fn children_match(
    ch: Seq<Deck>,
    kids: Seq<Seq<(CardId, u8)>>,
    reg: Map<Seq<char>, crate::domain::Card>,
) -> bool {
    &&& ch.len() == kids.len()
    &&& forall|i: int|
        0 <= i < ch.len() ==> (#[trigger] ch[i]).entries() == kids[i] && ch[i].energy_set()
            == energy_or_water(required_energy(reg, kids[i]))
}

/// The decks a search may hold: no empty entries, counts that add up without overflow.
pub open spec fn searchable(d: Deck) -> bool {
    positive_counts(d.entries()) && d.total() <= 255
}

/// A successful mutation is a legal deck.
proof fn lemma_mutation_search_legal(
    s: Seq<(CardId, u8)>,
    ids: Seq<CardId>,
    reg: Map<Seq<char>, crate::domain::Card>,
    state: u64,
    tries: nat,
)
    ensures
        mutation_search(s, ids, reg, state, tries).0 matches Some(c) ==> deck_issue(c, reg) is None,
    decreases tries,
{
    if tries > 0 {
        let s2 = xorshift_step(xorshift_step(state));
        lemma_mutation_search_legal(s, ids, reg, s2, (tries - 1) as nat);
    }
}

/// Every child of a deck is a legal deck.
proof fn lemma_offspring_legal(
    e: Seq<(CardId, u8)>,
    ids: Seq<CardId>,
    reg: Map<Seq<char>, crate::domain::Card>,
    state: u64,
    n: nat,
)
    ensures
        forall|i: int|
            0 <= i < offspring(e, ids, reg, state, n).0.len() ==> deck_issue(
                #[trigger] offspring(e, ids, reg, state, n).0[i],
                reg,
            ) is None,
    decreases n,
{
    if n > 0 {
        let (prev, st) = offspring(e, ids, reg, state, (n - 1) as nat);
        lemma_offspring_legal(e, ids, reg, state, (n - 1) as nat);
        if e.len() > 0 && ids.len() > 0 {
            lemma_mutation_search_legal(e, ids, reg, st, MUTATION_TRIES as nat);
        }
        let kids = offspring(e, ids, reg, state, n).0;
        assert forall|i: int| 0 <= i < kids.len() implies deck_issue(#[trigger] kids[i], reg) is None by {
            if i < prev.len() {
                assert(kids[i] == prev[i]);
            }
        }
    }
}

/// Every child of every elite is a legal deck.
proof fn lemma_brood_legal(
    elites: Seq<Seq<(CardId, u8)>>,
    ids: Seq<CardId>,
    reg: Map<Seq<char>, crate::domain::Card>,
    state: u64,
    n: nat,
)
    ensures
        forall|i: int|
            0 <= i < brood(elites, ids, reg, state, n).0.len() ==> deck_issue(
                #[trigger] brood(elites, ids, reg, state, n).0[i],
                reg,
            ) is None,
    decreases elites.len(),
{
    if elites.len() > 0 {
        let (prev, st) = brood(elites.drop_last(), ids, reg, state, n);
        lemma_brood_legal(elites.drop_last(), ids, reg, state, n);
        lemma_offspring_legal(elites.last(), ids, reg, st, n);
        let kids = offspring(elites.last(), ids, reg, st, n).0;
        let all = brood(elites, ids, reg, state, n).0;
        assert(all == prev + kids);
        assert forall|i: int| 0 <= i < all.len() implies deck_issue(#[trigger] all[i], reg) is None by {
            if i < prev.len() {
                assert(all[i] == prev[i]);
            } else {
                assert(all[i] == kids[i - prev.len()]);
            }
        }
    }
}

/// The deck holds the same as one of the seeds, or it passes the rules.
pub open spec fn seed_or_legal(
    d: Deck,
    seeds: Seq<Deck>,
    reg: Map<Seq<char>, crate::domain::Card>,
) -> bool {
    ||| exists|j: int| 0 <= j < seeds.len() && same_deck(d, #[trigger] seeds[j])
    ||| deck_issue(d.entries(), reg) is None
}

/// The search only ever holds seeds and legal decks: when every ranked deck is
/// a seed or legal, so is every deck of the next generation, whose decks are
/// survivors and their children as `next_generation` gives them.
pub proof fn law_generation_keeps_seeds_or_legal(
    ranked: Seq<Deck>,
    elite_count: int,
    ids: Seq<CardId>,
    reg: Map<Seq<char>, crate::domain::Card>,
    state: u64,
    n: nat,
    children: Seq<Deck>,
    next: Seq<Deck>,
    seeds: Seq<Deck>,
)
    requires
        elite_count >= 0,
        forall|i: int| 0 <= i < ranked.len() ==> #[trigger] seed_or_legal(ranked[i], seeds, reg),
        children_match(
            children,
            brood(entries_of(survivors(ranked, elite_count)), ids, reg, state, n).0,
            reg,
        ),
        is_dedupe_of(next, survivors(ranked, elite_count) + children),
    ensures
        forall|i: int| 0 <= i < next.len() ==> #[trigger] seed_or_legal(next[i], seeds, reg),
{
    let elites = survivors(ranked, elite_count);
    let input = elites + children;
    let kids = brood(entries_of(elites), ids, reg, state, n).0;
    lemma_brood_legal(entries_of(elites), ids, reg, state, n);
    assert forall|i: int| 0 <= i < next.len() implies #[trigger] seed_or_legal(next[i], seeds, reg) by {
        assert(has_source(next, input, i));
        let j = choose|j: int|
            0 <= j < input.len() && first_with_key(input, j) && same_deck(next[i], #[trigger] input[j]);
        if j < elites.len() {
            assert(elites.len() <= ranked.len());
            assert(input[j] == elites[j]);
            assert(elites[j] == ranked[j]);
            assert(seed_or_legal(ranked[j], seeds, reg));
            if deck_issue(ranked[j].entries(), reg) is None {
            } else {
                let q = choose|q: int| 0 <= q < seeds.len() && same_deck(ranked[j], #[trigger] seeds[q]);
                assert(same_deck(next[i], seeds[q]));
            }
        } else {
            let c = j - elites.len();
            assert(input[j] == children[c]);
            assert(children[c].entries() == kids[c]);
            assert(deck_issue(kids[c], reg) is None);
        }
    }
}

/// `next` is a population that `next_generation` can give for `ranked`: the
/// survivors and their children, one deck per canonical key.
pub open spec fn generation_step(
    ranked: Seq<Deck>,
    elite_count: int,
    ids: Seq<CardId>,
    reg: Map<Seq<char>, crate::domain::Card>,
    state: u64,
    n: nat,
    next: Seq<Deck>,
) -> bool {
    exists|children: Seq<Deck>|
        children_match(
            children,
            brood(entries_of(survivors(ranked, elite_count)), ids, reg, state, n).0,
            reg,
        ) && is_dedupe_of(next, survivors(ranked, elite_count) + children)
}

/// Every deck of `r` holds the same as some deck of `p`.
pub open spec fn drawn_from(r: Seq<Deck>, p: Seq<Deck>) -> bool {
    forall|i: int|
        0 <= i < r.len() ==> exists|j: int| 0 <= j < p.len() && same_deck(#[trigger] r[i], p[j])
}

/// A whole search holds only seeds and legal decks: starting from the seeds,
/// each generation ranks decks of the current population (in any order, as
/// the floating-point scores decide) and breeds the next population as
/// `next_generation` does; every deck of every population is then a seed or
/// passes the rules.
pub proof fn law_search_keeps_seeds_or_legal(
    pops: Seq<Seq<Deck>>,
    ranked: Seq<Seq<Deck>>,
    elite_count: int,
    ids: Seq<CardId>,
    reg: Map<Seq<char>, crate::domain::Card>,
    states: Seq<u64>,
    n: nat,
    seeds: Seq<Deck>,
)
    requires
        elite_count >= 0,
        pops.len() == ranked.len() + 1,
        states.len() == ranked.len(),
        pops[0] == seeds,
        forall|t: int| 0 <= t < ranked.len() ==> #[trigger] drawn_from(ranked[t], pops[t]),
        forall|t: int|
            0 <= t < ranked.len() ==> #[trigger] generation_step(
                ranked[t],
                elite_count,
                ids,
                reg,
                states[t],
                n,
                pops[t + 1],
            ),
    ensures
        forall|t: int, i: int|
            0 <= t < pops.len() && 0 <= i < pops[t].len() ==> #[trigger] seed_or_legal(
                pops[t][i],
                seeds,
                reg,
            ),
    decreases ranked.len(),
{
    if ranked.len() == 0 {
        assert forall|t: int, i: int| 0 <= t < pops.len() && 0 <= i < pops[t].len() implies
            #[trigger] seed_or_legal(pops[t][i], seeds, reg) by {
            assert(t == 0);
            assert(same_deck(seeds[i], seeds[i]));
        }
    } else {
        let k = ranked.len() - 1;
        let p0 = pops.drop_last();
        let r0 = ranked.drop_last();
        let s0 = states.drop_last();
        assert forall|t: int| 0 <= t < r0.len() implies #[trigger] drawn_from(r0[t], p0[t]) by {
            assert(drawn_from(ranked[t], pops[t]));
        }
        assert forall|t: int| 0 <= t < r0.len() implies #[trigger] generation_step(
            r0[t],
            elite_count,
            ids,
            reg,
            s0[t],
            n,
            p0[t + 1],
        ) by {
            assert(generation_step(ranked[t], elite_count, ids, reg, states[t], n, pops[t + 1]));
        }
        law_search_keeps_seeds_or_legal(p0, r0, elite_count, ids, reg, s0, n, seeds);
        let prev = pops[k];
        assert(prev == p0[k]);
        assert forall|i: int| 0 <= i < ranked[k].len() implies #[trigger] seed_or_legal(
            ranked[k][i],
            seeds,
            reg,
        ) by {
            assert(drawn_from(ranked[k], prev));
            let j = choose|j: int| 0 <= j < prev.len() && same_deck(ranked[k][i], prev[j]);
            assert(seed_or_legal(p0[k][j], seeds, reg));
            if deck_issue(prev[j].entries(), reg) is None {
            } else {
                let q = choose|q: int| 0 <= q < seeds.len() && same_deck(prev[j], #[trigger] seeds[q]);
                assert(same_deck(ranked[k][i], seeds[q]));
            }
        }
        assert(generation_step(ranked[k], elite_count, ids, reg, states[k], n, pops[k + 1]));
        let children = choose|children: Seq<Deck>|
            children_match(
                children,
                brood(entries_of(survivors(ranked[k], elite_count)), ids, reg, states[k], n).0,
                reg,
            ) && is_dedupe_of(pops[k + 1], survivors(ranked[k], elite_count) + children);
        law_generation_keeps_seeds_or_legal(
            ranked[k],
            elite_count,
            ids,
            reg,
            states[k],
            n,
            children,
            pops[k + 1],
            seeds,
        );
        assert forall|t: int, i: int| 0 <= t < pops.len() && 0 <= i < pops[t].len() implies
            #[trigger] seed_or_legal(pops[t][i], seeds, reg) by {
            if t < p0.len() {
                assert(pops[t] == p0[t]);
                assert(seed_or_legal(p0[t][i], seeds, reg));
            } else {
                assert(t == k + 1);
            }
        }
    }
}


/// The copies of card `k` in key-sorted entries, zero when absent.
pub open spec fn copies(s: Seq<(CardId, u8)>, k: Seq<char>) -> int {
    count_or_zero(count_map(s), k)
}

/// A card has no more copies than the entries hold in all.
proof fn lemma_copies_le_total(s: Seq<(CardId, u8)>, k: Seq<char>)
    requires
        keys_sorted(s),
    ensures
        0 <= copies(s, k) <= entries_total(s),
{
    crate::domain::lemma_entries_total_nonneg(s);
    if has_key(s, k) {
        let i = key_index(s, k);
        lemma_sorted_index(s, i);
        lemma_entry_le_total(s, i);
    }
}

/// A place for a new key exists in key-sorted entries.
proof fn lemma_insert_pos_witness(s: Seq<(CardId, u8)>, k: Seq<char>) -> (p: int)
    requires
        keys_sorted(s),
        !has_key(s, k),
    ensures
        is_insert_pos(s, k, p),
    decreases s.len(),
{
    if s.len() == 0 {
        0
    } else {
        let f = s.drop_last();
        assert(keys_sorted(f)) by {
            assert forall|i: int, j: int| 0 <= i < j < f.len() implies seq_lt(
                #[trigger] f[i].key_of(),
                #[trigger] f[j].key_of(),
            ) by {
                assert(f[i] == s[i] && f[j] == s[j]);
            }
        }
        assert(!has_key(f, k)) by {
            if has_key(f, k) {
                let i = key_index(f, k);
                assert(s[i] == f[i]);
            }
        }
        let q = lemma_insert_pos_witness(f, k);
        let last = s[s.len() - 1].key_of();
        assert(last != k);
        lemma_seq_lt_total(last, k);
        if seq_lt(last, k) {
            assert forall|i: int| 0 <= i < s.len() implies seq_lt(#[trigger] s[i].key_of(), k) by {
                if i < s.len() - 1 {
                    lemma_seq_lt_transitive(s[i].key_of(), last, k);
                }
            }
            s.len() as int
        } else {
            assert forall|i: int| 0 <= i < q implies seq_lt(#[trigger] s[i].key_of(), k) by {
                assert(s[i] == f[i]);
            }
            assert forall|i: int| q <= i < s.len() implies seq_lt(k, #[trigger] s[i].key_of()) by {
                if i < s.len() - 1 {
                    assert(s[i] == f[i]);
                }
            }
            q
        }
    }
}

/// Taking one copy of a card out: that card has one copy fewer, every other
/// card as many as before.
proof fn lemma_dec_copies(s: Seq<(CardId, u8)>, k: Seq<char>)
    requires
        keys_sorted(s),
        has_key(s, k),
        s[key_index(s, k)].1 > 0,
    ensures
        keys_sorted(dec_entries(s, k)),
        forall|x: Seq<char>|
            #[trigger] copies(dec_entries(s, k), x) == copies(s, x) - if x == k {
                1int
            } else {
                0int
            },
        entries_total(dec_entries(s, k)) == entries_total(s) - 1,
        positive_counts(s) ==> positive_counts(dec_entries(s, k)),
{
    let i = key_index(s, k);
    lemma_sorted_index(s, i);
    if s[i].1 == 1 {
        lemma_sorted_remove(s, i);
        lemma_total_remove(s, i);
        assert forall|j: int| 0 <= j < s.remove(i).len() && positive_counts(s) implies #[trigger] s.remove(
            i,
        )[j].1 > 0 by {
            if j < i {
                assert(s.remove(i)[j] == s[j]);
            } else {
                assert(s.remove(i)[j] == s[j + 1]);
            }
        }
    } else {
        let x = (s[i].0, (s[i].1 - 1) as u8);
        lemma_sorted_update(s, i, x);
        lemma_total_update(s, i, x);
    }
}

/// Putting one copy of a card in: that card has one copy more, every other
/// card as many as before.
proof fn lemma_inc_copies(s: Seq<(CardId, u8)>, id: CardId)
    requires
        keys_sorted(s),
        copies(s, id.0@) < 255,
    ensures
        keys_sorted(inc_entries(s, id)),
        forall|x: Seq<char>|
            #[trigger] copies(inc_entries(s, id), x) == copies(s, x) + if x == id.0@ {
                1int
            } else {
                0int
            },
        entries_total(inc_entries(s, id)) == entries_total(s) + 1,
        positive_counts(s) ==> positive_counts(inc_entries(s, id)),
{
    let k = id.0@;
    if has_key(s, k) {
        let i = key_index(s, k);
        lemma_sorted_index(s, i);
        let x = (s[i].0, (s[i].1 + 1) as u8);
        lemma_sorted_update(s, i, x);
        lemma_total_update(s, i, x);
    } else {
        let q = lemma_insert_pos_witness(s, k);
        let p = insert_pos(s, k);
        assert(is_insert_pos(s, k, p));
        lemma_sorted_insert(s, p, (id, 1u8));
        lemma_total_insert(s, p, (id, 1u8));
        assert forall|j: int| 0 <= j < s.insert(p, (id, 1u8)).len() && positive_counts(s) implies #[trigger] s.insert(
            p,
            (id, 1u8),
        )[j].1 > 0 by {
            if j < p {
                assert(s.insert(p, (id, 1u8))[j] == s[j]);
            } else if j > p {
                assert(s.insert(p, (id, 1u8))[j] == s[j - 1]);
            }
        }
    }
}

/// Some candidate card has identifier `a`.
pub open spec fn lists_card(ids: Seq<CardId>, a: Seq<char>) -> bool {
    exists|j: int| 0 <= j < ids.len() && ids[j].0@ == a
}

/// `child` is `parent` with one copy of card `r`, which `parent` holds, taken
/// out and one copy of the different candidate card `a` put in; every other
/// card keeps its copies.
pub open spec fn swap_at(
    parent: Seq<(CardId, u8)>,
    child: Seq<(CardId, u8)>,
    ids: Seq<CardId>,
    r: Seq<char>,
    a: Seq<char>,
) -> bool {
    &&& r != a
    &&& copies(parent, r) >= 1
    &&& lists_card(ids, a)
    &&& forall|x: Seq<char>|
        #[trigger] copies(child, x) == copies(parent, x) - (if x == r {
            1int
        } else {
            0int
        }) + (if x == a {
            1int
        } else {
            0int
        })
}

/// `child` is a one-slot mutation of `parent`: one copy of a card of the
/// parent replaced by one copy of another candidate card.
pub open spec fn one_slot_swap(
    parent: Seq<(CardId, u8)>,
    child: Seq<(CardId, u8)>,
    ids: Seq<CardId>,
) -> bool {
    exists|r: Seq<char>, a: Seq<char>| #[trigger] swap_at(parent, child, ids, r, a)
}

/// Every successful mutation of a deck is a one-slot mutation of it, with
/// entries still sorted and no empty entry.
pub proof fn law_mutation_swaps_one_copy(
    s: Seq<(CardId, u8)>,
    ids: Seq<CardId>,
    reg: Map<Seq<char>, crate::domain::Card>,
    state: u64,
)
    requires
        keys_sorted(s),
        positive_counts(s),
        entries_total(s) <= 255,
    ensures
        mutation(s, ids, reg, state).0 matches Some(c) ==> one_slot_swap(s, c, ids) && keys_sorted(
            c,
        ) && positive_counts(c),
{
    if s.len() > 0 && ids.len() > 0 {
        lemma_mutation_search_swaps(s, ids, reg, state, MUTATION_TRIES as nat);
    }
}

proof fn lemma_mutation_search_swaps(
    s: Seq<(CardId, u8)>,
    ids: Seq<CardId>,
    reg: Map<Seq<char>, crate::domain::Card>,
    state: u64,
    tries: nat,
)
    requires
        keys_sorted(s),
        positive_counts(s),
        entries_total(s) <= 255,
        s.len() > 0,
        ids.len() > 0,
    ensures
        mutation_search(s, ids, reg, state, tries).0 matches Some(c) ==> one_slot_swap(s, c, ids)
            && keys_sorted(c) && positive_counts(c),
    decreases tries,
{
    if tries > 0 {
        let s1 = xorshift_step(state);
        let s2 = xorshift_step(s1);
        lemma_mutation_search_swaps(s, ids, reg, s2, (tries - 1) as nat);
        let ri = ((s1 as usize) as int) % (s.len() as int);
        let ai = ((s2 as usize) as int) % (ids.len() as int);
        let remove = s[ri].0;
        let add = ids[ai];
        if remove.0@ != add.0@ {
            let r = remove.0@;
            let a = add.0@;
            lemma_sorted_index(s, ri);
            assert(s[ri].key_of() == r);
            lemma_dec_copies(s, r);
            let d = dec_entries(s, r);
            lemma_copies_le_total(d, a);
            lemma_inc_copies(d, add);
            let child = inc_entries(d, add);
            assert(copies(s, r) == s[ri].1);
            assert(lists_card(ids, a));
            assert forall|x: Seq<char>| #[trigger] copies(child, x) == copies(s, x) - (if x == r {
                1int
            } else {
                0int
            }) + (if x == a {
                1int
            } else {
                0int
            }) by {
                assert(copies(child, x) == copies(d, x) + if x == a {
                    1int
                } else {
                    0int
                });
                assert(copies(d, x) == copies(s, x) - if x == r {
                    1int
                } else {
                    0int
                });
            }
            assert(swap_at(s, child, ids, r, a));
        }
    }
}

/// Every child of one deck is a one-slot mutation of it, and there are at
/// most `n` of them.
proof fn lemma_offspring_swaps(
    e: Seq<(CardId, u8)>,
    ids: Seq<CardId>,
    reg: Map<Seq<char>, crate::domain::Card>,
    state: u64,
    n: nat,
)
    requires
        keys_sorted(e),
        positive_counts(e),
        entries_total(e) <= 255,
    ensures
        offspring(e, ids, reg, state, n).0.len() <= n,
        forall|i: int|
            0 <= i < offspring(e, ids, reg, state, n).0.len() ==> one_slot_swap(
                e,
                #[trigger] offspring(e, ids, reg, state, n).0[i],
                ids,
            ),
    decreases n,
{
    if n > 0 {
        let (prev, st) = offspring(e, ids, reg, state, (n - 1) as nat);
        lemma_offspring_swaps(e, ids, reg, state, (n - 1) as nat);
        law_mutation_swaps_one_copy(e, ids, reg, st);
        let kids = offspring(e, ids, reg, state, n).0;
        assert forall|i: int| 0 <= i < kids.len() implies one_slot_swap(e, #[trigger] kids[i], ids) by {
            if i < prev.len() {
                assert(kids[i] == prev[i]);
            }
        }
    }
}

/// The blocks one after the other.
pub open spec fn joined_blocks(blocks: Seq<Seq<Seq<(CardId, u8)>>>) -> Seq<Seq<(CardId, u8)>>
    decreases blocks.len(),
{
    if blocks.len() == 0 {
        Seq::empty()
    } else {
        joined_blocks(blocks.drop_last()) + blocks.last()
    }
}

/// Block `q` holds at most `n` decks, each a one-slot mutation of parent `q`.
pub open spec fn blocks_mutate(
    blocks: Seq<Seq<Seq<(CardId, u8)>>>,
    parents: Seq<Seq<(CardId, u8)>>,
    ids: Seq<CardId>,
    n: nat,
) -> bool {
    &&& blocks.len() == parents.len()
    &&& forall|q: int| 0 <= q < blocks.len() ==> (#[trigger] blocks[q]).len() <= n
    &&& forall|q: int, i: int|
        0 <= q < blocks.len() && 0 <= i < blocks[q].len() ==> one_slot_swap(
            parents[q],
            #[trigger] blocks[q][i],
            ids,
        )
}

/// Every elite gets its own children: the children that one generation breeds
/// fall into one block per elite, in the elites' order, and block `q` holds at
/// most `n` decks, each a one-slot mutation of elite `q`.
pub proof fn law_each_elite_breeds_its_own_children(
    elites: Seq<Seq<(CardId, u8)>>,
    ids: Seq<CardId>,
    reg: Map<Seq<char>, crate::domain::Card>,
    state: u64,
    n: nat,
)
    requires
        forall|q: int|
            0 <= q < elites.len() ==> keys_sorted(#[trigger] elites[q]) && positive_counts(elites[q])
                && entries_total(elites[q]) <= 255,
    ensures
        exists|blocks: Seq<Seq<Seq<(CardId, u8)>>>|
            joined_blocks(blocks) == brood(elites, ids, reg, state, n).0 && #[trigger] blocks_mutate(
                blocks,
                elites,
                ids,
                n,
            ),
    decreases elites.len(),
{
    if elites.len() == 0 {
        let blocks = Seq::<Seq<Seq<(CardId, u8)>>>::empty();
        assert(joined_blocks(blocks) == brood(elites, ids, reg, state, n).0);
        assert(blocks_mutate(blocks, elites, ids, n));
    } else {
        let f = elites.drop_last();
        assert forall|q: int| 0 <= q < f.len() implies keys_sorted(#[trigger] f[q]) && positive_counts(
            f[q],
        ) && entries_total(f[q]) <= 255 by {
            assert(f[q] == elites[q]);
        }
        law_each_elite_breeds_its_own_children(f, ids, reg, state, n);
        let b0 = choose|blocks: Seq<Seq<Seq<(CardId, u8)>>>|
            joined_blocks(blocks) == brood(f, ids, reg, state, n).0 && #[trigger] blocks_mutate(
                blocks,
                f,
                ids,
                n,
            );
        let (prev, st) = brood(f, ids, reg, state, n);
        let last = elites[elites.len() - 1];
        assert(last == elites.last());
        lemma_offspring_swaps(last, ids, reg, st, n);
        let kids = offspring(last, ids, reg, st, n).0;
        let blocks = b0.push(kids);
        assert(blocks.drop_last() =~= b0);
        assert(joined_blocks(blocks) == prev + kids);
        assert(blocks_mutate(blocks, elites, ids, n)) by {
            assert forall|q: int| 0 <= q < blocks.len() implies (#[trigger] blocks[q]).len() <= n by {
                if q < b0.len() {
                    assert(blocks[q] == b0[q]);
                }
            }
            assert forall|q: int, i: int|
                0 <= q < blocks.len() && 0 <= i < blocks[q].len() implies one_slot_swap(
                elites[q],
                #[trigger] blocks[q][i],
                ids,
            ) by {
                if q < b0.len() {
                    assert(blocks[q] == b0[q]);
                    assert(f[q] == elites[q]);
                    assert(one_slot_swap(f[q], b0[q][i], ids));
                } else {
                    assert(blocks[q] == kids);
                }
            }
        }
    }
}

/// Whether a deck is one a search may hold, as `next_generation` needs of
/// every surviving deck.
pub fn is_searchable(d: &Deck) -> (r: bool)
    ensures
        r == searchable(*d),
{
    let cards = d.card_entries();
    let mut total: u32 = 0;
    let mut i: usize = 0;
    assert(cards@.take(0) =~= Seq::<(CardId, u8)>::empty());
    while i < cards.len()
        invariant
            i <= cards.len(),
            cards@ == d.entries(),
            total == entries_total(cards@.take(i as int)),
            total <= 255,
            forall|j: int| 0 <= j < i ==> #[trigger] cards@[j].1 > 0,
        decreases cards.len() - i,
    {
        assert(cards@.take(i + 1).drop_last() =~= cards@.take(i as int));
        if cards[i].1 == 0 {
            return false;
        }
        total = total + cards[i].1 as u32;
        if total > 255 {
            proof {
                crate::domain::lemma_entries_total_prefix(cards@, i + 1);
            }
            return false;
        }
        i = i + 1;
    }
    assert(cards@.take(cards.len() as int) =~= cards@);
    true
}

/// The first `n` decks, or all of them when there are fewer.
pub open spec fn survivors(ranked: Seq<Deck>, n: int) -> Seq<Deck> {
    if n < ranked.len() {
        ranked.take(n)
    } else {
        ranked
    }
}

/// The entries of decks.
pub open spec fn entries_of(s: Seq<Deck>) -> Seq<Seq<(CardId, u8)>> {
    s.map_values(|d: Deck| d.entries())
}

/// Some deck of `s` has canonical key `k`.
pub open spec fn has_deck_key(s: Seq<Deck>, k: Seq<char>) -> bool {
    exists|i: int| 0 <= i < s.len() && deck_key(#[trigger] s[i]) == k
}

/// Elitism, and one deck per key: a deck of the next population has the key of
/// every surviving deck, and no two decks of it share a key.
pub proof fn law_elites_survive(next: Seq<Deck>, elites: Seq<Deck>, children: Seq<Deck>)
    requires
        is_dedupe_of(next, elites + children),
    ensures
        forall|j: int| 0 <= j < elites.len() ==> has_deck_key(next, deck_key(#[trigger] elites[j])),
        forall|i: int, k: int|
            0 <= i < k < next.len() ==> deck_key(#[trigger] next[i]) != deck_key(#[trigger] next[k]),
{
    assert forall|j: int| 0 <= j < elites.len() implies has_deck_key(
        next,
        deck_key(#[trigger] elites[j]),
    ) by {
        assert(is_covered(next, elites + children, j));
        assert((elites + children)[j] == elites[j]);
    }
    assert forall|i: int, k: int| 0 <= i < k < next.len() implies deck_key(#[trigger] next[i])
        != deck_key(#[trigger] next[k]) by {
        assert(seq_lt(deck_key(next[i]), deck_key(next[k])));
        if deck_key(next[i]) == deck_key(next[k]) {
            lemma_seq_lt_irreflexive(deck_key(next[i]));
        }
    }
}

/// One generation of the search, once the population is ranked best first:
/// the first `elite_count` decks survive, each gets `children_per_elite`
/// mutation attempts, and the survivors and their children, one deck per
/// canonical key, form the next population.
pub fn next_generation(
    ranked: Vec<Deck>,
    elite_count: usize,
    children_per_elite: usize,
    card_ids: &Vec<CardId>,
    registry: &CardRegistry,
    rng: &mut XorShift64,
) -> (r: Vec<Deck>)
    requires
        forall|i: int| 0 <= i < ranked@.len() && i < elite_count ==> #[trigger] searchable(ranked@[i]),
    ensures
        ({
            let elites = survivors(ranked@, elite_count as int);
            let (kids, st) = brood(
                entries_of(elites),
                card_ids@,
                registry@,
                old(rng)@,
                children_per_elite as nat,
            );
            &&& final(rng)@ == st
            &&& exists|children: Seq<Deck>|
                children_match(children, kids, registry@) && is_dedupe_of(r@, elites + children)
        }),
        generation_step(
            ranked@,
            elite_count as int,
            card_ids@,
            registry@,
            old(rng)@,
            children_per_elite as nat,
            r@,
        ),
{
    let e: usize = if elite_count < ranked.len() {
        elite_count
    } else {
        ranked.len()
    };
    let ghost all = ranked@;
    let mut pool = ranked;
    pool.truncate(e);
    let ghost elites = pool@;
    assert(elites =~= all.take(e as int));
    let ghost el = entries_of(elites);
    let mut q: usize = 0;
    assert(el.take(0) =~= Seq::<Seq<(CardId, u8)>>::empty());
    assert(pool@.skip(e as int) =~= Seq::<Deck>::empty());
    while q < e
        invariant
            q <= e,
            e == elites.len(),
            el == entries_of(elites),
            pool@.len() >= e,
            pool@.take(e as int) == elites,
            forall|i: int| 0 <= i < elites.len() ==> #[trigger] searchable(elites[i]),
            children_match(pool@.skip(e as int), brood(el.take(q as int), card_ids@, registry@, old(rng)@, children_per_elite as nat).0, registry@),
            rng@ == brood(el.take(q as int), card_ids@, registry@, old(rng)@, children_per_elite as nat).1,
        decreases e - q,
    {
        let ghost before = pool@.skip(e as int);
        let ghost st_q = rng@;
        let ghost kids_before = brood(el.take(q as int), card_ids@, registry@, old(rng)@, children_per_elite as nat).0;
        let mut c: usize = 0;
        assert(pool@.skip(e as int) =~= before + Seq::<Deck>::empty());
        assert(elites[q as int] == pool@[q as int]) by {
            assert(pool@.take(e as int)[q as int] == pool@[q as int]);
        }
        while c < children_per_elite
            invariant
                q < e,
                c <= children_per_elite,
                e == elites.len(),
                pool@.len() >= e,
                pool@.take(e as int) == elites,
                elites[q as int] == pool@[q as int],
                searchable(elites[q as int]),
                before == pool@.skip(e as int).take(before.len() as int),
                children_match(before, kids_before, registry@),
                children_match(
                    pool@.skip(e as int).skip(before.len() as int),
                    offspring(elites[q as int].entries(), card_ids@, registry@, st_q, c as nat).0,
                    registry@,
                ),
                pool@.skip(e as int).len() >= before.len(),
                rng@ == offspring(elites[q as int].entries(), card_ids@, registry@, st_q, c as nat).1,
            decreases children_per_elite - c,
        {
            let ghost old_pool = pool@;
            let child = mutate_one_slot(&pool[q], card_ids, registry, rng);
            match child {
                Some(d) => {
                    pool.push(d);
                    assert(pool@.take(e as int) =~= old_pool.take(e as int));
                    assert(pool@.skip(e as int) =~= old_pool.skip(e as int).push(d));
                    assert(pool@.skip(e as int).take(before.len() as int) =~= old_pool.skip(e as int).take(before.len() as int));
                    assert(pool@.skip(e as int).skip(before.len() as int) =~= old_pool.skip(e as int).skip(before.len() as int).push(d));
                },
                None => {},
            }
            c = c + 1;
        }
        proof {
            let ch = pool@.skip(e as int);
            let kq = offspring(elites[q as int].entries(), card_ids@, registry@, st_q, children_per_elite as nat).0;
            assert(el.take(q + 1).drop_last() =~= el.take(q as int));
            assert(el.take(q + 1).last() == elites[q as int].entries());
            assert(ch =~= before + ch.skip(before.len() as int));
            assert(children_match(ch, kids_before + kq, registry@)) by {
                assert forall|i: int| 0 <= i < ch.len() implies (#[trigger] ch[i]).entries() == (kids_before + kq)[i] && ch[i].energy_set()
                    == energy_or_water(required_energy(registry@, (kids_before + kq)[i])) by {
                    if i < before.len() {
                        assert(ch[i] == before[i]);
                    } else {
                        assert(ch[i] == ch.skip(before.len() as int)[i - before.len()]);
                    }
                }
            }
        }
        q = q + 1;
    }
    assert(el.take(e as int) =~= el);
    assert(pool@ =~= pool@.take(e as int) + pool@.skip(e as int));
    let ghost children = pool@.skip(e as int);
    let ghost pv = pool@;
    let r = dedupe(pool);
    assert(pv == all.take(e as int) + children);
    assert(children_match(children, brood(entries_of(all.take(e as int)), card_ids@, registry@, old(rng)@, children_per_elite as nat).0, registry@));
    assert(is_dedupe_of(r@, all.take(e as int) + children));
    assert(rng@ == brood(entries_of(all.take(e as int)), card_ids@, registry@, old(rng)@, children_per_elite as nat).1);
    assert(survivors(all, elite_count as int) =~= all.take(e as int));
    r
}

} // verus!
