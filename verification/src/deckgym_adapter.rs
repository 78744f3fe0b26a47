//! What the DeckGym engine is given and what it gives back: deck text without
//! card names, one seed per game, and the tally of game outcomes.

use vstd::prelude::*;

use crate::deck_text::{
    apply_line, card_line_id, counts_fit, counts_in_range, energies_listed, int_counts,
    is_skipped_line, known_energy, known_energy_chars, lit_energy, lit_pokemon,
    lit_pokemon_accented, lit_trainer, normalized_energy, normalized_number, parse_lines,
    TextIssue, TextState,
};
use crate::domain::{string_set, texts, CardId, Deck};
use crate::keyed::{has_key, key_map, keys_sorted, lemma_sorted_insert, Keyed};
use crate::simulator::{
    keeps_stream, lemma_splitmix64_injective, lemma_wrapping_add_assoc, splitmix64,
    splitmix64_spec, stream_step, MatchupResult,
};
use crate::text::{
    ascii_lower_seq, chars_eq, chars_of, decimal, extend_chars, extend_str, has_prefix,
    is_digit, is_ws, join, join_chars, lemma_concat_lacks, lemma_decimal, lemma_join_lacks,
    lemma_join_last, lemma_join_spaced, lemma_no_ws_lacks, lemma_split_join, lemma_trim_plain,
    lemma_trim_space, lemma_words_append, lemma_words_space, lower_chars, no_ws, parse_u8_spec, push_decimal, split_on, split_words,
    string_from_chars, sub_chars, trim, trim_chars, views, words,
};

verus! {

/// The position of the last `-`, or -1 when there is none.
pub open spec fn last_dash(s: Seq<char>) -> int
    decreases s.len(),
{
    if s.len() == 0 {
        -1
    } else if s.last() == '-' {
        s.len() - 1
    } else {
        last_dash(s.drop_last())
    }
}

proof fn lemma_last_dash_bounds(s: Seq<char>)
    ensures
        -1 <= last_dash(s) < s.len(),
        last_dash(s) >= 0 ==> s[last_dash(s)] == '-',
    decreases s.len(),
{
    if s.len() > 0 && s.last() != '-' {
        lemma_last_dash_bounds(s.drop_last());
    }
}

pub open spec fn msg_head() -> Seq<char> {
    seq!['c', 'a', 'r', 'd', ' ', 'i', 'd', ' ', '\'']
}

pub open spec fn msg_tail() -> Seq<char> {
    seq![
        '\'', ' ', 'm', 'u', 's', 't', ' ', 'l', 'o', 'o', 'k', ' ', 'l', 'i', 'k', 'e', ' ',
        '\'', 'A', '3', 'b', '-', '0', '4', '1', '\'', ' ', 'o', 'r', ' ', '\'', 'A', '3', 'b',
        ' ', '0', '4', '1', '\'',
    ]
}

/// The set code and the number of a card identifier: the two words of
/// `A3b 041`, or the parts around the last `-` of `A3b-041`, both non-empty.
pub open spec fn split_id(id: Seq<char>) -> Result<(Seq<char>, Seq<char>), Seq<char>> {
    let raw = trim(id);
    let w = words(raw);
    let d = last_dash(raw);
    if w.len() == 2 {
        Ok((w[0], w[1]))
    } else if d > 0 && d < raw.len() - 1 {
        Ok((raw.take(d), raw.skip(d + 1)))
    } else {
        Err(msg_head() + raw + msg_tail())
    }
}

pub fn split_card_id(card_id: &CardId) -> (r: Result<(String, String), String>)
    ensures
        match split_id(card_id.0@) {
            Ok((set, number)) => r matches Ok(p) && p.0@ == set && p.1@ == number,
            Err(msg) => r matches Err(m) && m@ == msg,
        },
{
    let chars = chars_of(card_id.0.as_str());
    let raw = trim_chars(&chars);
    let w = split_words(&raw);
    if w.len() == 2 {
        assert(views(w@)[0] == w@[0]@);
        assert(views(w@)[1] == w@[1]@);
        return Ok((string_from_chars(&w[0]), string_from_chars(&w[1])));
    }
    let mut d: usize = raw.len();
    assert(raw@.take(d as int) =~= raw@);
    while d > 0 && raw[d - 1] != '-'
        invariant
            d <= raw.len(),
            last_dash(raw@) == last_dash(raw@.take(d as int)),
        decreases d,
    {
        assert(raw@.take(d as int).drop_last() =~= raw@.take(d - 1));
        d = d - 1;
    }
    let found = d > 0;
    proof {
        if d > 0 {
            assert(raw@.take(d as int).last() == raw@[d - 1]);
        } else {
            assert(raw@.take(0) =~= Seq::<char>::empty());
        }
    }
    if found {
        d = d - 1;
    }
    assert(found ==> last_dash(raw@) == d);
    assert(!found ==> last_dash(raw@) == -1);
    if found && d > 0 && d + 1 < raw.len() {
        let set = sub_chars(&raw, 0, d);
        let number = sub_chars(&raw, d + 1, raw.len());
        assert(set@ =~= raw@.take(d as int));
        assert(number@ =~= raw@.skip(d + 1));
        return Ok((string_from_chars(&set), string_from_chars(&number)));
    }
    let mut msg = vec!['c', 'a', 'r', 'd', ' ', 'i', 'd', ' ', '\''];
    assert(msg@ =~= msg_head());
    extend_chars(&mut msg, &raw);
    let tail = vec![
        '\'', ' ', 'm', 'u', 's', 't', ' ', 'l', 'o', 'o', 'k', ' ', 'l', 'i', 'k', 'e', ' ',
        '\'', 'A', '3', 'b', '-', '0', '4', '1', '\'', ' ', 'o', 'r', ' ', '\'', 'A', '3', 'b',
        ' ', '0', '4', '1', '\'',
    ];
    assert(tail@ =~= msg_tail());
    extend_chars(&mut msg, &tail);
    Err(string_from_chars(&msg))
}

pub open spec fn lit_dragon() -> Seq<char> { seq!['d', 'r', 'a', 'g', 'o', 'n'] }
pub open spec fn lit_colorless() -> Seq<char> { seq!['c', 'o', 'l', 'o', 'r', 'l', 'e', 's', 's'] }

/// The spelling DeckGym expects for an energy type, matched after trimming and
/// without regard to ASCII case; an unknown type is kept, trimmed.
pub open spec fn deckgym_energy(raw: Seq<char>) -> Seq<char> {
    let t = trim(raw);
    let l = ascii_lower_seq(t);
    match known_energy(l) {
        Some(x) => x,
        None => if l == lit_dragon() {
            seq!['D', 'r', 'a', 'g', 'o', 'n']
        } else if l == lit_colorless() {
            seq!['C', 'o', 'l', 'o', 'r', 'l', 'e', 's', 's']
        } else {
            t
        },
    }
}

pub fn deckgym_energy_chars(raw: &Vec<char>) -> (r: Vec<char>)
    ensures
        r@ == deckgym_energy(raw@),
{
    let t = trim_chars(raw);
    let l = lower_chars(&t);
    match known_energy_chars(&l) {
        Some(x) => x,
        None => {
            let dragon = vec!['d', 'r', 'a', 'g', 'o', 'n'];
            let colorless = vec!['c', 'o', 'l', 'o', 'r', 'l', 'e', 's', 's'];
            assert(dragon@ =~= lit_dragon());
            assert(colorless@ =~= lit_colorless());
            if chars_eq(&l, &dragon) {
                let r = vec!['D', 'r', 'a', 'g', 'o', 'n'];
                assert(r@ =~= deckgym_energy(raw@));
                r
            } else if chars_eq(&l, &colorless) {
                let r = vec!['C', 'o', 'l', 'o', 'r', 'l', 'e', 's', 's'];
                assert(r@ =~= deckgym_energy(raw@));
                r
            } else {
                t
            }
        },
    }
}

/// `Energy: ` and the types joined by `, `.
pub open spec fn energy_line(es: Seq<Seq<char>>) -> Seq<char> {
    seq!['E', 'n', 'e', 'r', 'g', 'y', ':', ' '] + join(
        es.map_values(|e: Seq<char>| deckgym_energy(e)),
        seq![',', ' '],
    )
}

/// `COUNT SET NUMBER` for one deck entry.
pub open spec fn card_line(e: (CardId, u8)) -> Result<Seq<char>, Seq<char>> {
    match split_id(e.0.0@) {
        Ok((set, number)) => Ok(decimal(e.1 as nat) + seq![' '] + set + seq![' '] + number),
        Err(m) => Err(m),
    }
}

/// The card lines in order, or the error of the first entry whose identifier
/// cannot be split.
pub open spec fn card_lines(s: Seq<(CardId, u8)>) -> Result<Seq<Seq<char>>, Seq<char>>
    decreases s.len(),
{
    if s.len() == 0 {
        Ok(Seq::empty())
    } else {
        match card_lines(s.drop_last()) {
            Err(m) => Err(m),
            Ok(ls) => match card_line(s.last()) {
                Err(m) => Err(m),
                Ok(l) => Ok(ls.push(l)),
            },
        }
    }
}

/// The DeckGym text of a deck: the energy line when there are types, then one
/// line per card, joined by newlines.
pub open spec fn deckgym_text(entries: Seq<(CardId, u8)>, energies: Seq<Seq<char>>) -> Result<
    Seq<char>,
    Seq<char>,
> {
    match card_lines(entries) {
        Err(m) => Err(m),
        Ok(ls) => Ok(
            join(
                if energies.len() > 0 {
                    seq![energy_line(energies)] + ls
                } else {
                    ls
                },
                seq!['\n'],
            ),
        ),
    }
}

proof fn lemma_card_lines_err_persists(s: Seq<(CardId, u8)>, i: int)
    requires
        0 <= i <= s.len(),
        card_lines(s.take(i)) is Err,
    ensures
        card_lines(s) == card_lines(s.take(i)),
    decreases s.len() - i,
{
    if i < s.len() {
        assert(s.take(i + 1).drop_last() =~= s.take(i));
        lemma_card_lines_err_persists(s, i + 1);
    } else {
        assert(s.take(i) =~= s);
    }
}

/// Encodes a deck as DeckGym text, which names cards by set code and number
/// only: `Energy: Lightning, Water`, then `2 A3b 041` for each card.
pub fn deck_to_deckgym_text(deck: &Deck) -> (r: Result<String, String>)
    ensures
        match deckgym_text(deck.entries(), texts(deck.energies())) {
            Ok(t) => r matches Ok(s) && s@ == t,
            Err(m) => r matches Err(s) && s@ == m,
        },
{
    let entries = deck.card_entries();
    let energies = deck.energy_types();
    let ghost ev = texts(energies@);
    let mut lines: Vec<Vec<char>> = Vec::new();
    if energies.len() > 0 {
        let mut parts: Vec<Vec<char>> = Vec::new();
        let mut j: usize = 0;
        while j < energies.len()
            invariant
                j <= energies.len(),
                ev == texts(energies@),
                views(parts@) == ev.take(j as int).map_values(|e: Seq<char>| deckgym_energy(e)),
            decreases energies.len() - j,
        {
            let c = chars_of(energies[j].as_str());
            let x = deckgym_energy_chars(&c);
            let ghost before = views(parts@);
            parts.push(x);
            assert(ev[j as int] == energies@[j as int]@);
            assert(views(parts@) =~= before.push(x@));
            assert(ev.take(j + 1).map_values(|e: Seq<char>| deckgym_energy(e)) =~= ev.take(
                j as int,
            ).map_values(|e: Seq<char>| deckgym_energy(e)).push(deckgym_energy(ev[j as int])));
            j = j + 1;
        }
        assert(ev.take(energies.len() as int) =~= ev);
        let mut line = vec!['E', 'n', 'e', 'r', 'g', 'y', ':', ' '];
        let sep = vec![',', ' '];
        let joined = join_chars(&parts, &sep);
        extend_chars(&mut line, &joined);
        assert(line@ =~= energy_line(ev));
        lines.push(line);
    }
    let ghost head = views(lines@);
    let mut i: usize = 0;
    assert(entries@.take(0) =~= Seq::<(CardId, u8)>::empty());
    while i < entries.len()
        invariant
            i <= entries.len(),
            entries@ == deck.entries(),
            head == (if ev.len() > 0 {
                seq![energy_line(ev)]
            } else {
                Seq::<Seq<char>>::empty()
            }),
            card_lines(entries@.take(i as int)) matches Ok(ls) && views(lines@) == head + ls,
        decreases entries.len() - i,
    {
        assert(entries@.take(i + 1).drop_last() =~= entries@.take(i as int));
        assert(entries@.take(i + 1).last() == entries@[i as int]);
        match split_card_id(&entries[i].0) {
            Err(m) => {
                proof {
                    lemma_card_lines_err_persists(entries@, i + 1);
                }
                return Err(m);
            },
            Ok((set, number)) => {
                let mut line: Vec<char> = Vec::new();
                push_decimal(&mut line, entries[i].1 as u64);
                line.push(' ');
                extend_str(&mut line, set.as_str());
                line.push(' ');
                extend_str(&mut line, number.as_str());
                let ghost before = views(lines@);
                assert(line@ =~= decimal(entries@[i as int].1 as nat) + seq![' '] + set@ + seq![' ']
                    + number@);
                assert(card_line(entries@[i as int]) == Ok::<Seq<char>, Seq<char>>(line@));
                lines.push(line);
                assert(views(lines@) =~= before.push(line@));
            },
        }
        i = i + 1;
    }
    assert(entries@.take(entries.len() as int) =~= entries@);
    let nl = vec!['\n'];
    assert(nl@ =~= seq!['\n']);
    let text = join_chars(&lines, &nl);
    assert(views(lines@) == (if ev.len() > 0 {
        seq![energy_line(ev)]
    } else {
        Seq::<Seq<char>>::empty()
    }) + card_lines(entries@).get_Ok_0());
    proof {
        if ev.len() == 0 {
            assert(views(lines@) =~= card_lines(entries@).get_Ok_0());
        }
    }
    Ok(string_from_chars(&text))
}

/// How a DeckGym game ended: a win for one player (0 plays deck A, 1 deck B),
/// or a tie.
#[derive(Clone, Copy, Debug, PartialEq, Eq)]
pub enum GameOutcome {
    Win(usize),
    Tie,
}

/// Deck A wins, deck B wins, or the game counts as a draw: a tie, a game with
/// no result, or a win by any other player.
pub open spec fn is_win_a(o: Option<GameOutcome>) -> bool {
    o == Some(GameOutcome::Win(0))
}

pub open spec fn is_win_b(o: Option<GameOutcome>) -> bool {
    o == Some(GameOutcome::Win(1))
}

/// How many outcomes are wins for deck A.
pub open spec fn wins_a_count(s: Seq<Option<GameOutcome>>) -> nat
    decreases s.len(),
{
    if s.len() == 0 {
        0
    } else {
        wins_a_count(s.drop_last()) + if is_win_a(s.last()) {
            1nat
        } else {
            0nat
        }
    }
}

/// How many outcomes are wins for deck B.
pub open spec fn wins_b_count(s: Seq<Option<GameOutcome>>) -> nat
    decreases s.len(),
{
    if s.len() == 0 {
        0
    } else {
        wins_b_count(s.drop_last()) + if is_win_b(s.last()) {
            1nat
        } else {
            0nat
        }
    }
}

/// How many outcomes are neither.
pub open spec fn draws_count(s: Seq<Option<GameOutcome>>) -> nat
    decreases s.len(),
{
    if s.len() == 0 {
        0
    } else {
        draws_count(s.drop_last()) + if !is_win_a(s.last()) && !is_win_b(s.last()) {
            1nat
        } else {
            0nat
        }
    }
}

/// The matchup result of a batch of game outcomes.
pub open spec fn tally(s: Seq<Option<GameOutcome>>) -> MatchupResult {
    MatchupResult {
        games: s.len() as u64,
        wins_a: wins_a_count(s) as u64,
        wins_b: wins_b_count(s) as u64,
        draws: draws_count(s) as u64,
    }
}

/// Each outcome counts once: as a win for deck A, for deck B, or as a draw.
proof fn lemma_counts_add_up(s: Seq<Option<GameOutcome>>)
    ensures
        wins_a_count(s) + wins_b_count(s) + draws_count(s) == s.len(),
    decreases s.len(),
{
    if s.len() > 0 {
        lemma_counts_add_up(s.drop_last());
    }
}

/// The counts of two batches, one after the other, are the sums of theirs.
proof fn lemma_counts_append(a: Seq<Option<GameOutcome>>, b: Seq<Option<GameOutcome>>)
    ensures
        wins_a_count(a + b) == wins_a_count(a) + wins_a_count(b),
        wins_b_count(a + b) == wins_b_count(a) + wins_b_count(b),
        draws_count(a + b) == draws_count(a) + draws_count(b),
    decreases b.len(),
{
    if b.len() == 0 {
        assert(a + b =~= a);
    } else {
        lemma_counts_append(a, b.drop_last());
        assert((a + b).drop_last() =~= a + b.drop_last());
        assert((a + b).last() == b.last());
    }
}

/// The outcomes of `n` games from seed `s`, when a game's outcome is a
/// function of its seed (`game_seed`): game `i` is played with the mixed
/// seed of `s + i`.
pub open spec fn seeded_batch(outcome: spec_fn(u64) -> Option<GameOutcome>, s: u64, n: nat) -> Seq<
    Option<GameOutcome>,
> {
    Seq::new(n, |i: int| outcome(splitmix64_spec(s.wrapping_add(i as u64))))
}

/// The tally of games played from per-game seeds, as a function of the first
/// seed and the number of games.
pub open spec fn seeded_stream(outcome: spec_fn(u64) -> Option<GameOutcome>) -> spec_fn(
    u64,
    nat,
) -> MatchupResult {
    |s: u64, n: nat| tally(seeded_batch(outcome, s, n))
}

/// Games played from per-game seeds form one stream: for any engine whose
/// outcome depends only on the game's seed, tallying `n` games from `s` and
/// `m` games from `s + n` and merging them is tallying the `n + m` games from
/// `s`.
pub proof fn law_seeded_games_keep_stream(outcome: spec_fn(u64) -> Option<GameOutcome>)
    ensures
        keeps_stream(seeded_stream(outcome)),
{
    assert forall|s: u64, n: nat, m: nat| n + m <= u64::MAX implies #[trigger] stream_step(
        seeded_stream(outcome),
        s,
        n,
        m,
    ) by {
        assert(seeded_stream(outcome)(s, n) == tally(seeded_batch(outcome, s, n)));
        assert(seeded_stream(outcome)(s.wrapping_add(n as u64), m) == tally(
            seeded_batch(outcome, s.wrapping_add(n as u64), m),
        ));
        assert(seeded_stream(outcome)(s, n + m) == tally(seeded_batch(outcome, s, n + m)));
        let a = seeded_batch(outcome, s, n);
        let b = seeded_batch(outcome, s.wrapping_add(n as u64), m);
        let w = seeded_batch(outcome, s, n + m);
        assert forall|j: int| 0 <= j < w.len() implies (a + b)[j] == #[trigger] w[j] by {
            if j >= n {
                lemma_wrapping_add_assoc(s, n, (j - n) as nat);
                assert((a + b)[j] == b[j - n]);
            }
        }
        assert(a + b =~= w);
        lemma_counts_append(a, b);
        lemma_counts_add_up(a);
        lemma_counts_add_up(b);
        lemma_counts_add_up(w);
    }
}

/// The matchup result of a batch of game outcomes.
pub fn tally_outcomes(outcomes: &Vec<Option<GameOutcome>>) -> (r: MatchupResult)
    ensures
        r == tally(outcomes@),
        r.games == outcomes@.len(),
        r.wins_a == wins_a_count(outcomes@),
        r.wins_b == wins_b_count(outcomes@),
        r.draws == draws_count(outcomes@),
        r.games == r.wins_a + r.wins_b + r.draws,
{
    let mut a: u64 = 0;
    let mut b: u64 = 0;
    let mut d: u64 = 0;
    let mut i: usize = 0;
    while i < outcomes.len()
        invariant
            i <= outcomes.len(),
            a == wins_a_count(outcomes@.take(i as int)),
            b == wins_b_count(outcomes@.take(i as int)),
            d == draws_count(outcomes@.take(i as int)),
            a + b + d == i,
        decreases outcomes.len() - i,
    {
        assert(outcomes@.take(i + 1).drop_last() =~= outcomes@.take(i as int));
        assert(outcomes@.take(i + 1).last() == outcomes@[i as int]);
        let o = outcomes[i];
        let is_a = match o {
            Some(GameOutcome::Win(w)) => w == 0,
            _ => false,
        };
        let is_b = match o {
            Some(GameOutcome::Win(w)) => w == 1,
            _ => false,
        };
        assert(is_a == is_win_a(o));
        assert(is_b == is_win_b(o));
        if is_a {
            a = a + 1;
        } else if is_b {
            b = b + 1;
        } else {
            d = d + 1;
        }
        i = i + 1;
    }
    assert(outcomes@.take(outcomes.len() as int) =~= outcomes@);
    MatchupResult { games: outcomes.len() as u64, wins_a: a, wins_b: b, draws: d }
}

/// The seed of game `game_index` of a batch started from `seed`: neighbouring
/// games get unrelated seeds, and the same game always the same one.
pub fn game_seed(seed: u64, game_index: u32) -> (r: u64)
    ensures
        r == splitmix64_spec(seed.wrapping_add(game_index as u64)),
{
    splitmix64(seed.wrapping_add(game_index as u64))
}


/// One of the eight Energy Zone types under the spelling that both deck text
/// formats write: `Grass`, `Fire`, `Water`, `Lightning`, `Psychic`,
/// `Fighting`, `Darkness` or `Metal`.
pub open spec fn canonical_energy(e: Seq<char>) -> bool {
    known_energy(ascii_lower_seq(e)) == Some(e)
}

/// A card identifier that DeckGym text carries through unchanged: no
/// whitespace, a set code before its last `-`, and after it a card number
/// that is already normalized (`A3b-041` or `P-A-005`, but not `A1-94`).
pub open spec fn gym_id(k: Seq<char>) -> bool {
    let d = last_dash(k);
    &&& no_ws(k)
    &&& 0 < d < k.len() - 1
    &&& normalized_number(k.skip(d + 1)) == k.skip(d + 1)
}

/// Each game of a batch gets a seed of its own: two different games of one
/// batch never share a seed.
pub proof fn law_game_seeds_distinct(seed: u64, i: u32, j: u32)
    requires
        i != j,
    ensures
        splitmix64_spec(seed.wrapping_add(i as u64)) != splitmix64_spec(seed.wrapping_add(j as u64)),
{
    assert(seed.wrapping_add(i as u64) != seed.wrapping_add(j as u64));
    lemma_splitmix64_injective(seed.wrapping_add(i as u64), seed.wrapping_add(j as u64));
}

/// The DeckGym line of an entry whose identifier is a `gym_id`.
spec fn gym_line(e: (CardId, u8)) -> Seq<char> {
    let k = e.0.0@;
    let d = last_dash(k);
    decimal(e.1 as nat) + seq![' '] + k.take(d) + seq![' '] + k.skip(d + 1)
}

/// The DeckGym lines of entries whose identifiers are `gym_id`s.
spec fn gym_lines(s: Seq<(CardId, u8)>) -> Seq<Seq<char>> {
    Seq::new(s.len(), |j: int| gym_line(s[j]))
}

/// The eight spellings are words of letters.
proof fn lemma_canonical_energy(e: Seq<char>)
    requires
        canonical_energy(e),
    ensures
        e.len() > 0,
        no_ws(e),
        !e.contains(','),
        deckgym_energy(e) == e,
        normalized_energy(e) == e,
{
    let g = seq!['G', 'r', 'a', 's', 's'];
    let f = seq!['F', 'i', 'r', 'e'];
    let w = seq!['W', 'a', 't', 'e', 'r'];
    let l = seq!['L', 'i', 'g', 'h', 't', 'n', 'i', 'n', 'g'];
    let p = seq!['P', 's', 'y', 'c', 'h', 'i', 'c'];
    let fi = seq!['F', 'i', 'g', 'h', 't', 'i', 'n', 'g'];
    let d = seq!['D', 'a', 'r', 'k', 'n', 'e', 's', 's'];
    let m = seq!['M', 'e', 't', 'a', 'l'];
    assert(e == g || e == f || e == w || e == l || e == p || e == fi || e == d || e == m);
    assert(e.len() > 0);
    assert(no_ws(e));
    assert(!e.contains(','));
    lemma_trim_plain(e);
}

/// What the identifier of a `gym_id` splits into.
proof fn lemma_gym_id_parts(k: Seq<char>)
    requires
        gym_id(k),
    ensures
        ({
            let d = last_dash(k);
            &&& k == k.take(d) + seq!['-'] + k.skip(d + 1)
            &&& k.take(d).len() > 0
            &&& no_ws(k.take(d))
            &&& k.skip(d + 1).len() > 0
            &&& no_ws(k.skip(d + 1))
            &&& split_id(k) == Ok::<(Seq<char>, Seq<char>), Seq<char>>((k.take(d), k.skip(d + 1)))
        }),
{
    let d = last_dash(k);
    lemma_last_dash_bounds(k);
    assert(k =~= k.take(d) + seq!['-'] + k.skip(d + 1));
    assert forall|i: int| 0 <= i < k.take(d).len() implies !is_ws(#[trigger] k.take(d)[i]) by {
        assert(k.take(d)[i] == k[i]);
    }
    assert forall|i: int| 0 <= i < k.skip(d + 1).len() implies !is_ws(#[trigger] k.skip(d + 1)[i]) by {
        assert(k.skip(d + 1)[i] == k[d + 1 + i]);
    }
    assert(k.last() == k[k.len() - 1]);
    lemma_trim_plain(k);
    lemma_words_append(Seq::<char>::empty(), k);
    assert(Seq::<char>::empty() + k =~= k);
    assert(words(Seq::<char>::empty()) =~= Seq::<Seq<char>>::empty());
    assert(words(k).len() == 1);
}

/// The line of a `gym_id` entry is what DeckGym text holds for it, holds no
/// newline, and reads back as that many copies of that card.
proof fn lemma_gym_line_reads(e: (CardId, u8), st: TextState)
    requires
        gym_id(e.0.0@),
    ensures
        card_line(e) == Ok::<Seq<char>, Seq<char>>(gym_line(e)),
        !gym_line(e).contains('\n'),
        apply_line(trim(gym_line(e)), st) == Ok::<TextState, TextIssue>(
            (
                st.0.insert(
                    e.0.0@,
                    (if st.0.contains_key(e.0.0@) {
                        st.0[e.0.0@]
                    } else {
                        0
                    }) + e.1,
                ),
                st.1,
            ),
        ),
{
    let k = e.0.0@;
    let d = last_dash(k);
    let set = k.take(d);
    let num = k.skip(d + 1);
    lemma_gym_id_parts(k);
    let dec = decimal(e.1 as nat);
    lemma_decimal(e.1 as nat);
    let line = gym_line(e);
    let sp = seq![' '];
    assert(line == dec + sp + set + sp + num);
    assert(line[0] == dec[0]);
    assert(is_digit(dec[0]));
    assert(line.last() == num.last());
    assert(!is_ws(num[num.len() - 1]));
    lemma_trim_plain(line);
    assert(trim(line) == line);
    lemma_words_append(Seq::<char>::empty(), dec);
    assert(Seq::<char>::empty() + dec =~= dec);
    assert(words(Seq::<char>::empty()) =~= Seq::<Seq<char>>::empty());
    lemma_words_space(dec);
    assert(dec + sp =~= dec.push(' '));
    lemma_words_append(dec + sp, set);
    lemma_words_space(dec + sp + set);
    assert(dec + sp + set + sp =~= (dec + sp + set).push(' '));
    lemma_words_append(dec + sp + set + sp, num);
    assert(words(line) =~= seq![dec, set, num]);
    assert(!is_skipped_line(line)) by {
        assert(lit_pokemon_accented()[0] == 'P');
        assert(lit_pokemon()[0] == 'P');
        assert(lit_trainer()[0] == 'T');
        if has_prefix(line, lit_pokemon_accented()) {
            assert(line.take(8)[0] == line[0]);
        }
        if has_prefix(line, lit_pokemon()) {
            assert(line.take(8)[0] == line[0]);
        }
        if has_prefix(line, lit_trainer()) {
            assert(line.take(8)[0] == line[0]);
        }
    }
    assert(!has_prefix(line, lit_energy())) by {
        assert(lit_energy()[0] == 'E');
        if has_prefix(line, lit_energy()) {
            assert(line.take(7)[0] == line[0]);
        }
    }
    assert(parse_u8_spec(dec) == Some(e.1));
    assert(card_line_id(words(line)) =~= k);
    lemma_no_ws_lacks(dec, '\n');
    lemma_no_ws_lacks(set, '\n');
    lemma_no_ws_lacks(num, '\n');
    assert(!sp.contains('\n')) by {
        if sp.contains('\n') {
            let i = choose|i: int| 0 <= i < sp.len() && sp[i] == '\n';
            assert(sp[0] == ' ');
        }
    }
    lemma_concat_lacks(dec, sp, '\n');
    lemma_concat_lacks(dec + sp, set, '\n');
    lemma_concat_lacks(dec + sp + set, sp, '\n');
    lemma_concat_lacks(dec + sp + set + sp, num, '\n');
}


/// The energy line of canonical types holds no newline and reads back as
/// those types.
proof fn lemma_energy_line_reads(energies: Seq<String>, st: TextState)
    requires
        energies.len() > 0,
        forall|i: int| 0 <= i < energies.len() ==> canonical_energy(#[trigger] energies[i]@),
    ensures
        !energy_line(texts(energies)).contains('\n'),
        apply_line(trim(energy_line(texts(energies))), st) == Ok::<TextState, TextIssue>(
            (st.0, Some(string_set(energies))),
        ),
{
    let es = texts(energies);
    assert forall|i: int| 0 <= i < es.len() implies {
        &&& (#[trigger] es[i]).len() > 0
        &&& no_ws(es[i])
        &&& !es[i].contains(',')
        &&& deckgym_energy(es[i]) == es[i]
        &&& normalized_energy(es[i]) == es[i]
    } by {
        assert(es[i] == energies[i]@);
        lemma_canonical_energy(es[i]);
    }
    assert(es.map_values(|e: Seq<char>| deckgym_energy(e)) =~= es);
    let sep = seq![',', ' '];
    let j = join(es, sep);
    let head = seq!['E', 'n', 'e', 'r', 'g', 'y', ':', ' '];
    let line = energy_line(es);
    assert(line == head + j);
    assert(es.last() == es[es.len() - 1]);
    lemma_join_last(es, sep);
    assert(line.last() == j.last());
    assert(es.last().last() == es.last()[es.last().len() - 1]);
    assert(line[0] == 'E');
    lemma_trim_plain(line);
    assert(!is_skipped_line(line)) by {
        assert(lit_pokemon_accented()[0] == 'P');
        assert(lit_pokemon()[0] == 'P');
        assert(lit_trainer()[0] == 'T');
        if has_prefix(line, lit_pokemon_accented()) {
            assert(line.take(8)[0] == line[0]);
        }
        if has_prefix(line, lit_pokemon()) {
            assert(line.take(8)[0] == line[0]);
        }
        if has_prefix(line, lit_trainer()) {
            assert(line.take(8)[0] == line[0]);
        }
    }
    assert(line.take(7) =~= lit_energy());
    assert(has_prefix(line, lit_energy()));
    assert(line.skip(7) =~= seq![' '] + j);
    lemma_join_spaced(es);
    let spaced = es.map_values(|e: Seq<char>| seq![' '] + e);
    assert forall|i: int| 0 <= i < spaced.len() implies !(#[trigger] spaced[i]).contains(',') by {
        assert(spaced[i] == seq![' '] + es[i]);
        assert(!seq![' '].contains(',')) by {
            if seq![' '].contains(',') {
                let q = choose|q: int| 0 <= q < 1 && seq![' '][q] == ',';
            }
        }
        lemma_concat_lacks(seq![' '], es[i], ',');
    }
    lemma_split_join(spaced, ',');
    assert(split_on(line.skip(7), ',') == spaced);
    assert forall|q: int| 0 <= q < spaced.len() implies trim(#[trigger] spaced[q]) == es[q] by {
        assert(spaced[q] == seq![' '] + es[q]);
        assert(es[q].last() == es[q][es[q].len() - 1]);
        lemma_trim_space(es[q]);
    }
    assert(energies_listed(spaced) =~= string_set(energies)) by {
        assert forall|x: Seq<char>| #[trigger] energies_listed(spaced).contains(x) == string_set(
            energies,
        ).contains(x) by {
            if energies_listed(spaced).contains(x) {
                let q = choose|q: int|
                    0 <= q < spaced.len() && trim(#[trigger] spaced[q]).len() > 0
                        && normalized_energy(trim(spaced[q])) == x;
                assert(energies[q].key_of() == x);
                assert(has_key(energies, x));
            }
            if string_set(energies).contains(x) {
                assert(has_key(energies, x));
                let i = choose|i: int| 0 <= i < energies.len() && #[trigger] energies[i].key_of() == x;
                assert(es[i] == energies[i]@);
                assert(trim(spaced[i]) == es[i]);
            }
        }
    }
    assert(string_set(energies).contains(es[0])) by {
        assert(energies[0].key_of() == es[0]);
    }
    assert(string_set(energies) != Set::<Seq<char>>::empty()) by {
        assert(!Set::<Seq<char>>::empty().contains(es[0]));
    }
    assert forall|i: int| 0 <= i < es.len() implies !(#[trigger] es[i]).contains('\n') by {
        lemma_no_ws_lacks(es[i], '\n');
    }
    assert(!sep.contains('\n')) by {
        if sep.contains('\n') {
            let q = choose|q: int| 0 <= q < sep.len() && sep[q] == '\n';
            assert(q == 0 || q == 1);
        }
    }
    lemma_join_lacks(es, sep, '\n');
    assert(!head.contains('\n')) by {
        if head.contains('\n') {
            let q = choose|q: int| 0 <= q < head.len() && head[q] == '\n';
            assert(0 <= q < 8);
        }
    }
    lemma_concat_lacks(head, j, '\n');
}

/// The DeckGym lines of entries whose identifiers are `gym_id`s.
proof fn lemma_card_lines_gym(s: Seq<(CardId, u8)>)
    requires
        forall|i: int| 0 <= i < s.len() ==> gym_id(#[trigger] s[i].0.0@),
    ensures
        card_lines(s) == Ok::<Seq<Seq<char>>, Seq<char>>(gym_lines(s)),
    decreases s.len(),
{
    if s.len() > 0 {
        let front = s.drop_last();
        assert forall|i: int| 0 <= i < front.len() implies gym_id(#[trigger] front[i].0.0@) by {
            assert(front[i] == s[i]);
        }
        lemma_card_lines_gym(front);
        assert(s.last() == s[s.len() - 1]);
        lemma_gym_line_reads(s.last(), (Map::empty(), None));
        assert(gym_lines(s) =~= gym_lines(front).push(gym_line(s.last())));
    } else {
        assert(gym_lines(s) =~= Seq::<Seq<char>>::empty());
    }
}

/// Reading the energy line and then the first `i` card lines gives the counts
/// of the first `i` entries.
proof fn lemma_read_prefix(s: Seq<(CardId, u8)>, head: Seq<char>, es: Set<Seq<char>>, i: int)
    requires
        keys_sorted(s),
        forall|j: int| 0 <= j < s.len() ==> gym_id(#[trigger] s[j].0.0@),
        apply_line(trim(head), (Map::<Seq<char>, int>::empty(), None::<Set<Seq<char>>>))
            == Ok::<TextState, TextIssue>((Map::<Seq<char>, int>::empty(), Some(es))),
        0 <= i <= s.len(),
    ensures
        parse_lines(seq![head] + gym_lines(s).take(i)) == Ok::<TextState, TextIssue>(
            (int_counts(s.take(i)), Some(es)),
        ),
    decreases i,
{
    let ls = seq![head] + gym_lines(s).take(i);
    if i == 0 {
        assert(ls =~= seq![head]);
        assert(ls.drop_last() =~= Seq::<Seq<char>>::empty());
        assert(ls.last() == head);
        assert(parse_lines(ls.drop_last()) == Ok::<TextState, TextIssue>(
            (Map::<Seq<char>, int>::empty(), None::<Set<Seq<char>>>),
        ));
        assert(int_counts(s.take(0)) =~= Map::<Seq<char>, int>::empty()) by {
            assert forall|k: Seq<char>| !#[trigger] key_map(s.take(0)).contains_key(k) by {}
        }
    } else {
        lemma_read_prefix(s, head, es, i - 1);
        assert(ls.drop_last() =~= seq![head] + gym_lines(s).take(i - 1));
        assert(ls.last() == gym_line(s[i - 1]));
        let t = s.take(i - 1);
        let x = s[i - 1];
        assert(t.insert(i - 1, x) =~= s.take(i));
        assert forall|a: int| 0 <= a < i - 1 implies crate::text::seq_lt(
            #[trigger] t[a].key_of(),
            x.key_of(),
        ) by {
            assert(t[a] == s[a]);
        }
        assert(keys_sorted(t)) by {
            assert forall|a: int, b: int| 0 <= a < b < t.len() implies crate::text::seq_lt(
                #[trigger] t[a].key_of(),
                #[trigger] t[b].key_of(),
            ) by {
                assert(t[a] == s[a] && t[b] == s[b]);
            }
        }
        lemma_sorted_insert(t, i - 1, x);
        assert(!int_counts(t).contains_key(x.0.0@));
        lemma_gym_line_reads(x, (int_counts(t), Some(es)));
        assert(int_counts(s.take(i)) =~= int_counts(t).insert(x.0.0@, x.1 as int));
        assert(parse_lines(ls) == apply_line(trim(gym_line(x)), (int_counts(t), Some(es))));
    }
}

/// DeckGym text reads back as the deck it was written from, with the same
/// copies of each card and the same Energy Zone, for a deck whose cards are
/// named `SET-NUMBER` with a normalized number and whose Energy Zone types are
/// present and spelled canonically; and reading it keeps every count in range.
pub proof fn law_deckgym_text_reads_back(d: Deck)
    requires
        d.inv(),
        d.energies().len() > 0,
        forall|i: int| 0 <= i < d.entries().len() ==> gym_id(#[trigger] d.entries()[i].0.0@),
        forall|i: int| 0 <= i < d.energies().len() ==> canonical_energy(#[trigger] d.energies()[i]@),
    ensures
        deckgym_text(d.entries(), texts(d.energies())) matches Ok(text) && counts_fit(text)
            && parse_lines(split_on(text, '\n')) == Ok::<TextState, TextIssue>(
            (int_counts(d.entries()), Some(d.energy_set())),
        ),
{
    d.lemma_inv();
    let s = d.entries();
    let es = texts(d.energies());
    let head = energy_line(es);
    let empty_state: TextState = (Map::<Seq<char>, int>::empty(), None::<Set<Seq<char>>>);
    lemma_energy_line_reads(d.energies(), empty_state);
    lemma_card_lines_gym(s);
    let lines = seq![head] + gym_lines(s);
    let text = join(lines, seq!['\n']);
    assert(deckgym_text(s, es) == Ok::<Seq<char>, Seq<char>>(text));
    assert forall|i: int| 0 <= i < lines.len() implies !(#[trigger] lines[i]).contains('\n') by {
        if i > 0 {
            assert(lines[i] == gym_line(s[i - 1]));
            lemma_gym_line_reads(s[i - 1], empty_state);
        }
    }
    lemma_split_join(lines, '\n');
    lemma_read_prefix(s, head, d.energy_set(), s.len() as int);
    assert(gym_lines(s).take(s.len() as int) =~= gym_lines(s));
    assert(s.take(s.len() as int) =~= s);
    assert(counts_fit(text)) by {
        assert forall|i: int| 0 <= i <= lines.len() implies #[trigger] counts_in_range(
            parse_lines(lines.take(i)),
        ) by {
            if i > 0 {
                assert(lines.take(i) =~= seq![head] + gym_lines(s).take(i - 1));
                lemma_read_prefix(s, head, d.energy_set(), i - 1);
            } else {
                assert(lines.take(0) =~= Seq::<Seq<char>>::empty());
            }
        }
    }
}

} // verus!
