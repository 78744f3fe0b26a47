//! Matchup results, simulation arenas, and the deterministic mock arena.

use vstd::arithmetic::div_mod::{
    lemma_mod_multiples_vanish, lemma_mul_mod_noop_left, lemma_small_mod,
};
use vstd::arithmetic::mul::lemma_mul_is_associative;
use vstd::prelude::*;
use vstd::string::StringSliceAdditionalSpecFns;
use vstd::utf8::encode_utf8;

use crate::domain::{canonical_text, Deck};

verus! {

/// The outcome of a batch of games between deck A and deck B.
#[derive(Clone, Copy, Debug, PartialEq, Eq, Structural)]
pub struct MatchupResult {
    pub games: u64,
    pub wins_a: u64,
    pub wins_b: u64,
    pub draws: u64,
}

impl Default for MatchupResult {
    fn default() -> (r: MatchupResult)
        ensures
            r == (MatchupResult { games: 0, wins_a: 0, wins_b: 0, draws: 0 }),
    {
        MatchupResult { games: 0, wins_a: 0, wins_b: 0, draws: 0 }
    }
}

/// The two batches taken together.
pub open spec fn merged_result(a: MatchupResult, b: MatchupResult) -> MatchupResult {
    MatchupResult {
        games: (a.games + b.games) as u64,
        wins_a: (a.wins_a + b.wins_a) as u64,
        wins_b: (a.wins_b + b.wins_b) as u64,
        draws: (a.draws + b.draws) as u64,
    }
}

/// Adding the counts of two batches does not overflow.
pub open spec fn can_merge(a: MatchupResult, b: MatchupResult) -> bool {
    &&& a.games + b.games <= u64::MAX
    &&& a.wins_a + b.wins_a <= u64::MAX
    &&& a.wins_b + b.wins_b <= u64::MAX
    &&& a.draws + b.draws <= u64::MAX
}

impl MatchupResult {
    /// Whether the counts of both batches add up without overflow, as
    /// `merged` needs.
    pub fn can_merge_with(&self, other: &Self) -> (r: bool)
        ensures
            r == can_merge(*self, *other),
    {
        self.games <= u64::MAX - other.games && self.wins_a <= u64::MAX - other.wins_a
            && self.wins_b <= u64::MAX - other.wins_b && self.draws <= u64::MAX - other.draws
    }

    /// Both batches together: each count is the sum of the two.
    pub fn merged(&self, other: &Self) -> (r: Self)
        requires
            can_merge(*self, *other),
        ensures
            r == merged_result(*self, *other),
    {
        MatchupResult {
            games: self.games + other.games,
            wins_a: self.wins_a + other.wins_a,
            wins_b: self.wins_b + other.wins_b,
            draws: self.draws + other.draws,
        }
    }
}

/// Plays batches of games between two decks.
///
/// A deterministic arena treats `seed` as the first seed of a contiguous game
/// stream: `n` games from seed `s`, then `m` games from `s + n`, are the same
/// as `n + m` games from `s`. The matchup cache relies on this to play only
/// the games it lacks.
pub trait SimulationArena {
    fn simulate(&self, deck_a: &Deck, deck_b: &Deck, games: u32, seed: u64) -> MatchupResult;
}

/// The SplitMix64 finalizer.
pub open spec fn splitmix64_spec(x: u64) -> u64 {
    let x1 = x.wrapping_add(0x9e3779b97f4a7c15);
    let x2 = (x1 ^ (x1 >> 30u64)).wrapping_mul(0xbf58476d1ce4e5b9);
    let x3 = (x2 ^ (x2 >> 27u64)).wrapping_mul(0x94d049bb133111eb);
    x3 ^ (x3 >> 31u64)
}

/// Multiplying by `c` modulo 2^64 is undone by multiplying by `inv`, its
/// inverse modulo 2^64.
proof fn lemma_wrapping_mul_undone(x: u64, c: u64, inv: u64, k: int)
    requires
        k >= 0,
        c as int * inv as int == k * 0x1_0000_0000_0000_0000 + 1,
    ensures
        x.wrapping_mul(c).wrapping_mul(inv) == x,
{
    let m: int = 0x1_0000_0000_0000_0000;
    let a: int = x as int * c as int;
    let r: int = a % m;
    assert(x.wrapping_mul(c) as int == r);
    lemma_mul_mod_noop_left(a, inv as int, m);
    lemma_mul_is_associative(x as int, c as int, inv as int);
    assert(a * inv == x * (k * m + 1));
    assert(x * (k * m + 1) == m * (x * k) + x) by (nonlinear_arith);
    lemma_mod_multiples_vanish(x * k, x as int, m);
    lemma_small_mod(x as nat, m as nat);
    assert(x.wrapping_mul(c).wrapping_mul(inv) as int == (r * inv) % m);
}

/// Different inputs mix to different values: every step of SplitMix64 can be undone.
pub proof fn lemma_splitmix64_injective(x: u64, y: u64)
    requires
        x != y,
    ensures
        splitmix64_spec(x) != splitmix64_spec(y),
{
    let x1 = x.wrapping_add(0x9e3779b97f4a7c15);
    let y1 = y.wrapping_add(0x9e3779b97f4a7c15);
    assert(x1 != y1);
    let a1 = x1 ^ (x1 >> 30u64);
    let b1 = y1 ^ (y1 >> 30u64);
    assert(a1 != b1) by (bit_vector)
        requires
            x1 != y1,
            a1 == x1 ^ (x1 >> 30u64),
            b1 == y1 ^ (y1 >> 30u64),
    ;
    let x2 = a1.wrapping_mul(0xbf58476d1ce4e5b9);
    let y2 = b1.wrapping_mul(0xbf58476d1ce4e5b9);
    lemma_wrapping_mul_undone(a1, 0xbf58476d1ce4e5b9, 0x96de1b173f119089, 0x70c3bca78f27f46c);
    lemma_wrapping_mul_undone(b1, 0xbf58476d1ce4e5b9, 0x96de1b173f119089, 0x70c3bca78f27f46c);
    assert(x2 != y2);
    let a2 = x2 ^ (x2 >> 27u64);
    let b2 = y2 ^ (y2 >> 27u64);
    assert(a2 != b2) by (bit_vector)
        requires
            x2 != y2,
            a2 == x2 ^ (x2 >> 27u64),
            b2 == y2 ^ (y2 >> 27u64),
    ;
    let x3 = a2.wrapping_mul(0x94d049bb133111eb);
    let y3 = b2.wrapping_mul(0x94d049bb133111eb);
    lemma_wrapping_mul_undone(a2, 0x94d049bb133111eb, 0x319642b2d24d8ec3, 0x1cd336eda85f1453);
    lemma_wrapping_mul_undone(b2, 0x94d049bb133111eb, 0x319642b2d24d8ec3, 0x1cd336eda85f1453);
    assert(x3 != y3);
    let a3 = x3 ^ (x3 >> 31u64);
    let b3 = y3 ^ (y3 >> 31u64);
    assert(a3 != b3) by (bit_vector)
        requires
            x3 != y3,
            a3 == x3 ^ (x3 >> 31u64),
            b3 == y3 ^ (y3 >> 31u64),
    ;
}

/// Mixes a seed into a well-spread 64-bit value (SplitMix64).
pub fn splitmix64(x: u64) -> (r: u64)
    ensures
        r == splitmix64_spec(x),
{
    let x1 = x.wrapping_add(0x9e3779b97f4a7c15);
    let x2 = (x1 ^ (x1 >> 30u64)).wrapping_mul(0xbf58476d1ce4e5b9);
    let x3 = (x2 ^ (x2 >> 27u64)).wrapping_mul(0x94d049bb133111eb);
    x3 ^ (x3 >> 31u64)
}

/// The 64-bit FNV-1a hash of a byte sequence.
pub open spec fn fnv1a(bytes: Seq<u8>) -> u64
    decreases bytes.len(),
{
    if bytes.len() == 0 {
        0xcbf29ce484222325
    } else {
        (fnv1a(bytes.drop_last()) ^ (bytes.last() as u64)).wrapping_mul(0x100000001b3)
    }
}

/// The FNV-1a hash of the UTF-8 encoding of a text.
pub open spec fn text_hash(t: Seq<char>) -> u64 {
    fnv1a(encode_utf8(t))
}

/// A hash of a string that does not change between runs or machines
/// (FNV-1a over its UTF-8 bytes).
pub fn stable_hash(s: &str) -> (r: u64)
    ensures
        r == text_hash(s@),
{
    let bytes = s.as_bytes();
    let mut h: u64 = 0xcbf29ce484222325;
    let mut i: usize = 0;
    assert(bytes@.take(0) =~= Seq::<u8>::empty());
    while i < bytes.len()
        invariant
            i <= bytes.len(),
            bytes@ == s.spec_bytes(),
            h == fnv1a(bytes@.take(i as int)),
        decreases bytes.len() - i,
    {
        assert(bytes@.take(i + 1).drop_last() =~= bytes@.take(i as int));
        h = (h ^ (bytes[i] as u64)).wrapping_mul(0x100000001b3);
        i = i + 1;
    }
    assert(bytes@.take(bytes.len() as int) =~= bytes@);
    h
}

/// `x` rotated left by 17 bits.
pub open spec fn rotl17(x: u64) -> u64 {
    (x << 17u64) | (x >> 47u64)
}

/// What the mock arena makes of a pair of decks.
pub open spec fn mock_matchup_hash(a: Seq<char>, b: Seq<char>) -> u64 {
    text_hash(a) ^ rotl17(text_hash(b))
}

/// Deck A wins the game played with seed `s`.
pub open spec fn mock_game_won(h: u64, s: u64) -> bool {
    splitmix64_spec(s) ^ (h & 1u64) == 0
}

/// How many of the `n` games from seed `s` on deck A wins.
pub open spec fn mock_wins(h: u64, s: u64, n: nat) -> nat
    decreases n,
{
    if n == 0 {
        0
    } else {
        mock_wins(h, s, (n - 1) as nat) + if mock_game_won(
            h,
            s.wrapping_add((n - 1) as u64),
        ) {
            1nat
        } else {
            0nat
        }
    }
}

pub proof fn lemma_mock_wins_bound(h: u64, s: u64, n: nat)
    ensures
        mock_wins(h, s, n) <= n,
    decreases n,
{
    if n > 0 {
        lemma_mock_wins_bound(h, s, (n - 1) as nat);
    }
}

/// The result of `n` games of the mock arena from seed `s`.
pub open spec fn mock_result(h: u64, s: u64, n: nat) -> MatchupResult {
    MatchupResult {
        games: n as u64,
        wins_a: mock_wins(h, s, n) as u64,
        wins_b: (n - mock_wins(h, s, n)) as u64,
        draws: 0,
    }
}

/// Seeds of a stream: stepping `n`, then `k`, is stepping `n + k`.
pub proof fn lemma_wrapping_add_assoc(s: u64, n: nat, k: nat)
    requires
        n + k <= u64::MAX,
    ensures
        s.wrapping_add(n as u64).wrapping_add(k as u64) == s.wrapping_add((n + k) as u64),
{
}

/// The mock arena's games form one stream: the wins of `n + m` games from
/// seed `s` are the wins of `n` games from `s` plus those of `m` games from `s + n`.
pub proof fn law_mock_wins_stream(h: u64, s: u64, n: nat, m: nat)
    requires
        n + m <= u64::MAX,
    ensures
        mock_wins(h, s, n + m) == mock_wins(h, s, n) + mock_wins(h, s.wrapping_add(n as u64), m),
    decreases m,
{
    if m > 0 {
        law_mock_wins_stream(h, s, n, (m - 1) as nat);
        lemma_wrapping_add_assoc(s, n, (m - 1) as nat);
        assert((n + m - 1) as nat == (n + (m - 1)) as nat);
    }
}

/// For the mock arena, `n` games from seed `s` merged with `m` games from seed
/// `s + n` are the `n + m` games from `s`: merging never overflows, and the
/// merged result is the longer stream's.
pub proof fn law_mock_stream_merge(h: u64, s: u64, n: nat, m: nat)
    requires
        n + m <= u64::MAX,
    ensures
        can_merge(mock_result(h, s, n), mock_result(h, s.wrapping_add(n as u64), m)),
        merged_result(mock_result(h, s, n), mock_result(h, s.wrapping_add(n as u64), m))
            == mock_result(h, s, n + m),
{
    law_mock_wins_stream(h, s, n, m);
    lemma_mock_wins_bound(h, s, n);
    lemma_mock_wins_bound(h, s.wrapping_add(n as u64), m);
}

/// One step of the stream contract: `n` games from `s` and then `m` games
/// from `s + n` merge, without overflow, into the `n + m` games from `s`.
pub open spec fn stream_step(stream: spec_fn(u64, nat) -> MatchupResult, s: u64, n: nat, m: nat) -> bool {
    &&& can_merge(stream(s, n), stream(s.wrapping_add(n as u64), m))
    &&& merged_result(stream(s, n), stream(s.wrapping_add(n as u64), m)) == stream(s, n + m)
}

/// The contract of a deterministic arena, over its results as a function of
/// the first seed and the number of games: every step of it holds.
pub open spec fn keeps_stream(stream: spec_fn(u64, nat) -> MatchupResult) -> bool {
    forall|s: u64, n: nat, m: nat| n + m <= u64::MAX ==> #[trigger] stream_step(stream, s, n, m)
}

/// The mock arena's results for one pair of decks, as a function of the first
/// seed and the number of games.
pub open spec fn mock_stream(h: u64) -> spec_fn(u64, nat) -> MatchupResult {
    |s: u64, n: nat| mock_result(h, s, n)
}

/// The mock arena keeps the stream contract for every pair of decks.
pub proof fn lemma_mock_keeps_stream(h: u64)
    ensures
        keeps_stream(mock_stream(h)),
{
    assert forall|s: u64, n: nat, m: nat| n + m <= u64::MAX implies #[trigger] stream_step(
        mock_stream(h),
        s,
        n,
        m,
    ) by {
        law_mock_stream_merge(h, s, n, m);
        assert(mock_stream(h)(s, n) == mock_result(h, s, n));
        assert(mock_stream(h)(s.wrapping_add(n as u64), m) == mock_result(
            h,
            s.wrapping_add(n as u64),
            m,
        ));
        assert(mock_stream(h)(s, n + m) == mock_result(h, s, n + m));
    }
}

/// A stand-in arena for testing the optimizer: deterministic, with no game engine.
pub struct DeterministicMockArena;

impl SimulationArena for DeterministicMockArena {
    fn simulate(&self, deck_a: &Deck, deck_b: &Deck, games: u32, seed: u64) -> (r: MatchupResult)
        ensures
            r == mock_result(
                mock_matchup_hash(
                    canonical_text(deck_a.entries(), deck_a.energies()),
                    canonical_text(deck_b.entries(), deck_b.energies()),
                ),
                seed,
                games as nat,
            ),
    {
        let ka = deck_a.canonical_key();
        let kb = deck_b.canonical_key();
        let hb = stable_hash(kb.as_str());
        let h = stable_hash(ka.as_str()) ^ ((hb << 17u64) | (hb >> 47u64));
        let mut wins: u64 = 0;
        let mut i: u32 = 0;
        while i < games
            invariant
                i <= games,
                wins == mock_wins(h, seed, i as nat),
                wins <= i,
            decreases games - i,
        {
            if splitmix64(seed.wrapping_add(i as u64)) ^ (h & 1u64) == 0 {
                wins = wins + 1;
            }
            i = i + 1;
        }
        MatchupResult { games: games as u64, wins_a: wins, wins_b: games as u64 - wins, draws: 0 }
    }
}

} // verus!
