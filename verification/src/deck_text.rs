//! The text format of the Limitless Pocket deck builder and DeckGym.

use vstd::prelude::*;

use crate::domain::{
    count_map, energy_or_water, inferred_energy, required_energy, sorted_set_insert, string_set,
    CardId, CardRegistry, Deck,
};
use crate::keyed::{find_slot, keys_sorted, lemma_sorted_index, sorted_upsert, Keyed};
use crate::text::{
    all_digit_chars, all_digits, ascii_lower_seq, chars_eq, chars_of, has_prefix, lower_chars,
    parse_u8_chars, parse_u8_spec, split_chars, split_on, split_words, starts_with_chars,
    string_from_chars, trim, trim_chars, views, words,
};

verus! {

/// A card number of digits only is padded with zeros to three digits
/// (`5` becomes `005`); any other number is kept as it is.
pub open spec fn normalized_number(raw: Seq<char>) -> Seq<char> {
    if all_digits(raw) && raw.len() < 3 {
        Seq::new((3 - raw.len()) as nat, |i: int| '0') + raw
    } else {
        raw
    }
}

pub fn normalize_number_chars(raw: &Vec<char>) -> (r: Vec<char>)
    ensures
        r@ == normalized_number(raw@),
{
    if all_digit_chars(raw) && raw.len() < 3 {
        let mut r: Vec<char> = Vec::new();
        let pad: usize = 3 - raw.len();
        let mut i: usize = 0;
        while i < pad
            invariant
                i <= pad,
                pad == 3 - raw.len(),
                r@ == Seq::new(i as nat, |k: int| '0'),
            decreases pad - i,
        {
            r.push('0');
            assert(r@ =~= Seq::new((i + 1) as nat, |k: int| '0'));
            i = i + 1;
        }
        crate::text::extend_chars(&mut r, raw);
        r
    } else {
        let r = crate::text::sub_chars(raw, 0, raw.len());
        assert(r@ =~= raw@);
        r
    }
}

/// Pads an all-digit card number with zeros to three digits.
pub fn normalize_card_number(raw: &str) -> (r: String)
    ensures
        r@ == normalized_number(raw@),
{
    let c = chars_of(raw);
    string_from_chars(&normalize_number_chars(&c))
}

pub open spec fn lit_grass() -> Seq<char> { seq!['g', 'r', 'a', 's', 's'] }
pub open spec fn lit_fire() -> Seq<char> { seq!['f', 'i', 'r', 'e'] }
pub open spec fn lit_water() -> Seq<char> { seq!['w', 'a', 't', 'e', 'r'] }
pub open spec fn lit_lightning() -> Seq<char> { seq!['l', 'i', 'g', 'h', 't', 'n', 'i', 'n', 'g'] }
pub open spec fn lit_electric() -> Seq<char> { seq!['e', 'l', 'e', 'c', 't', 'r', 'i', 'c'] }
pub open spec fn lit_psychic() -> Seq<char> { seq!['p', 's', 'y', 'c', 'h', 'i', 'c'] }
pub open spec fn lit_fighting() -> Seq<char> { seq!['f', 'i', 'g', 'h', 't', 'i', 'n', 'g'] }
pub open spec fn lit_dark() -> Seq<char> { seq!['d', 'a', 'r', 'k'] }
pub open spec fn lit_darkness() -> Seq<char> { seq!['d', 'a', 'r', 'k', 'n', 'e', 's', 's'] }
pub open spec fn lit_metal() -> Seq<char> { seq!['m', 'e', 't', 'a', 'l'] }

/// The canonical spelling of a lower-case energy type name, when it is one
/// (`electric` is `Lightning`, `dark` is `Darkness`).
pub open spec fn known_energy(l: Seq<char>) -> Option<Seq<char>> {
    if l == lit_grass() {
        Some(seq!['G', 'r', 'a', 's', 's'])
    } else if l == lit_fire() {
        Some(seq!['F', 'i', 'r', 'e'])
    } else if l == lit_water() {
        Some(seq!['W', 'a', 't', 'e', 'r'])
    } else if l == lit_lightning() || l == lit_electric() {
        Some(seq!['L', 'i', 'g', 'h', 't', 'n', 'i', 'n', 'g'])
    } else if l == lit_psychic() {
        Some(seq!['P', 's', 'y', 'c', 'h', 'i', 'c'])
    } else if l == lit_fighting() {
        Some(seq!['F', 'i', 'g', 'h', 't', 'i', 'n', 'g'])
    } else if l == lit_dark() || l == lit_darkness() {
        Some(seq!['D', 'a', 'r', 'k', 'n', 'e', 's', 's'])
    } else if l == lit_metal() {
        Some(seq!['M', 'e', 't', 'a', 'l'])
    } else {
        None
    }
}

pub fn known_energy_chars(l: &Vec<char>) -> (r: Option<Vec<char>>)
    ensures
        match known_energy(l@) {
            Some(x) => r matches Some(v) && v@ == x,
            None => r is None,
        },
{
    let grass = vec!['g', 'r', 'a', 's', 's'];
    let fire = vec!['f', 'i', 'r', 'e'];
    let water = vec!['w', 'a', 't', 'e', 'r'];
    let lightning = vec!['l', 'i', 'g', 'h', 't', 'n', 'i', 'n', 'g'];
    let electric = vec!['e', 'l', 'e', 'c', 't', 'r', 'i', 'c'];
    let psychic = vec!['p', 's', 'y', 'c', 'h', 'i', 'c'];
    let fighting = vec!['f', 'i', 'g', 'h', 't', 'i', 'n', 'g'];
    let dark = vec!['d', 'a', 'r', 'k'];
    let darkness = vec!['d', 'a', 'r', 'k', 'n', 'e', 's', 's'];
    let metal = vec!['m', 'e', 't', 'a', 'l'];
    assert(grass@ =~= lit_grass());
    assert(fire@ =~= lit_fire());
    assert(water@ =~= lit_water());
    assert(lightning@ =~= lit_lightning());
    assert(electric@ =~= lit_electric());
    assert(psychic@ =~= lit_psychic());
    assert(fighting@ =~= lit_fighting());
    assert(dark@ =~= lit_dark());
    assert(darkness@ =~= lit_darkness());
    assert(metal@ =~= lit_metal());
    let r = if chars_eq(l, &grass) {
        Some(vec!['G', 'r', 'a', 's', 's'])
    } else if chars_eq(l, &fire) {
        Some(vec!['F', 'i', 'r', 'e'])
    } else if chars_eq(l, &water) {
        Some(vec!['W', 'a', 't', 'e', 'r'])
    } else if chars_eq(l, &lightning) || chars_eq(l, &electric) {
        Some(vec!['L', 'i', 'g', 'h', 't', 'n', 'i', 'n', 'g'])
    } else if chars_eq(l, &psychic) {
        Some(vec!['P', 's', 'y', 'c', 'h', 'i', 'c'])
    } else if chars_eq(l, &fighting) {
        Some(vec!['F', 'i', 'g', 'h', 't', 'i', 'n', 'g'])
    } else if chars_eq(l, &dark) || chars_eq(l, &darkness) {
        Some(vec!['D', 'a', 'r', 'k', 'n', 'e', 's', 's'])
    } else if chars_eq(l, &metal) {
        Some(vec!['M', 'e', 't', 'a', 'l'])
    } else {
        None
    };
    r
}

/// The canonical spelling of an energy type, matched without regard to ASCII
/// case; an unknown type is kept in lower case.
pub open spec fn normalized_energy(raw: Seq<char>) -> Seq<char> {
    match known_energy(ascii_lower_seq(raw)) {
        Some(x) => x,
        None => ascii_lower_seq(raw),
    }
}

pub fn normalize_energy_chars(raw: &Vec<char>) -> (r: Vec<char>)
    ensures
        r@ == normalized_energy(raw@),
{
    let l = lower_chars(raw);
    match known_energy_chars(&l) {
        Some(x) => x,
        None => l,
    }
}

/// The canonical spelling of an energy type.
pub fn normalize_energy(raw: &str) -> (r: String)
    ensures
        r@ == normalized_energy(raw@),
{
    let c = chars_of(raw);
    string_from_chars(&normalize_energy_chars(&c))
}


/// Energy type names are read without regard to ASCII case, and each of the
/// eight types comes out under its own canonical spelling: `grass`, `GRASS`
/// or `Grass` is `Grass`, `electric` is `Lightning`, `dark` is `Darkness`,
/// and so on; every canonical spelling is kept as it is.
pub proof fn law_energy_names_keep_their_type(raw: Seq<char>)
    ensures
        ascii_lower_seq(raw) == seq!['g', 'r', 'a', 's', 's'] ==> normalized_energy(raw) == seq!['G', 'r', 'a', 's', 's'],
        ascii_lower_seq(raw) == seq!['f', 'i', 'r', 'e'] ==> normalized_energy(raw) == seq!['F', 'i', 'r', 'e'],
        ascii_lower_seq(raw) == seq!['w', 'a', 't', 'e', 'r'] ==> normalized_energy(raw) == seq!['W', 'a', 't', 'e', 'r'],
        ascii_lower_seq(raw) == seq!['l', 'i', 'g', 'h', 't', 'n', 'i', 'n', 'g'] ==> normalized_energy(raw) == seq!['L', 'i', 'g', 'h', 't', 'n', 'i', 'n', 'g'],
        ascii_lower_seq(raw) == seq!['e', 'l', 'e', 'c', 't', 'r', 'i', 'c'] ==> normalized_energy(raw) == seq!['L', 'i', 'g', 'h', 't', 'n', 'i', 'n', 'g'],
        ascii_lower_seq(raw) == seq!['p', 's', 'y', 'c', 'h', 'i', 'c'] ==> normalized_energy(raw) == seq!['P', 's', 'y', 'c', 'h', 'i', 'c'],
        ascii_lower_seq(raw) == seq!['f', 'i', 'g', 'h', 't', 'i', 'n', 'g'] ==> normalized_energy(raw) == seq!['F', 'i', 'g', 'h', 't', 'i', 'n', 'g'],
        ascii_lower_seq(raw) == seq!['d', 'a', 'r', 'k'] ==> normalized_energy(raw) == seq!['D', 'a', 'r', 'k', 'n', 'e', 's', 's'],
        ascii_lower_seq(raw) == seq!['d', 'a', 'r', 'k', 'n', 'e', 's', 's'] ==> normalized_energy(raw) == seq!['D', 'a', 'r', 'k', 'n', 'e', 's', 's'],
        ascii_lower_seq(raw) == seq!['m', 'e', 't', 'a', 'l'] ==> normalized_energy(raw) == seq!['M', 'e', 't', 'a', 'l'],
{
    assert(lit_grass() =~= seq!['g', 'r', 'a', 's', 's']);
    assert(lit_fire() =~= seq!['f', 'i', 'r', 'e']);
    assert(lit_water() =~= seq!['w', 'a', 't', 'e', 'r']);
    assert(lit_lightning() =~= seq!['l', 'i', 'g', 'h', 't', 'n', 'i', 'n', 'g']);
    assert(lit_electric() =~= seq!['e', 'l', 'e', 'c', 't', 'r', 'i', 'c']);
    assert(lit_psychic() =~= seq!['p', 's', 'y', 'c', 'h', 'i', 'c']);
    assert(lit_fighting() =~= seq!['f', 'i', 'g', 'h', 't', 'i', 'n', 'g']);
    assert(lit_dark() =~= seq!['d', 'a', 'r', 'k']);
    assert(lit_darkness() =~= seq!['d', 'a', 'r', 'k', 'n', 'e', 's', 's']);
    assert(lit_metal() =~= seq!['m', 'e', 't', 'a', 'l']);
}

/// The canonical spellings are kept as they are.
pub proof fn law_canonical_energy_names_are_kept()
    ensures
        normalized_energy(seq!['G', 'r', 'a', 's', 's']) == seq!['G', 'r', 'a', 's', 's'],
        normalized_energy(seq!['F', 'i', 'r', 'e']) == seq!['F', 'i', 'r', 'e'],
        normalized_energy(seq!['W', 'a', 't', 'e', 'r']) == seq!['W', 'a', 't', 'e', 'r'],
        normalized_energy(seq!['L', 'i', 'g', 'h', 't', 'n', 'i', 'n', 'g']) == seq!['L', 'i', 'g', 'h', 't', 'n', 'i', 'n', 'g'],
        normalized_energy(seq!['P', 's', 'y', 'c', 'h', 'i', 'c']) == seq!['P', 's', 'y', 'c', 'h', 'i', 'c'],
        normalized_energy(seq!['F', 'i', 'g', 'h', 't', 'i', 'n', 'g']) == seq!['F', 'i', 'g', 'h', 't', 'i', 'n', 'g'],
        normalized_energy(seq!['D', 'a', 'r', 'k', 'n', 'e', 's', 's']) == seq!['D', 'a', 'r', 'k', 'n', 'e', 's', 's'],
        normalized_energy(seq!['M', 'e', 't', 'a', 'l']) == seq!['M', 'e', 't', 'a', 'l'],
{
    assert(ascii_lower_seq(seq!['G', 'r', 'a', 's', 's']) =~= seq!['g', 'r', 'a', 's', 's']);
    law_energy_names_keep_their_type(seq!['G', 'r', 'a', 's', 's']);
    assert(ascii_lower_seq(seq!['F', 'i', 'r', 'e']) =~= seq!['f', 'i', 'r', 'e']);
    law_energy_names_keep_their_type(seq!['F', 'i', 'r', 'e']);
    assert(ascii_lower_seq(seq!['W', 'a', 't', 'e', 'r']) =~= seq!['w', 'a', 't', 'e', 'r']);
    law_energy_names_keep_their_type(seq!['W', 'a', 't', 'e', 'r']);
    assert(ascii_lower_seq(seq!['L', 'i', 'g', 'h', 't', 'n', 'i', 'n', 'g']) =~= seq!['l', 'i', 'g', 'h', 't', 'n', 'i', 'n', 'g']);
    law_energy_names_keep_their_type(seq!['L', 'i', 'g', 'h', 't', 'n', 'i', 'n', 'g']);
    assert(ascii_lower_seq(seq!['P', 's', 'y', 'c', 'h', 'i', 'c']) =~= seq!['p', 's', 'y', 'c', 'h', 'i', 'c']);
    law_energy_names_keep_their_type(seq!['P', 's', 'y', 'c', 'h', 'i', 'c']);
    assert(ascii_lower_seq(seq!['F', 'i', 'g', 'h', 't', 'i', 'n', 'g']) =~= seq!['f', 'i', 'g', 'h', 't', 'i', 'n', 'g']);
    law_energy_names_keep_their_type(seq!['F', 'i', 'g', 'h', 't', 'i', 'n', 'g']);
    assert(ascii_lower_seq(seq!['D', 'a', 'r', 'k', 'n', 'e', 's', 's']) =~= seq!['d', 'a', 'r', 'k', 'n', 'e', 's', 's']);
    law_energy_names_keep_their_type(seq!['D', 'a', 'r', 'k', 'n', 'e', 's', 's']);
    assert(ascii_lower_seq(seq!['M', 'e', 't', 'a', 'l']) =~= seq!['m', 'e', 't', 'a', 'l']);
    law_energy_names_keep_their_type(seq!['M', 'e', 't', 'a', 'l']);
}


/// Why a deck text cannot be read.
#[derive(Clone, Debug, PartialEq, Eq)]
pub enum DeckTextError {
    InvalidLine(String),
    InvalidCount(String),
    EmptyEnergy,
}

/// Why a deck text cannot be read, with texts in place of strings.
pub enum TextIssue {
    InvalidLine(Seq<char>),
    InvalidCount(Seq<char>),
    EmptyEnergy,
}

impl DeckTextError {
    pub open spec fn issue(&self) -> TextIssue {
        match self {
            DeckTextError::InvalidLine(l) => TextIssue::InvalidLine(l@),
            DeckTextError::InvalidCount(c) => TextIssue::InvalidCount(c@),
            DeckTextError::EmptyEnergy => TextIssue::EmptyEnergy,
        }
    }
}

pub open spec fn lit_pokemon_accented() -> Seq<char> { seq!['P', 'o', 'k', 'é', 'm', 'o', 'n', ':'] }
pub open spec fn lit_pokemon() -> Seq<char> { seq!['P', 'o', 'k', 'e', 'm', 'o', 'n', ':'] }
pub open spec fn lit_trainer() -> Seq<char> { seq!['T', 'r', 'a', 'i', 'n', 'e', 'r', ':'] }
pub open spec fn lit_energy() -> Seq<char> { seq!['E', 'n', 'e', 'r', 'g', 'y', ':'] }

/// A (trimmed) line that the reader passes over: empty, or a section header.
pub open spec fn is_skipped_line(t: Seq<char>) -> bool {
    ||| t.len() == 0
    ||| has_prefix(t, lit_pokemon_accented())
    ||| has_prefix(t, lit_pokemon())
    ||| has_prefix(t, lit_trainer())
}

/// The normalized energy types named by the non-blank pieces.
pub open spec fn energies_listed(pieces: Seq<Seq<char>>) -> Set<Seq<char>> {
    Set::new(
        |e: Seq<char>|
            exists|q: int|
                0 <= q < pieces.len() && trim(#[trigger] pieces[q]).len() > 0 && normalized_energy(
                    trim(pieces[q]),
                ) == e,
    )
}

/// The card identifier of a card line's words: the set code, `-`, and the
/// normalized number, taken from the last two words.
pub open spec fn card_line_id(w: Seq<Seq<char>>) -> Seq<char> {
    w[w.len() - 2] + seq!['-'] + normalized_number(w[w.len() - 1])
}

/// What reading the deck text keeps: the copies per card, and the energy
/// types of the latest `Energy:` line if there was one.
pub type TextState = (Map<Seq<char>, int>, Option<Set<Seq<char>>>);

/// The effect of one trimmed line.
pub open spec fn apply_line(t: Seq<char>, st: TextState) -> Result<TextState, TextIssue> {
    if is_skipped_line(t) {
        Ok(st)
    } else if has_prefix(t, lit_energy()) {
        let e = energies_listed(split_on(t.skip(7), ','));
        if e == Set::<Seq<char>>::empty() {
            Err(TextIssue::EmptyEnergy)
        } else {
            Ok((st.0, Some(e)))
        }
    } else {
        let w = words(t);
        if w.len() < 3 {
            Err(TextIssue::InvalidLine(t))
        } else if parse_u8_spec(w[0]) is None {
            Err(TextIssue::InvalidCount(w[0]))
        } else {
            let id = card_line_id(w);
            let c = parse_u8_spec(w[0]).unwrap() as int;
            let before = if st.0.contains_key(id) {
                st.0[id]
            } else {
                0
            };
            Ok((st.0.insert(id, before + c), st.1))
        }
    }
}

/// Reading the lines one after the other, stopping at the first that fails.
pub open spec fn parse_lines(lines: Seq<Seq<char>>) -> Result<TextState, TextIssue>
    decreases lines.len(),
{
    if lines.len() == 0 {
        Ok((Map::empty(), None))
    } else {
        match parse_lines(lines.drop_last()) {
            Err(e) => Err(e),
            Ok(st) => apply_line(trim(lines.last()), st),
        }
    }
}

/// Once a line fails, reading more lines fails the same way.
pub proof fn lemma_parse_error_persists(lines: Seq<Seq<char>>, i: int)
    requires
        0 <= i <= lines.len(),
        parse_lines(lines.take(i)) is Err,
    ensures
        parse_lines(lines) == parse_lines(lines.take(i)),
    decreases lines.len() - i,
{
    if i < lines.len() {
        assert(lines.take(i + 1).drop_last() =~= lines.take(i));
        lemma_parse_error_persists(lines, i + 1);
    } else {
        assert(lines.take(i) =~= lines);
    }
}

/// Every count is at most 255.
pub open spec fn counts_in_range(r: Result<TextState, TextIssue>) -> bool {
    r matches Ok(st) ==> forall|k: Seq<char>| #[trigger] st.0.contains_key(k) ==> st.0[k] <= 255
}

/// No count grows past 255 while the text is read (reading it would overflow).
pub open spec fn counts_fit(text: Seq<char>) -> bool {
    let lines = split_on(text, '\n');
    forall|i: int| 0 <= i <= lines.len() ==> #[trigger] counts_in_range(parse_lines(lines.take(i)))
}

/// The counts of sorted deck entries, as integers.
pub open spec fn int_counts(s: Seq<(CardId, u8)>) -> Map<Seq<char>, int> {
    count_map(s).map_values(|v: u8| v as int)
}

pub open spec fn explicit_view(e: Option<Vec<String>>) -> Option<Set<Seq<char>>> {
    match e {
        Some(v) => Some(string_set(v@)),
        None => None,
    }
}

proof fn lemma_u8_counts_in_range(entries: Vec<(CardId, u8)>, explicit: Option<Vec<String>>)
    ensures
        counts_in_range(Ok((int_counts(entries@), explicit_view(explicit)))),
{
}

/// Applies one trimmed line of deck text to the entries read so far; `Ok(false)`
/// when a count would grow past 255, leaving the entries as they were.
fn apply_deck_line(
    t: &Vec<char>,
    entries: &mut Vec<(CardId, u8)>,
    explicit: &mut Option<Vec<String>>,
) -> (r: Result<bool, DeckTextError>)
    requires
        keys_sorted(old(entries)@),
        *old(explicit) matches Some(v) ==> keys_sorted(v@),
    ensures
        keys_sorted(final(entries)@),
        *final(explicit) matches Some(v) ==> keys_sorted(v@),
        match apply_line(t@, (int_counts(old(entries)@), explicit_view(*old(explicit)))) {
            Ok(st) => if counts_in_range(Ok(st)) {
                r == Ok::<bool, DeckTextError>(true) && int_counts(final(entries)@) == st.0
                    && explicit_view(*final(explicit)) == st.1
            } else {
                r == Ok::<bool, DeckTextError>(false)
            },
            Err(issue) => r matches Err(e) && e.issue() == issue,
        },
{
    let p1 = vec!['P', 'o', 'k', 'é', 'm', 'o', 'n', ':'];
    let p2 = vec!['P', 'o', 'k', 'e', 'm', 'o', 'n', ':'];
    let p3 = vec!['T', 'r', 'a', 'i', 'n', 'e', 'r', ':'];
    let pe = vec!['E', 'n', 'e', 'r', 'g', 'y', ':'];
    assert(p1@ =~= lit_pokemon_accented());
    assert(p2@ =~= lit_pokemon());
    assert(p3@ =~= lit_trainer());
    assert(pe@ =~= lit_energy());
    if t.len() == 0 || starts_with_chars(t, &p1) || starts_with_chars(t, &p2) || starts_with_chars(
        t,
        &p3,
    ) {
        proof {
            lemma_u8_counts_in_range(*old(entries), *old(explicit));
        }
        return Ok(true);
    }
    if starts_with_chars(t, &pe) {
        let rest = crate::text::sub_chars(t, 7, t.len());
        assert(rest@ =~= t@.skip(7));
        let pieces = split_chars(&rest, ',');
        let ghost pv = views(pieces@);
        let mut set: Vec<String> = Vec::new();
        let mut j: usize = 0;
        assert(string_set(set@) =~= energies_listed(pv.take(0)));
        while j < pieces.len()
            invariant
                j <= pieces.len(),
                pv == views(pieces@),
                keys_sorted(set@),
                string_set(set@) == energies_listed(pv.take(j as int)),
            decreases pieces.len() - j,
        {
            let piece = trim_chars(&pieces[j]);
            let ghost before = string_set(set@);
            assert(pv[j as int] == pieces@[j as int]@);
            if piece.len() > 0 {
                let e = normalize_energy_chars(&piece);
                sorted_set_insert(&mut set, string_from_chars(&e));
            }
            assert forall|x: Seq<char>| #[trigger] energies_listed(pv.take(j + 1)).contains(x) == (
            before.contains(x) || (trim(pv[j as int]).len() > 0 && normalized_energy(
                trim(pv[j as int]),
            ) == x)) by {
                if energies_listed(pv.take(j + 1)).contains(x) {
                    let q = choose|q: int|
                        0 <= q < j + 1 && trim(#[trigger] pv.take(j + 1)[q]).len() > 0
                            && normalized_energy(trim(pv.take(j + 1)[q])) == x;
                    if q < j {
                        assert(pv.take(j as int)[q] == pv.take(j + 1)[q]);
                    }
                }
                if before.contains(x) {
                    let q = choose|q: int|
                        0 <= q < j && trim(#[trigger] pv.take(j as int)[q]).len() > 0
                            && normalized_energy(trim(pv.take(j as int)[q])) == x;
                    assert(pv.take(j as int)[q] == pv.take(j + 1)[q]);
                }
                if trim(pv[j as int]).len() > 0 && normalized_energy(trim(pv[j as int])) == x {
                    assert(pv.take(j + 1)[j as int] == pv[j as int]);
                }
            }
            assert(string_set(set@) =~= energies_listed(pv.take(j + 1)));
            j = j + 1;
        }
        assert(pv.take(pieces.len() as int) =~= pv);
        if set.len() == 0 {
            assert(string_set(set@) =~= Set::<Seq<char>>::empty());
            return Err(DeckTextError::EmptyEnergy);
        }
        assert(string_set(set@).contains(set@[0]@)) by {
            assert(set@[0].key_of() == set@[0]@);
            assert(crate::keyed::has_key(set@, set@[0]@));
        }
        proof {
            lemma_u8_counts_in_range(*old(entries), *old(explicit));
        }
        *explicit = Some(set);
        return Ok(true);
    }
    let w = split_words(t);
    let n = w.len();
    if n < 3 {
        return Err(DeckTextError::InvalidLine(string_from_chars(t)));
    }
    assert(views(w@)[0] == w@[0]@);
    let count = match parse_u8_chars(&w[0]) {
        Some(c) => c,
        None => {
            return Err(DeckTextError::InvalidCount(string_from_chars(&w[0])));
        },
    };
    let mut id_chars = crate::text::sub_chars(&w[n - 2], 0, w[n - 2].len());
    id_chars.push('-');
    let num = normalize_number_chars(&w[n - 1]);
    crate::text::extend_chars(&mut id_chars, &num);
    assert(views(w@)[n - 2] == w@[n - 2]@);
    assert(views(w@)[n - 1] == w@[n - 1]@);
    assert(id_chars@ =~= card_line_id(words(t@)));
    let id = string_from_chars(&id_chars);
    let (p, found) = find_slot(entries, id.as_str());
    let before: u8 = if found {
        proof {
            lemma_sorted_index(entries@, p as int);
        }
        entries[p].1
    } else {
        0
    };
    assert(int_counts(entries@).contains_key(id@) == found);
    let ghost st = apply_line(t@, (int_counts(entries@), explicit_view(*explicit)));
    assert(st matches Ok(s) && s.0.contains_key(id@));
    assert(st matches Ok(s) && s.0[id@] == before + count);
    if before as u16 + count as u16 > 255 {
        return Ok(false);
    }
    let ghost old_entries = entries@;
    sorted_upsert(entries, (CardId(id), before + count));
    assert(int_counts(entries@) =~= int_counts(old_entries).insert(id@, before + count));
    proof {
        lemma_u8_counts_in_range(*entries, *explicit);
    }
    Ok(true)
}


/// Reads a deck in the text format of the Limitless Pocket deck builder and
/// DeckGym, line by line:
/// - `2 Pikachu ex A1 96`, `2 A1 096`, `2 Poké Ball P-A 5`: a count, then
///   anything, then the set code and the card number as the last two words;
///   copies of the same card add up;
/// - `Energy: Lightning, Water`: the Energy Zone types, replacing any earlier
///   such line;
/// - blank lines and the `Pokémon:`, `Pokemon:` and `Trainer:` headers are
///   passed over.
/// Without an `Energy:` line the deck takes the types its cards require, or
/// `Water` when they require none.
pub fn parse_pocket_deck_text(text: &str, registry: &CardRegistry) -> (r: Result<
    Deck,
    DeckTextError,
>)
    requires
        counts_fit(text@),
    ensures
        match parse_lines(split_on(text@, '\n')) {
            Err(issue) => r matches Err(e) && e.issue() == issue,
            Ok(st) => r matches Ok(d) && int_counts(d.entries()) == st.0 && d.energy_set() == match st.1 {
                Some(e) => e,
                None => energy_or_water(required_energy(registry@, d.entries())),
            },
        },
{
    let chars = chars_of(text);
    let lines = split_chars(&chars, '\n');
    let ghost lv = views(lines@);
    let mut entries: Vec<(CardId, u8)> = Vec::new();
    let mut explicit: Option<Vec<String>> = None;
    let mut i: usize = 0;
    assert(int_counts(entries@) =~= Map::<Seq<char>, int>::empty());
    assert(lv.take(0) =~= Seq::<Seq<char>>::empty());
    while i < lines.len()
        invariant
            i <= lines.len(),
            lv == views(lines@),
            lv == split_on(text@, '\n'),
            counts_fit(text@),
            keys_sorted(entries@),
            explicit matches Some(v) ==> keys_sorted(v@),
            parse_lines(lv.take(i as int)) == Ok::<TextState, TextIssue>(
                (int_counts(entries@), explicit_view(explicit)),
            ),
        decreases lines.len() - i,
    {
        let t = trim_chars(&lines[i]);
        assert(lv.take(i + 1).drop_last() =~= lv.take(i as int));
        assert(lv.take(i + 1).last() == lines@[i as int]@);
        assert(counts_in_range(parse_lines(lv.take(i + 1))));
        match apply_deck_line(&t, &mut entries, &mut explicit) {
            Err(e) => {
                proof {
                    lemma_parse_error_persists(lv, i + 1);
                }
                return Err(e);
            },
            Ok(applied) => {
                assert(applied);
            },
        }
        i = i + 1;
    }
    assert(lv.take(lines.len() as int) =~= lv);
    let energy = match explicit {
        Some(v) => v,
        None => inferred_energy(registry, &entries),
    };
    Ok(Deck::from_sorted(entries, energy))
}


/// Whether reading the deck text keeps every count within 255, which
/// `parse_pocket_deck_text` needs.
pub fn deck_text_counts_fit(text: &str) -> (r: bool)
    ensures
        r == counts_fit(text@),
{
    let chars = chars_of(text);
    let lines = split_chars(&chars, '\n');
    let ghost lv = views(lines@);
    let mut entries: Vec<(CardId, u8)> = Vec::new();
    let mut explicit: Option<Vec<String>> = None;
    let mut i: usize = 0;
    assert(int_counts(entries@) =~= Map::<Seq<char>, int>::empty());
    assert(lv.take(0) =~= Seq::<Seq<char>>::empty());
    while i < lines.len()
        invariant
            i <= lines.len(),
            lv == views(lines@),
            lv == split_on(text@, '\n'),
            keys_sorted(entries@),
            explicit matches Some(v) ==> keys_sorted(v@),
            parse_lines(lv.take(i as int)) == Ok::<TextState, TextIssue>(
                (int_counts(entries@), explicit_view(explicit)),
            ),
            forall|j: int| 0 <= j <= i ==> #[trigger] counts_in_range(parse_lines(lv.take(j))),
        decreases lines.len() - i,
    {
        let t = trim_chars(&lines[i]);
        assert(lv.take(i + 1).drop_last() =~= lv.take(i as int));
        assert(lv.take(i + 1).last() == lines@[i as int]@);
        match apply_deck_line(&t, &mut entries, &mut explicit) {
            Err(e) => {
                proof {
                    assert forall|j: int| 0 <= j <= lv.len() implies #[trigger] counts_in_range(
                        parse_lines(lv.take(j)),
                    ) by {
                        if j > i + 1 {
                            assert(lv.take(j).take(i + 1) =~= lv.take(i + 1));
                            lemma_parse_error_persists(lv.take(j), i + 1);
                        } else if j == i + 1 {
                        }
                    }
                }
                return true;
            },
            Ok(applied) => {
                if !applied {
                    assert(!counts_in_range(parse_lines(lv.take(i + 1))));
                    return false;
                }
            },
        }
        assert forall|j: int| 0 <= j <= i + 1 implies #[trigger] counts_in_range(
            parse_lines(lv.take(j)),
        ) by {
            if j == i + 1 {
                lemma_u8_counts_in_range(entries, explicit);
            }
        }
        i = i + 1;
    }
    assert(lv.take(lines.len() as int) =~= lv);
    true
}

} // verus!
