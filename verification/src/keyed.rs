//! Vectors kept in strictly increasing key order, standing for ordered maps and sets.

use vstd::prelude::*;

use crate::text::{
    compare_str, lemma_seq_lt_asymmetric, lemma_seq_lt_irreflexive, lemma_seq_lt_total,
    lemma_seq_lt_transitive, seq_lt, KeyOrder,
};

verus! {

/// A value that carries a textual key.
pub trait Keyed {
    spec fn key_of(&self) -> Seq<char>;

    fn key_str(&self) -> (r: &str)
        ensures
            r@ == self.key_of(),
    ;
}

impl Keyed for String {
    open spec fn key_of(&self) -> Seq<char> {
        self@
    }

    fn key_str(&self) -> (r: &str) {
        self.as_str()
    }
}

/// Keys strictly increase along `s`.
pub open spec fn keys_sorted<T: Keyed>(s: Seq<T>) -> bool {
    forall|i: int, j: int|
        0 <= i < j < s.len() ==> seq_lt(#[trigger] s[i].key_of(), #[trigger] s[j].key_of())
}

/// Some element of `s` has key `k`.
pub open spec fn has_key<T: Keyed>(s: Seq<T>, k: Seq<char>) -> bool {
    exists|i: int| 0 <= i < s.len() && #[trigger] s[i].key_of() == k
}

/// The position of an element of `s` with key `k`.
pub open spec fn key_index<T: Keyed>(s: Seq<T>, k: Seq<char>) -> int {
    choose|i: int| 0 <= i < s.len() && #[trigger] s[i].key_of() == k
}

/// The map from each key of `s` to its element.
pub open spec fn key_map<T: Keyed>(s: Seq<T>) -> Map<Seq<char>, T> {
    Map::new(|k: Seq<char>| has_key(s, k), |k: Seq<char>| s[key_index(s, k)])
}

pub proof fn lemma_sorted_index<T: Keyed>(s: Seq<T>, i: int)
    requires
        keys_sorted(s),
        0 <= i < s.len(),
    ensures
        has_key(s, s[i].key_of()),
        key_index(s, s[i].key_of()) == i,
        key_map(s).contains_key(s[i].key_of()),
        key_map(s)[s[i].key_of()] == s[i],
{
    let k = s[i].key_of();
    assert(has_key(s, k));
    let j = key_index(s, k);
    if j < i {
        assert(seq_lt(s[j].key_of(), s[i].key_of()));
        lemma_seq_lt_irreflexive(k);
    } else if j > i {
        assert(seq_lt(s[i].key_of(), s[j].key_of()));
        lemma_seq_lt_irreflexive(k);
    }
}

pub proof fn lemma_sorted_insert<T: Keyed>(s: Seq<T>, p: int, x: T)
    requires
        keys_sorted(s),
        0 <= p <= s.len(),
        forall|i: int| 0 <= i < p ==> seq_lt(#[trigger] s[i].key_of(), x.key_of()),
        forall|i: int| p <= i < s.len() ==> seq_lt(x.key_of(), #[trigger] s[i].key_of()),
    ensures
        keys_sorted(s.insert(p, x)),
        key_map(s.insert(p, x)) == key_map(s).insert(x.key_of(), x),
        !has_key(s, x.key_of()),
{
    let t = s.insert(p, x);
    assert forall|i: int, j: int| 0 <= i < j < t.len() implies seq_lt(
        #[trigger] t[i].key_of(),
        #[trigger] t[j].key_of(),
    ) by {
        if j < p {
        } else if j == p {
        } else if i < p {
            lemma_seq_lt_transitive(s[i].key_of(), x.key_of(), s[j - 1].key_of());
        } else if i == p {
        } else {
        }
    }
    if has_key(s, x.key_of()) {
        let j = key_index(s, x.key_of());
        lemma_seq_lt_irreflexive(x.key_of());
        if j < p {
            assert(seq_lt(s[j].key_of(), x.key_of()));
        } else {
            assert(seq_lt(x.key_of(), s[j].key_of()));
        }
    }
    assert forall|k: Seq<char>| #[trigger] has_key(t, k) == (has_key(s, k) || k == x.key_of()) by {
        if has_key(s, k) {
            let j = key_index(s, k);
            if j < p {
                assert(t[j] == s[j]);
            } else {
                assert(t[j + 1] == s[j]);
            }
        }
        if has_key(t, k) && k != x.key_of() {
            let j = key_index(t, k);
            if j < p {
                assert(s[j] == t[j]);
            } else {
                assert(s[j - 1] == t[j]);
            }
        }
        if k == x.key_of() {
            assert(t[p] == x);
        }
    }
    assert forall|k: Seq<char>| #[trigger] has_key(t, k) implies key_map(t)[k] == key_map(
        s,
    ).insert(x.key_of(), x)[k] by {
        let j = key_index(t, k);
        lemma_sorted_index(t, j);
        if k == x.key_of() {
            lemma_sorted_index(t, p);
        } else {
            if j < p {
                lemma_sorted_index(s, j);
            } else {
                lemma_sorted_index(s, j - 1);
            }
        }
    }
    assert(key_map(t) =~= key_map(s).insert(x.key_of(), x));
}

pub proof fn lemma_sorted_update<T: Keyed>(s: Seq<T>, p: int, x: T)
    requires
        keys_sorted(s),
        0 <= p < s.len(),
        x.key_of() == s[p].key_of(),
    ensures
        keys_sorted(s.update(p, x)),
        key_map(s.update(p, x)) == key_map(s).insert(x.key_of(), x),
{
    let t = s.update(p, x);
    assert forall|i: int, j: int| 0 <= i < j < t.len() implies seq_lt(
        #[trigger] t[i].key_of(),
        #[trigger] t[j].key_of(),
    ) by {
        assert(s[i].key_of() == t[i].key_of());
        assert(s[j].key_of() == t[j].key_of());
    }
    assert forall|k: Seq<char>| #[trigger] has_key(t, k) == has_key(s, k) by {
        if has_key(s, k) {
            let j = key_index(s, k);
            assert(t[j].key_of() == k);
        }
        if has_key(t, k) {
            let j = key_index(t, k);
            assert(s[j].key_of() == k);
        }
    }
    assert forall|k: Seq<char>| #[trigger] has_key(t, k) implies key_map(t)[k] == key_map(
        s,
    ).insert(x.key_of(), x)[k] by {
        let j = key_index(t, k);
        lemma_sorted_index(t, j);
        lemma_sorted_index(s, j);
        lemma_sorted_index(s, p);
        if j == p {
            assert(t[j] == x);
        } else {
            assert(t[j] == s[j]);
            assert(s[j].key_of() == k);
        }
    }
    lemma_sorted_index(s, p);
    assert(key_map(t) =~= key_map(s).insert(x.key_of(), x));
}

/// Two key-sorted sequences with the same keys, whose elements under each key
/// agree in what `f` makes of them, agree in what `f` makes of them in order.
pub proof fn lemma_sorted_determined<T: Keyed, V>(s: Seq<T>, t: Seq<T>, f: spec_fn(T) -> V)
    requires
        keys_sorted(s),
        keys_sorted(t),
        forall|k: Seq<char>| #[trigger] has_key(s, k) == has_key(t, k),
        forall|k: Seq<char>| #[trigger] has_key(s, k) ==> f(key_map(s)[k]) == f(key_map(t)[k]),
    ensures
        s.map_values(f) == t.map_values(f),
    decreases s.len(),
{
    if s.len() == 0 {
        if t.len() > 0 {
            lemma_sorted_index(t, 0);
            assert(has_key(s, t[0].key_of()));
        }
        assert(s.map_values(f) =~= t.map_values(f));
    } else {
        lemma_sorted_index(s, 0);
        assert(has_key(t, s[0].key_of()));
        let j = key_index(t, s[0].key_of());
        lemma_sorted_index(t, j);
        lemma_sorted_index(t, 0);
        assert(has_key(s, t[0].key_of()));
        let i = key_index(s, t[0].key_of());
        lemma_sorted_index(s, i);
        if j > 0 {
            assert(seq_lt(t[0].key_of(), t[j].key_of()));
            if i > 0 {
                assert(seq_lt(s[0].key_of(), s[i].key_of()));
                lemma_seq_lt_asymmetric(t[0].key_of(), s[0].key_of());
            } else {
                lemma_seq_lt_irreflexive(s[0].key_of());
            }
        }
        assert(j == 0);
        assert(f(t[0]) == f(s[0]));
        let s1 = s.drop_first();
        let t1 = t.drop_first();
        assert(keys_sorted(s1)) by {
            assert forall|a: int, b: int| 0 <= a < b < s1.len() implies seq_lt(
                #[trigger] s1[a].key_of(),
                #[trigger] s1[b].key_of(),
            ) by {
                assert(s1[a] == s[a + 1]);
                assert(s1[b] == s[b + 1]);
            }
        }
        assert(keys_sorted(t1)) by {
            assert forall|a: int, b: int| 0 <= a < b < t1.len() implies seq_lt(
                #[trigger] t1[a].key_of(),
                #[trigger] t1[b].key_of(),
            ) by {
                assert(t1[a] == t[a + 1]);
                assert(t1[b] == t[b + 1]);
            }
        }
        assert forall|k: Seq<char>| #[trigger] has_key(s1, k) == has_key(t1, k) by {
            if has_key(s1, k) {
                let a = key_index(s1, k);
                assert(s[a + 1].key_of() == k);
                lemma_sorted_index(s, a + 1);
                assert(has_key(t, k));
                let b = key_index(t, k);
                lemma_sorted_index(t, b);
                if b == 0 {
                    assert(seq_lt(s[0].key_of(), s[a + 1].key_of()));
                    lemma_seq_lt_irreflexive(k);
                }
                assert(t1[b - 1].key_of() == k);
            }
            if has_key(t1, k) {
                let a = key_index(t1, k);
                assert(t[a + 1].key_of() == k);
                lemma_sorted_index(t, a + 1);
                assert(has_key(s, k));
                let b = key_index(s, k);
                lemma_sorted_index(s, b);
                if b == 0 {
                    assert(seq_lt(t[0].key_of(), t[a + 1].key_of()));
                    lemma_seq_lt_irreflexive(k);
                }
                assert(s1[b - 1].key_of() == k);
            }
        }
        assert forall|k: Seq<char>| #[trigger] has_key(s1, k) implies f(key_map(s1)[k]) == f(
            key_map(t1)[k],
        ) by {
            let a = key_index(s1, k);
            lemma_sorted_index(s1, a);
            lemma_sorted_index(s, a + 1);
            let b = key_index(t1, k);
            lemma_sorted_index(t1, b);
            lemma_sorted_index(t, b + 1);
            assert(has_key(s, k));
        }
        lemma_sorted_determined(s1, t1, f);
        assert(s.map_values(f) =~= seq![f(s[0])] + s1.map_values(f));
        assert(t.map_values(f) =~= seq![f(t[0])] + t1.map_values(f));
    }
}

/// Keys present in one more element of `s`.
pub proof fn lemma_has_key_take<T: Keyed>(s: Seq<T>, j: int)
    requires
        0 <= j < s.len(),
    ensures
        forall|k: Seq<char>|
            #[trigger] has_key(s.take(j + 1), k) == (has_key(s.take(j), k) || k == s[j].key_of()),
{
    assert forall|k: Seq<char>| #[trigger] has_key(s.take(j + 1), k) == (has_key(s.take(j), k)
        || k == s[j].key_of()) by {
        if has_key(s.take(j + 1), k) {
            let a = key_index(s.take(j + 1), k);
            if a < j {
                assert(s.take(j)[a] == s[a]);
                assert(s.take(j)[a].key_of() == k);
            }
        }
        if has_key(s.take(j), k) {
            let a = key_index(s.take(j), k);
            assert(s.take(j + 1)[a] == s[a]);
            assert(s.take(j + 1)[a].key_of() == k);
        }
        if k == s[j].key_of() {
            assert(s.take(j + 1)[j] == s[j]);
            assert(s.take(j + 1)[j].key_of() == k);
        }
    }
}

/// Where `key` belongs in `v`: the first position whose key is not smaller,
/// and whether the key is already there.
pub fn find_slot<T: Keyed>(v: &Vec<T>, key: &str) -> (r: (usize, bool))
    requires
        keys_sorted(v@),
    ensures
        r.0 <= v.len(),
        forall|i: int| 0 <= i < r.0 ==> seq_lt(#[trigger] v@[i].key_of(), key@),
        r.1 ==> r.0 < v.len() && v@[r.0 as int].key_of() == key@,
        !r.1 ==> forall|i: int| r.0 <= i < v.len() ==> seq_lt(key@, #[trigger] v@[i].key_of()),
        r.1 == has_key(v@, key@),
{
    let mut i: usize = 0;
    while i < v.len()
        invariant
            i <= v.len(),
            keys_sorted(v@),
            forall|k: int| 0 <= k < i ==> seq_lt(#[trigger] v@[k].key_of(), key@),
        decreases v.len() - i,
    {
        let o = compare_str(v[i].key_str(), key);
        match o {
            KeyOrder::Less => {
                proof {
                    lemma_seq_lt_total(v@[i as int].key_of(), key@);
                }
                i = i + 1;
            },
            KeyOrder::Equal => {
                return (i, true);
            },
            KeyOrder::Greater => {
                proof {
                    lemma_seq_lt_total(v@[i as int].key_of(), key@);
                    assert forall|k: int| i <= k < v.len() implies seq_lt(
                        key@,
                        #[trigger] v@[k].key_of(),
                    ) by {
                        if k > i {
                            lemma_seq_lt_transitive(
                                key@,
                                v@[i as int].key_of(),
                                v@[k].key_of(),
                            );
                        }
                    }
                    if has_key(v@, key@) {
                        let j = key_index(v@, key@);
                        lemma_seq_lt_irreflexive(key@);
                    }
                }
                return (i, false);
            },
        }
    }
    proof {
        if has_key(v@, key@) {
            let j = key_index(v@, key@);
            lemma_seq_lt_irreflexive(key@);
        }
    }
    (i, false)
}

/// Puts `x` under its key, replacing the element that had that key.
pub fn sorted_upsert<T: Keyed>(v: &mut Vec<T>, x: T)
    requires
        keys_sorted(old(v)@),
    ensures
        keys_sorted(final(v)@),
        key_map(final(v)@) == key_map(old(v)@).insert(x.key_of(), x),
        final(v)@.len() == old(v)@.len() + if has_key(old(v)@, x.key_of()) {
            0int
        } else {
            1int
        },
{
    let (p, found) = find_slot(v, x.key_str());
    if found {
        proof {
            lemma_sorted_update(v@, p as int, x);
        }
        v.set(p, x);
    } else {
        proof {
            lemma_sorted_insert(v@, p as int, x);
        }
        v.insert(p, x);
    }
}


/// Removing an element of a key-sorted sequence keeps it sorted and drops its key.
pub proof fn lemma_sorted_remove<T: Keyed>(s: Seq<T>, p: int)
    requires
        keys_sorted(s),
        0 <= p < s.len(),
    ensures
        keys_sorted(s.remove(p)),
        key_map(s.remove(p)) == key_map(s).remove(s[p].key_of()),
{
    let t = s.remove(p);
    assert forall|i: int, j: int| 0 <= i < j < t.len() implies seq_lt(
        #[trigger] t[i].key_of(),
        #[trigger] t[j].key_of(),
    ) by {
        let i2 = if i < p {
            i
        } else {
            i + 1
        };
        let j2 = if j < p {
            j
        } else {
            j + 1
        };
        assert(t[i] == s[i2] && t[j] == s[j2]);
    }
    let k = s[p].key_of();
    lemma_sorted_index(s, p);
    assert forall|x: Seq<char>| #[trigger] has_key(t, x) == (has_key(s, x) && x != k) by {
        if has_key(t, x) {
            let j = key_index(t, x);
            let j2 = if j < p {
                j
            } else {
                j + 1
            };
            assert(t[j] == s[j2]);
            if x == k {
                lemma_sorted_index(s, j2);
            }
        }
        if has_key(s, x) && x != k {
            let j = key_index(s, x);
            if j < p {
                assert(t[j] == s[j]);
            } else {
                assert(j != p);
                assert(t[j - 1] == s[j]);
            }
        }
    }
    assert forall|x: Seq<char>| #[trigger] has_key(t, x) implies key_map(t)[x] == key_map(s)[x] by {
        let j = key_index(t, x);
        let j2 = if j < p {
            j
        } else {
            j + 1
        };
        assert(t[j] == s[j2]);
        lemma_sorted_index(s, j2);
    }
    assert(key_map(t) =~= key_map(s).remove(k));
}

} // verus!
