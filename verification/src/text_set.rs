//! Sets of texts kept as strictly sorted vectors: the ordered string sets
//! (`BTreeSet<String>`) of the history module, with their insert and remove.
use vstd::prelude::*;

use crate::order::{lemma_lex_irreflexive, lemma_lex_total, lemma_lex_transitive, lex_lt, strictly_sorted, text_less};
use crate::text::same_text;

verus! {

/// The texts of a list of strings.
pub open spec fn texts(v: Seq<String>) -> Seq<Seq<char>> {
    v.map_values(|s: String| s@)
}

/// Adds `s` to the strictly sorted list `set`, which stays strictly sorted
/// (`BTreeSet::insert`).
pub fn insert_text(set: &mut Vec<String>, s: String)
    requires
        strictly_sorted(texts(old(set)@)),
    ensures
        strictly_sorted(texts(final(set)@)),
        texts(final(set)@).to_set() == texts(old(set)@).to_set().insert(s@),
{
    let ghost t0 = texts(set@);
    let n = set.len();
    let mut k: usize = 0;
    while k < n && text_less(set[k].as_str(), s.as_str())
        invariant
            n == set@.len(),
            t0 == texts(set@),
            strictly_sorted(t0),
            k <= n,
            forall|j: int| 0 <= j < k ==> lex_lt(#[trigger] t0[j], s@),
        decreases n - k,
    {
        assert(t0[k as int] == set@[k as int]@);
        k = k + 1;
    }
    if k < n && same_text(set[k].as_str(), s.as_str()) {
        assert(t0[k as int] == s@);
        assert(t0.to_set() =~= t0.to_set().insert(s@));
        return;
    }
    proof {
        if k < n {
            assert(t0[k as int] == set@[k as int]@);
            lemma_lex_total(t0[k as int], s@);
        }
    }
    let ghost sv = s@;
    set.insert(k, s);
    let ghost t1 = texts(set@);
    assert(t1 =~= t0.insert(k as int, sv));
    assert forall|i: int, j: int| 0 <= i < j < t1.len() implies lex_lt(#[trigger] t1[i], #[trigger] t1[j]) by {
        if j < k {
        } else if j == k {
        } else if i < k {
            assert(lex_lt(t0[i], t0[j - 1]));
        } else if i == k {
            if j - 1 > k {
                assert(lex_lt(t0[k as int], t0[j - 1]));
                lemma_lex_transitive(sv, t0[k as int], t0[j - 1]);
            }
        } else {
            assert(lex_lt(t0[i - 1], t0[j - 1]));
        }
    }
    assert forall|x: Seq<char>| t1.to_set().contains(x) <==> t0.to_set().insert(sv).contains(x) by {
        if t1.to_set().contains(x) {
            let i = choose|i: int| 0 <= i < t1.len() && t1[i] == x;
            if i < k {
                assert(t0[i] == x);
            } else if i > k {
                assert(t0[i - 1] == x);
            }
        }
        if t0.to_set().contains(x) {
            let i = choose|i: int| 0 <= i < t0.len() && t0[i] == x;
            if i < k {
                assert(t1[i] == x);
            } else {
                assert(t1[i + 1] == x);
            }
        }
        if x == sv {
            assert(t1[k as int] == x);
        }
    }
    assert(t1.to_set() =~= t0.to_set().insert(sv));
}

/// Takes `s` out of the strictly sorted list `set` (`BTreeSet::remove`).
pub fn remove_text(set: &mut Vec<String>, s: &str)
    requires
        strictly_sorted(texts(old(set)@)),
    ensures
        strictly_sorted(texts(final(set)@)),
        texts(final(set)@).to_set() == texts(old(set)@).to_set().remove(s@),
{
    let ghost t0 = texts(set@);
    let n = set.len();
    let mut k: usize = 0;
    while k < n && !same_text(set[k].as_str(), s)
        invariant
            n == set@.len(),
            t0 == texts(set@),
            k <= n,
            forall|j: int| 0 <= j < k ==> #[trigger] t0[j] != s@,
        decreases n - k,
    {
        assert(t0[k as int] == set@[k as int]@);
        k = k + 1;
    }
    if k == n {
        assert forall|x: Seq<char>| t0.to_set().contains(x) <==> t0.to_set().remove(s@).contains(x) by {
            if t0.to_set().contains(x) {
                let i = choose|i: int| 0 <= i < t0.len() && t0[i] == x;
                assert(t0[i] != s@);
            }
        }
        assert(t0.to_set() =~= t0.to_set().remove(s@));
        return;
    }
    assert(t0[k as int] == set@[k as int]@);
    assert(t0[k as int] == s@);
    set.remove(k);
    let ghost t1 = texts(set@);
    assert(t1 =~= t0.remove(k as int));
    assert forall|i: int, j: int| 0 <= i < j < t1.len() implies lex_lt(#[trigger] t1[i], #[trigger] t1[j]) by {
        if j < k {
        } else if i < k {
            assert(lex_lt(t0[i], t0[j + 1]));
        } else {
            assert(lex_lt(t0[i + 1], t0[j + 1]));
        }
    }
    assert forall|x: Seq<char>| t1.to_set().contains(x) <==> t0.to_set().remove(s@).contains(x) by {
        if t1.to_set().contains(x) {
            let i = choose|i: int| 0 <= i < t1.len() && t1[i] == x;
            if i < k {
                assert(t0[i] == x);
                assert(lex_lt(t0[i], t0[k as int]));
                lemma_lex_irreflexive(x);
            } else {
                assert(t0[i + 1] == x);
                assert(lex_lt(t0[k as int], t0[i + 1]));
                lemma_lex_irreflexive(x);
            }
        }
        if t0.to_set().contains(x) && x != s@ {
            let i = choose|i: int| 0 <= i < t0.len() && t0[i] == x;
            if i < k {
                assert(t1[i] == x);
            } else {
                assert(i != k);
                assert(t1[i - 1] == x);
            }
        }
    }
    assert(t1.to_set() =~= t0.to_set().remove(s@));
}

} // verus!
