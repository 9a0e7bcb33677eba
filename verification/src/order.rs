//! Ordering of text and a stable sort.
//!
//! Rust orders `String`s byte by byte over their UTF-8 encoding, which is the
//! same as ordering them character by character by code point; `lex_lt` is
//! that order.
use vstd::prelude::*;

verus! {

/// `a` comes strictly before `b` in code-point lexicographic order.
pub open spec fn lex_lt(a: Seq<char>, b: Seq<char>) -> bool
    decreases a.len(),
{
    if a.len() == 0 {
        b.len() > 0
    } else if b.len() == 0 {
        false
    } else if a[0] != b[0] {
        a[0] < b[0]
    } else {
        lex_lt(a.drop_first(), b.drop_first())
    }
}

/// Keys made of several texts, compared text by text.
pub open spec fn keys_lt(a: Seq<Seq<char>>, b: Seq<Seq<char>>) -> bool
    decreases a.len(),
{
    if a.len() == 0 {
        b.len() > 0
    } else if b.len() == 0 {
        false
    } else if a[0] != b[0] {
        lex_lt(a[0], b[0])
    } else {
        keys_lt(a.drop_first(), b.drop_first())
    }
}

/// Something with a sort key.
pub trait SortKey: Sized {
    spec fn key_view(&self) -> Seq<Seq<char>>;

    fn sort_key(&self) -> (r: Vec<Vec<char>>)
        ensures
            r.deep_view() == self.key_view(),
    ;
}

/// `a` goes strictly before `b`: by ascending key, or by descending key.
pub open spec fn goes_before<T: SortKey>(a: T, b: T, descending: bool) -> bool {
    if descending {
        keys_lt(b.key_view(), a.key_view())
    } else {
        keys_lt(a.key_view(), b.key_view())
    }
}

/// `s` with `x` put after every element that `x` does not go before, counted
/// from the back.
pub open spec fn insert_sorted<T: SortKey>(s: Seq<T>, x: T, descending: bool) -> Seq<T>
    decreases s.len(),
{
    if s.len() == 0 {
        seq![x]
    } else if goes_before(x, s.last(), descending) {
        insert_sorted(s.drop_last(), x, descending).push(s.last())
    } else {
        s.push(x)
    }
}

/// The stable sort of `s` (`slice::sort_by` with the key order): ordered by
/// key, with elements of equal keys in the order they came in.
pub open spec fn sorted_stable<T: SortKey>(s: Seq<T>, descending: bool) -> Seq<T>
    decreases s.len(),
{
    if s.len() == 0 {
        s
    } else {
        insert_sorted(sorted_stable(s.drop_last(), descending), s.last(), descending)
    }
}

/// No text comes before itself.
pub proof fn lemma_lex_irreflexive(a: Seq<char>)
    ensures
        !lex_lt(a, a),
    decreases a.len(),
{
    if a.len() > 0 {
        lemma_lex_irreflexive(a.drop_first());
    }
}

/// Of two different texts, exactly one comes first.
pub proof fn lemma_lex_total(a: Seq<char>, b: Seq<char>)
    ensures
        a != b ==> (lex_lt(a, b) || lex_lt(b, a)),
        !(lex_lt(a, b) && lex_lt(b, a)),
    decreases a.len(),
{
    if a.len() > 0 && b.len() > 0 && a[0] == b[0] {
        lemma_lex_total(a.drop_first(), b.drop_first());
        if a.drop_first() == b.drop_first() {
            assert forall|i: int| 0 <= i < a.len() implies a[i] == b[i] by {
                if i > 0 {
                    assert(a[i] == a.drop_first()[i - 1]);
                    assert(b[i] == b.drop_first()[i - 1]);
                }
            }
            assert(a =~= b);
        }
    }
    if a.len() == 0 && b.len() == 0 {
        assert(a =~= b);
    }
}

/// The order is transitive.
pub proof fn lemma_lex_transitive(a: Seq<char>, b: Seq<char>, c: Seq<char>)
    requires
        lex_lt(a, b),
        lex_lt(b, c),
    ensures
        lex_lt(a, c),
    decreases a.len(),
{
    if a.len() > 0 && b.len() > 0 && c.len() > 0 && a[0] == b[0] && b[0] == c[0] {
        lemma_lex_transitive(a.drop_first(), b.drop_first(), c.drop_first());
    }
}

proof fn lemma_keys_irreflexive(a: Seq<Seq<char>>)
    ensures
        !keys_lt(a, a),
    decreases a.len(),
{
    if a.len() > 0 {
        lemma_keys_irreflexive(a.drop_first());
    }
}

proof fn lemma_keys_total(a: Seq<Seq<char>>, b: Seq<Seq<char>>)
    ensures
        a != b ==> (keys_lt(a, b) || keys_lt(b, a)),
        !(keys_lt(a, b) && keys_lt(b, a)),
    decreases a.len(),
{
    if a.len() > 0 && b.len() > 0 {
        if a[0] == b[0] {
            lemma_keys_total(a.drop_first(), b.drop_first());
            if a.drop_first() == b.drop_first() {
                assert forall|i: int| 0 <= i < a.len() implies a[i] == b[i] by {
                    if i > 0 {
                        assert(a[i] == a.drop_first()[i - 1]);
                        assert(b[i] == b.drop_first()[i - 1]);
                    }
                }
                assert(a =~= b);
            }
        } else {
            lemma_lex_total(a[0], b[0]);
        }
    }
    if a.len() == 0 && b.len() == 0 {
        assert(a =~= b);
    }
}

proof fn lemma_keys_transitive(a: Seq<Seq<char>>, b: Seq<Seq<char>>, c: Seq<Seq<char>>)
    requires
        keys_lt(a, b),
        keys_lt(b, c),
    ensures
        keys_lt(a, c),
    decreases a.len(),
{
    if a.len() > 0 && b.len() > 0 && c.len() > 0 {
        if a[0] == b[0] && b[0] == c[0] {
            lemma_keys_transitive(a.drop_first(), b.drop_first(), c.drop_first());
        } else if a[0] == b[0] {
        } else if b[0] == c[0] {
        } else {
            lemma_lex_transitive(a[0], b[0], c[0]);
            if a[0] == c[0] {
                lemma_lex_total(a[0], b[0]);
            }
        }
    }
}

/// "Does not go before" is transitive.
proof fn lemma_not_before_transitive<T: SortKey>(a: T, b: T, c: T, descending: bool)
    requires
        !goes_before(a, b, descending),
        !goes_before(b, c, descending),
    ensures
        !goes_before(a, c, descending),
{
    if descending {
        lemma_keys_total(b.key_view(), a.key_view());
        if keys_lt(c.key_view(), a.key_view()) {
            if a.key_view() == b.key_view() {
            } else {
                lemma_keys_transitive(c.key_view(), a.key_view(), b.key_view());
            }
        }
    } else {
        lemma_keys_total(a.key_view(), b.key_view());
        if keys_lt(a.key_view(), c.key_view()) {
            if a.key_view() == b.key_view() {
            } else {
                lemma_keys_transitive(b.key_view(), a.key_view(), c.key_view());
            }
        }
    }
}

/// No element goes strictly before one that comes earlier.
pub open spec fn in_key_order<T: SortKey>(s: Seq<T>, descending: bool) -> bool {
    forall|i: int, j: int| 0 <= i < j < s.len() ==> !goes_before(#[trigger] s[j], #[trigger] s[i], descending)
}

pub proof fn lemma_insert_sorted_contents<T: SortKey>(s: Seq<T>, x: T, descending: bool)
    ensures
        insert_sorted(s, x, descending).to_multiset() == s.to_multiset().insert(x),
    decreases s.len(),
{
    broadcast use vstd::seq_lib::group_to_multiset_ensures;
    if s.len() == 0 {
        assert(seq![x] =~= s.push(x));
    } else if goes_before(x, s.last(), descending) {
        lemma_insert_sorted_contents(s.drop_last(), x, descending);
        assert(s =~= s.drop_last().push(s.last()));
        assert(s.to_multiset() == s.drop_last().to_multiset().insert(s.last()));
        assert(insert_sorted(s, x, descending).to_multiset() =~= s.to_multiset().insert(x));
    }
}

proof fn lemma_insert_sorted_in_order<T: SortKey>(s: Seq<T>, x: T, descending: bool)
    requires
        in_key_order(s, descending),
    ensures
        in_key_order(insert_sorted(s, x, descending), descending),
    decreases s.len(),
{
    broadcast use vstd::seq_lib::group_to_multiset_ensures;
    if s.len() == 0 {
    } else if goes_before(x, s.last(), descending) {
        let d = s.drop_last();
        let last = s.last();
        lemma_insert_sorted_in_order(d, x, descending);
        lemma_insert_sorted_contents(d, x, descending);
        let ins = insert_sorted(d, x, descending);
        let r = ins.push(last);
        assert forall|i: int, j: int| 0 <= i < j < r.len() implies !goes_before(#[trigger] r[j], #[trigger] r[i], descending) by {
            if j == r.len() - 1 {
                let y = ins[i];
                assert(ins.to_multiset().count(y) > 0);
                if y == x {
                    if descending {
                        lemma_keys_total(last.key_view(), x.key_view());
                    } else {
                        lemma_keys_total(x.key_view(), last.key_view());
                    }
                } else {
                    assert(d.to_multiset().count(y) > 0);
                    assert(d.contains(y));
                    let k = choose|k: int| 0 <= k < d.len() && d[k] == y;
                    assert(s[k] == y);
                    assert(!goes_before(s[s.len() - 1], s[k], descending));
                }
            }
        }
    } else {
        let r = s.push(x);
        assert forall|i: int, j: int| 0 <= i < j < r.len() implies !goes_before(#[trigger] r[j], #[trigger] r[i], descending) by {
            if j == r.len() - 1 && i < s.len() - 1 {
                assert(!goes_before(s[s.len() - 1], s[i], descending));
                lemma_not_before_transitive(x, s[s.len() - 1], s[i], descending);
            }
        }
    }
}

/// The stable sort puts its elements in key order.
pub proof fn law_sorted_stable_in_order<T: SortKey>(s: Seq<T>, descending: bool)
    ensures
        in_key_order(sorted_stable(s, descending), descending),
    decreases s.len(),
{
    if s.len() > 0 {
        law_sorted_stable_in_order(s.drop_last(), descending);
        lemma_insert_sorted_in_order(sorted_stable(s.drop_last(), descending), s.last(), descending);
    }
}

/// The stable sort keeps its elements: the same ones, as often.
pub proof fn law_sorted_stable_permutes<T: SortKey>(s: Seq<T>, descending: bool)
    ensures
        sorted_stable(s, descending).to_multiset() == s.to_multiset(),
    decreases s.len(),
{
    broadcast use vstd::seq_lib::group_to_multiset_ensures;
    if s.len() > 0 {
        law_sorted_stable_permutes(s.drop_last(), descending);
        lemma_insert_sorted_contents(sorted_stable(s.drop_last(), descending), s.last(), descending);
        assert(s =~= s.drop_last().push(s.last()));
    }
}

/// The elements of `s` whose key is `k`, in their order.
pub open spec fn with_key<T: SortKey>(s: Seq<T>, k: Seq<Seq<char>>) -> Seq<T>
    decreases s.len(),
{
    if s.len() == 0 {
        Seq::empty()
    } else if s.last().key_view() == k {
        with_key(s.drop_last(), k).push(s.last())
    } else {
        with_key(s.drop_last(), k)
    }
}

proof fn lemma_insert_sorted_with_key<T: SortKey>(s: Seq<T>, x: T, descending: bool, k: Seq<Seq<char>>)
    ensures
        with_key(insert_sorted(s, x, descending), k) == if x.key_view() == k {
            with_key(s, k).push(x)
        } else {
            with_key(s, k)
        },
    decreases s.len(),
{
    if s.len() == 0 {
        assert(seq![x].drop_last() =~= Seq::<T>::empty());
        assert(seq![x].last() == x);
        assert(with_key(seq![x].drop_last(), k) =~= Seq::<T>::empty());
        assert(with_key(s, k) =~= Seq::<T>::empty());
        assert(Seq::<T>::empty().push(x) =~= seq![x]);
    } else if goes_before(x, s.last(), descending) {
        let d = s.drop_last();
        let last = s.last();
        lemma_insert_sorted_with_key(d, x, descending, k);
        let ins = insert_sorted(d, x, descending);
        let r = ins.push(last);
        assert(insert_sorted(s, x, descending) == r);
        assert(r.drop_last() =~= ins);
        assert(r.last() == last);
        lemma_keys_irreflexive(x.key_view());
        assert(x.key_view() != last.key_view());
        if last.key_view() == k {
            assert(with_key(r, k) == with_key(ins, k).push(last));
            assert(with_key(s, k) == with_key(d, k).push(last));
        } else {
            assert(with_key(r, k) == with_key(ins, k));
            assert(with_key(s, k) == with_key(d, k));
            if x.key_view() == k {
                assert(with_key(r, k) =~= with_key(s, k).push(x));
            }
        }
    } else {
        assert(s.push(x).drop_last() =~= s);
        assert(s.push(x).last() == x);
        assert(insert_sorted(s, x, descending) == s.push(x));
    }
}

/// The stable sort keeps elements of equal keys in the order they came in.
pub proof fn law_sorted_stable_keeps_ties_in_order<T: SortKey>(s: Seq<T>, descending: bool, k: Seq<Seq<char>>)
    ensures
        with_key(sorted_stable(s, descending), k) == with_key(s, k),
    decreases s.len(),
{
    if s.len() > 0 {
        let d = s.drop_last();
        law_sorted_stable_keeps_ties_in_order(d, descending, k);
        lemma_insert_sorted_with_key(sorted_stable(d, descending), s.last(), descending, k);
    }
}

/// Every element comes strictly before the next: sorted, and nothing twice.
pub open spec fn strictly_sorted(s: Seq<Seq<char>>) -> bool {
    forall|i: int, j: int| 0 <= i < j < s.len() ==> lex_lt(#[trigger] s[i], #[trigger] s[j])
}

/// The texts of a set in ascending order, each once (what a `BTreeSet`
/// of strings yields).
pub open spec fn sorted_listing(s: Set<Seq<char>>) -> Seq<Seq<char>> {
    choose|l: Seq<Seq<char>>| strictly_sorted(l) && l.to_set() == s
}

/// Two strictly sorted sequences with the same elements are the same.
pub proof fn lemma_sorted_unique(a: Seq<Seq<char>>, b: Seq<Seq<char>>)
    requires
        strictly_sorted(a),
        strictly_sorted(b),
        a.to_set() == b.to_set(),
    ensures
        a == b,
    decreases a.len(),
{
    if a.len() == 0 {
        if b.len() > 0 {
            assert(b.to_set().contains(b[0]));
        }
        assert(a =~= b);
    } else {
        assert(a.to_set().contains(a[0]));
        assert(b.len() > 0);
        assert(b.to_set().contains(b[0]));
        let m = choose|m: int| 0 <= m < a.len() && a[m] == b[0];
        let k = choose|k: int| 0 <= k < b.len() && b[k] == a[0];
        if a[0] != b[0] {
            assert(m > 0 && k > 0);
            assert(lex_lt(a[0], a[m]));
            assert(lex_lt(b[0], b[k]));
            lemma_lex_total(a[0], b[0]);
        }
        let a2 = a.drop_first();
        let b2 = b.drop_first();
        assert forall|x: Seq<char>| a2.to_set().contains(x) <==> b2.to_set().contains(x) by {
            if a2.to_set().contains(x) {
                let i = choose|i: int| 0 <= i < a2.len() && a2[i] == x;
                assert(a[i + 1] == x);
                assert(lex_lt(a[0], a[i + 1]));
                lemma_lex_irreflexive(x);
                assert(a.to_set().contains(x));
                assert(b.to_set().contains(x));
                let j = choose|j: int| 0 <= j < b.len() && b[j] == x;
                assert(j != 0);
                assert(b2[j - 1] == x);
            }
            if b2.to_set().contains(x) {
                let i = choose|i: int| 0 <= i < b2.len() && b2[i] == x;
                assert(b[i + 1] == x);
                assert(lex_lt(b[0], b[i + 1]));
                lemma_lex_irreflexive(x);
                assert(b.to_set().contains(x));
                assert(a.to_set().contains(x));
                let j = choose|j: int| 0 <= j < a.len() && a[j] == x;
                assert(j != 0);
                assert(a2[j - 1] == x);
            }
        }
        assert(a2.to_set() =~= b2.to_set());
        lemma_sorted_unique(a2, b2);
        assert(a =~= seq![a[0]] + a2);
        assert(b =~= seq![b[0]] + b2);
    }
}

/// A strictly sorted sequence is the sorted listing of its elements.
pub proof fn lemma_sorted_listing(l: Seq<Seq<char>>)
    requires
        strictly_sorted(l),
    ensures
        sorted_listing(l.to_set()) == l,
{
    let c = sorted_listing(l.to_set());
    assert(strictly_sorted(c) && c.to_set() == l.to_set());
    lemma_sorted_unique(c, l);
}

pub fn lex_less(a: &Vec<char>, b: &Vec<char>) -> (r: bool)
    ensures
        r == lex_lt(a@, b@),
{
    let mut i: usize = 0;
    assert(a@.skip(0) =~= a@);
    assert(b@.skip(0) =~= b@);
    while i < a.len() && i < b.len() && a[i] == b[i]
        invariant
            i <= a.len(),
            i <= b.len(),
            lex_lt(a@, b@) == lex_lt(a@.skip(i as int), b@.skip(i as int)),
        decreases a.len() - i,
    {
        assert(a@.skip(i as int).drop_first() =~= a@.skip(i + 1));
        assert(b@.skip(i as int).drop_first() =~= b@.skip(i + 1));
        i = i + 1;
    }
    assert(a@.skip(i as int).len() == a@.len() - i);
    assert(b@.skip(i as int).len() == b@.len() - i);
    if i == a.len() {
        i < b.len()
    } else if i == b.len() {
        false
    } else {
        assert(a@.skip(i as int)[0] == a@[i as int]);
        assert(b@.skip(i as int)[0] == b@[i as int]);
        a[i] < b[i]
    }
}

/// `a` comes strictly before `b` (`a < b` on strings).
pub fn text_less(a: &str, b: &str) -> (r: bool)
    ensures
        r == lex_lt(a@, b@),
{
    let av = crate::text::chars_of(a);
    let bv = crate::text::chars_of(b);
    lex_less(&av, &bv)
}

pub fn keys_less(a: &Vec<Vec<char>>, b: &Vec<Vec<char>>) -> (r: bool)
    ensures
        r == keys_lt(a.deep_view(), b.deep_view()),
{
    let ghost av = a.deep_view();
    let ghost bv = b.deep_view();
    let mut i: usize = 0;
    assert(av.skip(0) =~= av);
    assert(bv.skip(0) =~= bv);
    while i < a.len() && i < b.len() && crate::text::same_chars(&a[i], &b[i])
        invariant
            av == a.deep_view(),
            bv == b.deep_view(),
            i <= a.len(),
            i <= b.len(),
            keys_lt(av, bv) == keys_lt(av.skip(i as int), bv.skip(i as int)),
        decreases a.len() - i,
    {
        assert(av.skip(i as int).drop_first() =~= av.skip(i + 1));
        assert(bv.skip(i as int).drop_first() =~= bv.skip(i + 1));
        assert(av[i as int] =~= a@[i as int]@);
        assert(bv[i as int] =~= b@[i as int]@);
        assert(av.skip(i as int)[0] == av[i as int]);
        assert(bv.skip(i as int)[0] == bv[i as int]);
        i = i + 1;
    }
    assert(av.skip(i as int).len() == av.len() - i);
    assert(bv.skip(i as int).len() == bv.len() - i);
    if i == a.len() {
        i < b.len()
    } else if i == b.len() {
        false
    } else {
        assert(av.skip(i as int)[0] == av[i as int]);
        assert(bv.skip(i as int)[0] == bv[i as int]);
        assert(av[i as int] =~= a@[i as int]@);
        assert(bv[i as int] =~= b@[i as int]@);
        lex_less(&a[i], &b[i])
    }
}

proof fn lemma_insert_at<T: SortKey>(s: Seq<T>, x: T, descending: bool, j: int)
    requires
        0 <= j <= s.len(),
        forall|k: int| j <= k < s.len() ==> goes_before(x, #[trigger] s[k], descending),
        j > 0 ==> !goes_before(x, s[j - 1], descending),
    ensures
        insert_sorted(s, x, descending) == s.insert(j, x),
    decreases s.len() - j,
{
    if s.len() == 0 {
        assert(s.insert(j, x) =~= seq![x]);
    } else if j == s.len() {
        assert(s.insert(j, x) =~= s.push(x));
    } else {
        let t = s.drop_last();
        assert(goes_before(x, s[s.len() - 1], descending));
        lemma_insert_at(t, x, descending, j);
        assert(s.insert(j, x) =~= t.insert(j, x).push(s.last()));
    }
}

/// Sorts `v` stably by key, ascending or descending.
pub fn sort_stable<T: SortKey>(v: Vec<T>, descending: bool) -> (r: Vec<T>)
    ensures
        r@ == sorted_stable(v@, descending),
{
    let mut rest = v;
    let ghost input = rest@;
    let total = rest.len();
    let mut out: Vec<T> = Vec::new();
    let mut n: usize = 0;
    while rest.len() > 0
        invariant
            n + rest@.len() == input.len(),
            input.len() == total,
            rest@ == input.skip(n as int),
            out@ == sorted_stable(input.take(n as int), descending),
        decreases rest@.len(),
    {
        let x = rest.remove(0);
        let kx = x.sort_key();
        let mut j = out.len();
        let mut moving = j > 0;
        while moving
            invariant
                j <= out.len(),
                kx.deep_view() == x.key_view(),
                moving ==> j > 0,
                forall|k: int| j <= k < out@.len() ==> goes_before(x, #[trigger] out@[k], descending),
                !moving ==> (j > 0 ==> !goes_before(x, out@[j - 1], descending)),
            decreases j + (if moving { 1int } else { 0int }),
        {
            let ky = out[j - 1].sort_key();
            let before = if descending {
                keys_less(&ky, &kx)
            } else {
                keys_less(&kx, &ky)
            };
            if before {
                j = j - 1;
                moving = j > 0;
            } else {
                moving = false;
            }
        }
        proof {
            lemma_insert_at(out@, x, descending, j as int);
            assert(input.take(n + 1).drop_last() =~= input.take(n as int));
            assert(input.take(n + 1).last() == x);
            assert(input.skip(n + 1) =~= input.skip(n as int).drop_first());
        }
        out.insert(j, x);
        n = n + 1;
    }
    assert(input.take(n as int) =~= input);
    out
}

} // verus!
