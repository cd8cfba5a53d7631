//! The orders every canonical listing in the crate is sorted by.
//!
//! Strings compare character by character, which is the order Rust's `str` comparison
//! gives: UTF-8 preserves code point order byte for byte.

use vstd::prelude::*;

verus! {

/// `a` sorts strictly before `b`, character by character, a proper prefix first.
pub open spec fn lex_lt(a: Seq<char>, b: Seq<char>) -> bool
    decreases a.len(),
{
    if a.len() == 0 {
        b.len() > 0
    } else if b.len() == 0 {
        false
    } else if a[0] != b[0] {
        a[0] < b[0]
    } else {
        lex_lt(a.drop_first(), b.drop_first())
    }
}


/// No string sorts before itself.
pub proof fn lemma_lex_irreflexive(a: Seq<char>)
    ensures
        !lex_lt(a, a),
    decreases a.len(),
{
    if a.len() > 0 {
        lemma_lex_irreflexive(a.drop_first());
    }
}

/// Of two different strings, one sorts before the other, and never both.
pub proof fn lemma_lex_total(a: Seq<char>, b: Seq<char>)
    ensures
        a != b ==> (lex_lt(a, b) || lex_lt(b, a)),
        !(lex_lt(a, b) && lex_lt(b, a)),
    decreases a.len(),
{
    if a.len() > 0 && b.len() > 0 && a[0] == b[0] {
        lemma_lex_total(a.drop_first(), b.drop_first());
        if a != b {
            assert(a.drop_first() != b.drop_first()) by {
                if a.drop_first() == b.drop_first() {
                    assert(a =~= seq![a[0]] + a.drop_first());
                    assert(b =~= seq![b[0]] + b.drop_first());
                }
            }
        }
    }
    if a.len() == 0 && b.len() == 0 {
        assert(a =~= b);
    }
}

/// The order is transitive.
pub proof fn lemma_lex_transitive(a: Seq<char>, b: Seq<char>, c: Seq<char>)
    requires
        lex_lt(a, b),
        lex_lt(b, c),
    ensures
        lex_lt(a, c),
    decreases a.len(),
{
    if a.len() > 0 && b.len() > 0 && c.len() > 0 && a[0] == b[0] && b[0] == c[0] {
        lemma_lex_transitive(a.drop_first(), b.drop_first(), c.drop_first());
    }
}

/// Where one value sorts relative to another.
#[derive(Debug, Clone, Copy, PartialEq, Eq, Structural)]
pub enum Placement {
    /// Strictly before.
    Before,
    /// In the same place.
    Same,
    /// Strictly after.
    After,
}

/// Where string `a` sorts relative to string `b`.
pub fn compare_text(a: &str, b: &str) -> (order: Placement)
    ensures
        order == Placement::Before <==> lex_lt(a@, b@),
        order == Placement::Same <==> a@ == b@,
        order == Placement::After <==> lex_lt(b@, a@),
{
    proof {
        lemma_lex_total(a@, b@);
        lemma_lex_irreflexive(a@);
    }
    let n = a.unicode_len();
    let m = b.unicode_len();
    let mut i: usize = 0;
    assert(a@.skip(0) =~= a@);
    assert(b@.skip(0) =~= b@);
    while i < n && i < m && a.get_char(i) == b.get_char(i)
        invariant
            n == a@.len(),
            m == b@.len(),
            i <= n,
            i <= m,
            lex_lt(a@, b@) == lex_lt(a@.skip(i as int), b@.skip(i as int)),
            lex_lt(b@, a@) == lex_lt(b@.skip(i as int), a@.skip(i as int)),
            a@.subrange(0, i as int) == b@.subrange(0, i as int),
        decreases n - i,
    {
        assert(a@.skip(i as int).drop_first() =~= a@.skip(i + 1));
        assert(b@.skip(i as int).drop_first() =~= b@.skip(i + 1));
        assert(a@.subrange(0, i + 1) =~= a@.subrange(0, i as int).push(a@[i as int]));
        assert(b@.subrange(0, i + 1) =~= b@.subrange(0, i as int).push(b@[i as int]));
        i += 1;
    }
    if i == n && i == m {
        assert(a@ =~= a@.subrange(0, i as int));
        assert(b@ =~= b@.subrange(0, i as int));
        Placement::Same
    } else if i == n {
        assert(a@.skip(i as int).len() == 0);
        assert(a@ != b@);
        Placement::Before
    } else if i == m {
        assert(b@.skip(i as int).len() == 0);
        assert(a@ != b@);
        Placement::After
    } else if a.get_char(i) < b.get_char(i) {
        assert(a@.skip(i as int)[0] == a@[i as int]);
        assert(b@.skip(i as int)[0] == b@[i as int]);
        assert(a@[i as int] != b@[i as int]);
        Placement::Before
    } else {
        assert(a@.skip(i as int)[0] == a@[i as int]);
        assert(b@.skip(i as int)[0] == b@[i as int]);
        Placement::After
    }
}

/// Pair `a` sorts strictly before pair `b`: by the first member, then the second.
pub open spec fn pair_lt(a: (usize, usize), b: (usize, usize)) -> bool {
    a.0 < b.0 || (a.0 == b.0 && a.1 < b.1)
}

/// `order` lists every position of a sequence of length `n` exactly once.
pub open spec fn is_permutation(order: Seq<usize>, n: nat) -> bool {
    &&& order.len() == n
    &&& forall|i: int| 0 <= i < order.len() ==> (#[trigger] order[i]) < n
    &&& forall|i: int, j: int| 0 <= i < j < order.len() ==> order[i] != order[j]
}

fn pair_before(a: (usize, usize), b: (usize, usize)) -> (before: bool)
    ensures
        before == pair_lt(a, b),
{
    a.0 < b.0 || (a.0 == b.0 && a.1 < b.1)
}

/// The positions of `keys`, sorted by key; equal keys keep their original order.
pub fn sort_by_pair(keys: &Vec<(usize, usize)>) -> (order: Vec<usize>)
    ensures
        is_permutation(order@, keys@.len()),
        forall|i: int, j: int| 0 <= i < j < order@.len() ==> !pair_lt(keys@[order@[j] as int], keys@[order@[i] as int]),
        forall|i: int, j: int| 0 <= i < j < order@.len() && keys@[order@[i] as int] == keys@[order@[j] as int] ==> order@[i] < order@[j],
{
    let n = keys.len();
    let mut order: Vec<usize> = Vec::new();
    for i in 0..n
        invariant
            n == keys@.len(),
            order@.len() == i,
            forall|p: int| 0 <= p < order@.len() ==> (#[trigger] order@[p]) < i,
            forall|p: int, q: int| 0 <= p < q < order@.len() ==> order@[p] != order@[q],
            forall|p: int, q: int| 0 <= p < q < order@.len() ==> !pair_lt(keys@[order@[q] as int], keys@[order@[p] as int]),
            forall|p: int, q: int| 0 <= p < q < order@.len() && keys@[order@[p] as int] == keys@[order@[q] as int] ==> order@[p] < order@[q],
    {
        let key = keys[i];
        let mut pos: usize = 0;
        while pos < i && !pair_before(key, keys[order[pos]])
            invariant
                n == keys@.len(),
                i < n,
                key == keys@[i as int],
                order@.len() == i,
                pos <= i,
                forall|p: int| 0 <= p < order@.len() ==> (#[trigger] order@[p]) < i,
                forall|p: int| 0 <= p < pos ==> !pair_lt(key, keys@[(#[trigger] order@[p]) as int]),
            decreases i - pos,
        {
            pos += 1;
        }
        let ghost before = order@;
        order.insert(pos, i);
        proof {
            assert forall|p: int, q: int| 0 <= p < q < order@.len() implies !pair_lt(keys@[order@[q] as int], keys@[order@[p] as int]) by {
                if q < pos {
                    assert(order@[p] == before[p] && order@[q] == before[q]);
                } else if q == pos {
                    assert(order@[p] == before[p]);
                } else if p == pos {
                    assert(order@[q] == before[q - 1]);
                    assert(pair_lt(key, keys@[before[pos as int] as int]));
                    if q - 1 > pos {
                        assert(!pair_lt(keys@[before[q - 1] as int], keys@[before[pos as int] as int]));
                    }
                } else if p < pos {
                    assert(order@[p] == before[p] && order@[q] == before[q - 1]);
                } else {
                    assert(order@[p] == before[p - 1] && order@[q] == before[q - 1]);
                }
            }
            assert forall|p: int, q: int| 0 <= p < q < order@.len() && keys@[order@[p] as int] == keys@[order@[q] as int] implies order@[p] < order@[q] by {
                if q < pos {
                    assert(order@[p] == before[p] && order@[q] == before[q]);
                } else if q == pos {
                    assert(order@[p] == before[p]);
                } else if p == pos {
                    assert(order@[q] == before[q - 1]);
                    assert(pair_lt(key, keys@[before[pos as int] as int]));
                    assert(!pair_lt(keys@[before[pos as int] as int], keys@[before[q - 1] as int]) || pos == q - 1);
                } else if p < pos {
                    assert(order@[p] == before[p] && order@[q] == before[q - 1]);
                } else {
                    assert(order@[p] == before[p - 1] && order@[q] == before[q - 1]);
                }
            }
            assert forall|p: int, q: int| 0 <= p < q < order@.len() implies order@[p] != order@[q] by {
                if q < pos {
                    assert(order@[p] == before[p] && order@[q] == before[q]);
                } else if q == pos {
                    assert(order@[p] == before[p]);
                } else if p == pos {
                    assert(order@[q] == before[q - 1]);
                } else if p < pos {
                    assert(order@[p] == before[p] && order@[q] == before[q - 1]);
                } else {
                    assert(order@[p] == before[p - 1] && order@[q] == before[q - 1]);
                }
            }
            assert forall|p: int| 0 <= p < order@.len() implies (#[trigger] order@[p]) < i + 1 by {
                if p < pos {
                    assert(order@[p] == before[p]);
                } else if p > pos {
                    assert(order@[p] == before[p - 1]);
                }
            }
        }
    }
    order
}

/// The views of a text pair.
pub open spec fn text_key(k: (String, String)) -> (Seq<char>, Seq<char>) {
    (k.0@, k.1@)
}

/// Text pair `a` sorts strictly before `b`: by the first member, then the second.
pub open spec fn text_pair_lt(a: (Seq<char>, Seq<char>), b: (Seq<char>, Seq<char>)) -> bool {
    lex_lt(a.0, b.0) || (a.0 == b.0 && lex_lt(a.1, b.1))
}

/// The text pair order is strict and total.
pub proof fn lemma_text_pair_order(a: (Seq<char>, Seq<char>), b: (Seq<char>, Seq<char>))
    ensures
        !text_pair_lt(a, a),
        !(text_pair_lt(a, b) && text_pair_lt(b, a)),
        a != b ==> (text_pair_lt(a, b) || text_pair_lt(b, a)),
{
    lemma_lex_irreflexive(a.0);
    lemma_lex_irreflexive(a.1);
    lemma_lex_total(a.0, b.0);
    lemma_lex_total(a.1, b.1);
    lemma_lex_irreflexive(b.0);
}

/// The text pair order is transitive.
pub proof fn lemma_text_pair_transitive(a: (Seq<char>, Seq<char>), b: (Seq<char>, Seq<char>), c: (Seq<char>, Seq<char>))
    requires
        text_pair_lt(a, b),
        text_pair_lt(b, c),
    ensures
        text_pair_lt(a, c),
{
    if lex_lt(a.0, b.0) && lex_lt(b.0, c.0) {
        lemma_lex_transitive(a.0, b.0, c.0);
    } else if a.0 == b.0 && b.0 == c.0 {
        lemma_lex_transitive(a.1, b.1, c.1);
    }
}

fn text_pair_before(a: &(String, String), b: &(String, String)) -> (before: bool)
    ensures
        before == text_pair_lt(text_key(*a), text_key(*b)),
{
    match compare_text(a.0.as_str(), b.0.as_str()) {
        Placement::Before => true,
        Placement::After => false,
        Placement::Same => match compare_text(a.1.as_str(), b.1.as_str()) {
            Placement::Before => true,
            _ => false,
        },
    }
}

/// The positions of text `keys`, sorted by key; equal keys keep their original order.
pub fn sort_by_text_pair(keys: &Vec<(String, String)>) -> (order: Vec<usize>)
    ensures
        is_permutation(order@, keys@.len()),
        forall|i: int, j: int| 0 <= i < j < order@.len() ==> !text_pair_lt(text_key(keys@[order@[j] as int]), text_key(keys@[order@[i] as int])),
        forall|i: int, j: int| 0 <= i < j < order@.len() && text_key(keys@[order@[i] as int]) == text_key(keys@[order@[j] as int]) ==> order@[i] < order@[j],
{
    let n = keys.len();
    let mut order: Vec<usize> = Vec::new();
    for i in 0..n
        invariant
            n == keys@.len(),
            order@.len() == i,
            forall|p: int| 0 <= p < order@.len() ==> (#[trigger] order@[p]) < i,
            forall|p: int, q: int| 0 <= p < q < order@.len() ==> order@[p] != order@[q],
            forall|p: int, q: int| 0 <= p < q < order@.len() ==> !text_pair_lt(text_key(keys@[order@[q] as int]), text_key(keys@[order@[p] as int])),
            forall|p: int, q: int| 0 <= p < q < order@.len() && text_key(keys@[order@[p] as int]) == text_key(keys@[order@[q] as int]) ==> order@[p] < order@[q],
    {
        let key = &keys[i];
        let mut pos: usize = 0;
        while pos < i && !text_pair_before(key, &keys[order[pos]])
            invariant
                n == keys@.len(),
                i < n,
                *key == keys@[i as int],
                order@.len() == i,
                pos <= i,
                forall|p: int| 0 <= p < order@.len() ==> (#[trigger] order@[p]) < i,
                forall|p: int| 0 <= p < pos ==> !text_pair_lt(text_key(*key), text_key(keys@[(#[trigger] order@[p]) as int])),
            decreases i - pos,
        {
            pos += 1;
        }
        let ghost before = order@;
        order.insert(pos, i);
        proof {
            assert forall|p: int, q: int| 0 <= p < q < order@.len() implies !text_pair_lt(text_key(keys@[order@[q] as int]), text_key(keys@[order@[p] as int])) by {
                if q < pos {
                    assert(order@[p] == before[p] && order@[q] == before[q]);
                } else if q == pos {
                    assert(order@[p] == before[p]);
                } else if p == pos {
                    assert(order@[q] == before[q - 1]);
                    assert(text_pair_lt(text_key(*key), text_key(keys@[before[pos as int] as int])));
                    if q - 1 > pos {
                        assert(!text_pair_lt(text_key(keys@[before[q - 1] as int]), text_key(keys@[before[pos as int] as int])));
                        if text_pair_lt(text_key(keys@[before[q - 1] as int]), text_key(*key)) {
                            lemma_text_pair_transitive(text_key(keys@[before[q - 1] as int]), text_key(*key), text_key(keys@[before[pos as int] as int]));
                        }
                    } else {
                        lemma_text_pair_order(text_key(*key), text_key(keys@[before[pos as int] as int]));
                    }
                } else if p < pos {
                    assert(order@[p] == before[p] && order@[q] == before[q - 1]);
                } else {
                    assert(order@[p] == before[p - 1] && order@[q] == before[q - 1]);
                }
            }
            assert forall|p: int, q: int| 0 <= p < q < order@.len() && text_key(keys@[order@[p] as int]) == text_key(keys@[order@[q] as int]) implies order@[p] < order@[q] by {
                if q < pos {
                    assert(order@[p] == before[p] && order@[q] == before[q]);
                } else if q == pos {
                    assert(order@[p] == before[p]);
                } else if p == pos {
                    assert(order@[q] == before[q - 1]);
                    assert(text_pair_lt(text_key(*key), text_key(keys@[before[pos as int] as int])));
                    lemma_text_pair_order(text_key(*key), text_key(keys@[before[pos as int] as int]));
                    if q - 1 > pos {
                        assert(!text_pair_lt(text_key(keys@[before[q - 1] as int]), text_key(keys@[before[pos as int] as int])));
                        lemma_text_pair_order(text_key(keys@[before[q - 1] as int]), text_key(keys@[before[pos as int] as int]));
                        if text_key(keys@[before[q - 1] as int]) == text_key(*key) {
                            assert(text_pair_lt(text_key(keys@[before[q - 1] as int]), text_key(keys@[before[pos as int] as int])));
                        }
                    }
                } else if p < pos {
                    assert(order@[p] == before[p] && order@[q] == before[q - 1]);
                } else {
                    assert(order@[p] == before[p - 1] && order@[q] == before[q - 1]);
                }
            }
            assert forall|p: int, q: int| 0 <= p < q < order@.len() implies order@[p] != order@[q] by {
                if q < pos {
                    assert(order@[p] == before[p] && order@[q] == before[q]);
                } else if q == pos {
                    assert(order@[p] == before[p]);
                } else if p == pos {
                    assert(order@[q] == before[q - 1]);
                } else if p < pos {
                    assert(order@[p] == before[p] && order@[q] == before[q - 1]);
                } else {
                    assert(order@[p] == before[p - 1] && order@[q] == before[q - 1]);
                }
            }
            assert forall|p: int| 0 <= p < order@.len() implies (#[trigger] order@[p]) < i + 1 by {
                if p < pos {
                    assert(order@[p] == before[p]);
                } else if p > pos {
                    assert(order@[p] == before[p - 1]);
                }
            }
        }
    }
    order
}

/// A permutation of the positions below `n` names every one of them.
pub proof fn lemma_permutation_onto(order: Seq<usize>, n: nat, x: int)
    requires
        is_permutation(order, n),
        0 <= x < n,
    ensures
        exists|a: int| 0 <= a < order.len() && order[a] == x,
{
    let s = order.map_values(|v: usize| v as int);
    assert(s.no_duplicates()) by {
        assert forall|i: int, j: int| 0 <= i < s.len() && 0 <= j < s.len() && i != j implies s[i] != s[j] by {
            if i < j {
                assert(order[i] != order[j]);
            } else {
                assert(order[j] != order[i]);
            }
        }
    }
    s.unique_seq_to_set();
    let whole = s.to_set();
    vstd::set_lib::lemma_int_range(0, n as int);
    let range = vstd::set_lib::set_int_range(0, n as int);
    assert(whole.subset_of(range)) by {
        assert forall|y: int| whole.contains(y) implies range.contains(y) by {
            let i = choose|i: int| 0 <= i < s.len() && s[i] == y;
            assert(order[i] < n);
        }
    }
    vstd::set_lib::lemma_len_subset(whole, range);
    vstd::set_lib::lemma_subset_equality(whole, range);
    assert(range.contains(x));
    assert(whole.contains(x));
    let a = choose|a: int| 0 <= a < s.len() && s[a] == x;
    assert(order[a] == x);
}


/// Key `a` sorts strictly before key `b`: by the first text, then the number, then the
/// second text.
pub open spec fn triple_lt(a: (Seq<char>, int, Seq<char>), b: (Seq<char>, int, Seq<char>)) -> bool {
    ||| lex_lt(a.0, b.0)
    ||| (a.0 == b.0 && a.1 < b.1)
    ||| (a.0 == b.0 && a.1 == b.1 && lex_lt(a.2, b.2))
}

/// No key sorts before itself, and the order is transitive.
pub proof fn lemma_triple_order(a: (Seq<char>, int, Seq<char>), b: (Seq<char>, int, Seq<char>), c: (Seq<char>, int, Seq<char>))
    ensures
        !triple_lt(a, a),
        triple_lt(a, b) && triple_lt(b, c) ==> triple_lt(a, c),
        !(triple_lt(a, b) && triple_lt(b, a)),
{
    lemma_lex_irreflexive(a.0);
    lemma_lex_irreflexive(a.2);
    lemma_lex_total(a.0, b.0);
    lemma_lex_total(a.2, b.2);
    if lex_lt(a.0, b.0) && lex_lt(b.0, c.0) {
        lemma_lex_transitive(a.0, b.0, c.0);
    }
    if lex_lt(a.2, b.2) && lex_lt(b.2, c.2) {
        lemma_lex_transitive(a.2, b.2, c.2);
    }
}

/// A value with a place in a canonical listing.
///
/// The place may depend on a vocabulary, such as the order entity kinds are declared in.
pub trait Keyed: Sized {
    /// Where the value sorts, under `vocabulary`.
    spec fn sort_key(&self, vocabulary: Seq<String>) -> (Seq<char>, int, Seq<char>);

    /// Whether `self` sorts strictly before `other`.
    fn precedes(&self, other: &Self, vocabulary: &Vec<String>) -> (before: bool)
        ensures
            before == triple_lt(self.sort_key(vocabulary@), other.sort_key(vocabulary@)),
    ;
}

/// `s` is in canonical order under `vocabulary`: no value sorts strictly before one that
/// precedes it.
pub open spec fn in_key_order<T: Keyed>(s: Seq<T>, vocabulary: Seq<String>) -> bool {
    forall|i: int, j: int| 0 <= i < j < s.len() ==> !triple_lt(#[trigger] s[j].sort_key(vocabulary), #[trigger] s[i].sort_key(vocabulary))
}

/// The values of `values`, rearranged into canonical order.
///
/// Insertion places a value after every value it does not sort before, so values with
/// equal keys keep the order they arrived in.
pub fn sort_keyed<T: Keyed>(values: Vec<T>, vocabulary: &Vec<String>) -> (sorted: Vec<T>)
    ensures
        sorted@.to_multiset() == values@.to_multiset(),
        sorted@.len() == values@.len(),
        in_key_order(sorted@, vocabulary@),
        in_key_order(values@, vocabulary@) ==> sorted@ == values@,
{
    broadcast use vstd::seq_lib::group_to_multiset_ensures;
    let mut out: Vec<T> = Vec::new();
    let mut rest = values;
    let ghost original = rest@;
    let ghost ordered = in_key_order(original, vocabulary@);
    while rest.len() > 0
        invariant
            out@.to_multiset().add(rest@.to_multiset()) == original.to_multiset(),
            out@.len() + rest@.len() == original.len(),
            in_key_order(out@, vocabulary@),
            ordered == in_key_order(original, vocabulary@),
            ordered ==> out@ == original.take(out@.len() as int) && rest@ == original.skip(out@.len() as int),
        decreases rest.len(),
    {
        let ghost rest_before = rest@;
        let x = rest.remove(0);
        proof {
            assert(x == rest_before[0]);
            vstd::seq_lib::to_multiset_remove(rest_before, 0);
            vstd::seq_lib::to_multiset_contains(rest_before, x);
            assert(rest_before.contains(x));
        }
        let mut pos: usize = 0;
        while pos < out.len() && !x.precedes(&out[pos], vocabulary)
            invariant
                pos <= out@.len(),
                forall|p: int| 0 <= p < pos ==> !triple_lt(x.sort_key(vocabulary@), #[trigger] out@[p].sort_key(vocabulary@)),
            decreases out@.len() - pos,
        {
            pos += 1;
        }
        let ghost before = out@;
        proof {
            if ordered {
                let k = before.len() as int;
                assert(x == original[k]);
                if pos < before.len() {
                    assert(before[pos as int] == original[pos as int]);
                    assert(!triple_lt(original[k].sort_key(vocabulary@), original[pos as int].sort_key(vocabulary@)));
                }
                assert(pos == before.len());
            }
        }
        out.insert(pos, x);
        proof {
            if ordered {
                let k = before.len() as int;
                assert(out@ =~= original.take(k + 1));
                assert(rest@ =~= original.skip(k + 1));
            }
            vstd::seq_lib::to_multiset_insert(before, pos as int, x);
            assert(out@ == before.insert(pos as int, x));
            assert(out@.to_multiset().add(rest@.to_multiset()) =~= original.to_multiset());
            let kx = x.sort_key(vocabulary@);
            assert forall|p: int, q: int| 0 <= p < q < out@.len() implies !triple_lt(#[trigger] out@[q].sort_key(vocabulary@), #[trigger] out@[p].sort_key(vocabulary@)) by {
                if q < pos {
                    assert(out@[p] == before[p] && out@[q] == before[q]);
                } else if q == pos {
                    assert(out@[p] == before[p]);
                    assert(!triple_lt(kx, before[p].sort_key(vocabulary@)));
                } else if p == pos {
                    assert(out@[q] == before[q - 1]);
                    let kp = before[pos as int].sort_key(vocabulary@);
                    let kq = before[q - 1].sort_key(vocabulary@);
                    assert(triple_lt(kx, kp));
                    if q - 1 > pos {
                        assert(!triple_lt(kq, kp));
                    }
                    lemma_triple_order(kq, kx, kp);
                } else if p < pos {
                    assert(out@[p] == before[p] && out@[q] == before[q - 1]);
                } else {
                    assert(out@[p] == before[p - 1] && out@[q] == before[q - 1]);
                }
            }
        }
    }
    proof {
        assert(rest@.to_multiset() =~= vstd::multiset::Multiset::empty());
        assert(out@.to_multiset() =~= out@.to_multiset().add(rest@.to_multiset()));
        if ordered {
            assert(out@ =~= original);
        }
    }
    out
}

/// Inserts `x` into `values`, which is in canonical order, after every value it does not
/// sort before; returns where it went.
pub fn insert_keyed<T: Keyed>(values: &mut Vec<T>, x: T, vocabulary: &Vec<String>) -> (pos: usize)
    requires
        in_key_order(old(values)@, vocabulary@),
    ensures
        pos <= old(values)@.len(),
        final(values)@ == old(values)@.insert(pos as int, x),
        in_key_order(final(values)@, vocabulary@),
        forall|p: int| 0 <= p < pos ==> !triple_lt(x.sort_key(vocabulary@), #[trigger] old(values)@[p].sort_key(vocabulary@)),
        pos < old(values)@.len() ==> triple_lt(x.sort_key(vocabulary@), old(values)@[pos as int].sort_key(vocabulary@)),
{
    let mut pos: usize = 0;
    while pos < values.len() && !x.precedes(&values[pos], vocabulary)
        invariant
            pos <= values@.len(),
            forall|p: int| 0 <= p < pos ==> !triple_lt(x.sort_key(vocabulary@), #[trigger] values@[p].sort_key(vocabulary@)),
        decreases values@.len() - pos,
    {
        pos += 1;
    }
    let ghost before = values@;
    let ghost kx = x.sort_key(vocabulary@);
    values.insert(pos, x);
    proof {
        assert forall|p: int, q: int| 0 <= p < q < values@.len() implies !triple_lt(#[trigger] values@[q].sort_key(vocabulary@), #[trigger] values@[p].sort_key(vocabulary@)) by {
            if q < pos {
                assert(values@[p] == before[p] && values@[q] == before[q]);
            } else if q == pos {
                assert(values@[p] == before[p]);
            } else if p == pos {
                assert(values@[q] == before[q - 1]);
                let kp = before[pos as int].sort_key(vocabulary@);
                let kq = before[q - 1].sort_key(vocabulary@);
                if q - 1 > pos {
                    assert(!triple_lt(kq, kp));
                }
                lemma_triple_order(kq, kx, kp);
            } else if p < pos {
                assert(values@[p] == before[p] && values@[q] == before[q - 1]);
            } else {
                assert(values@[p] == before[p - 1] && values@[q] == before[q - 1]);
            }
        }
    }
    pos
}

} // verus!
