//! Lexicographic order on byte strings, and a stable sort by such a key.
//!
//! Byte strings are ordered as `Vec<u8>` and `str` are ordered by std:
//! element by element, a proper prefix coming first.

use vstd::prelude::*;

verus! {

/// `a` comes strictly before `b` in lexicographic byte order.
pub open spec fn lex_lt(a: Seq<u8>, b: Seq<u8>) -> bool
    decreases a.len(),
{
    if a.len() == 0 {
        b.len() > 0
    } else if b.len() == 0 {
        false
    } else if a[0] < b[0] {
        true
    } else if a[0] > b[0] {
        false
    } else {
        lex_lt(a.drop_first(), b.drop_first())
    }
}

/// No byte string comes before itself.
pub proof fn lemma_lex_lt_irreflexive(a: Seq<u8>)
    ensures
        !lex_lt(a, a),
    decreases a.len(),
{
    if a.len() > 0 {
        lemma_lex_lt_irreflexive(a.drop_first());
    }
}

/// Two byte strings are never each before the other.
pub proof fn lemma_lex_lt_asymmetric(a: Seq<u8>, b: Seq<u8>)
    ensures
        !(lex_lt(a, b) && lex_lt(b, a)),
    decreases a.len(),
{
    if a.len() > 0 && b.len() > 0 && a[0] == b[0] {
        lemma_lex_lt_asymmetric(a.drop_first(), b.drop_first());
    }
}

/// The order is transitive.
pub proof fn lemma_lex_lt_transitive(a: Seq<u8>, b: Seq<u8>, c: Seq<u8>)
    requires
        lex_lt(a, b),
        lex_lt(b, c),
    ensures
        lex_lt(a, c),
    decreases a.len(),
{
    if a.len() > 0 && b.len() > 0 && c.len() > 0 && a[0] == b[0] && b[0] == c[0] {
        lemma_lex_lt_transitive(a.drop_first(), b.drop_first(), c.drop_first());
    }
}

/// Two different byte strings are ordered one way or the other.
pub proof fn lemma_lex_lt_total(a: Seq<u8>, b: Seq<u8>)
    requires
        a != b,
    ensures
        lex_lt(a, b) || lex_lt(b, a),
    decreases a.len(),
{
    if a.len() > 0 && b.len() > 0 && a[0] == b[0] {
        if a.drop_first() == b.drop_first() {
            assert(a =~= seq![a[0]] + a.drop_first());
            assert(b =~= seq![b[0]] + b.drop_first());
        }
        lemma_lex_lt_total(a.drop_first(), b.drop_first());
    } else if a.len() == 0 && b.len() == 0 {
        assert(a =~= b);
    }
}

/// Compares two byte strings in lexicographic order.
pub fn bytes_less(a: &[u8], b: &[u8]) -> (res: bool)
    ensures
        res == lex_lt(a@, b@),
{
    let mut i: usize = 0;
    assert(a@.skip(0) =~= a@);
    assert(b@.skip(0) =~= b@);
    while i < a.len() && i < b.len()
        invariant
            i <= a@.len(),
            i <= b@.len(),
            lex_lt(a@, b@) == lex_lt(a@.skip(i as int), b@.skip(i as int)),
        decreases a.len() - i,
    {
        if a[i] < b[i] {
            return true;
        }
        if a[i] > b[i] {
            return false;
        }
        assert(a@.skip(i as int).drop_first() =~= a@.skip(i + 1));
        assert(b@.skip(i as int).drop_first() =~= b@.skip(i + 1));
        i = i + 1;
    }
    i < b.len()
}

/// A value that is ordered by a byte-string key.
pub trait ByteKeyed {
    /// The key by which values are ordered.
    spec fn byte_key(&self) -> Seq<u8>;

    /// Returns the key.
    fn key_bytes(&self) -> (res: &[u8])
        ensures
            res@ == self.byte_key(),
    ;
}

/// The key function of a `ByteKeyed` type.
pub open spec fn byte_key_of<T: ByteKeyed>() -> spec_fn(T) -> Seq<u8> {
    |e: T| e.byte_key()
}

/// The elements of `s` are in non-decreasing order of their keys.
pub open spec fn sorted_by<A>(s: Seq<A>, key: spec_fn(A) -> Seq<u8>) -> bool {
    forall|i: int, j: int| 0 <= i < j < s.len() ==> !lex_lt(key(#[trigger] s[j]), key(#[trigger] s[i]))
}

/// Holds of the values whose key is `k`.
pub open spec fn key_is<A>(key: spec_fn(A) -> Seq<u8>, k: Seq<u8>) -> spec_fn(A) -> bool {
    |e: A| key(e) == k
}

/// The elements of `s` whose key is `k`, in their order in `s`.
pub open spec fn with_key<A>(s: Seq<A>, key: spec_fn(A) -> Seq<u8>, k: Seq<u8>) -> Seq<A> {
    s.filter(key_is(key, k))
}

/// `r` is `s` sorted by key, elements with equal keys kept in their order in `s`.
pub open spec fn is_stable_sort<A>(r: Seq<A>, s: Seq<A>, key: spec_fn(A) -> Seq<u8>) -> bool {
    &&& sorted_by(r, key)
    &&& forall|k: Seq<u8>| #[trigger] with_key(r, key, k) == with_key(s, key, k)
}

/// Filtering by key commutes with a map that keeps keys.
pub proof fn lemma_with_key_map<A, B>(
    s: Seq<A>,
    ka: spec_fn(A) -> Seq<u8>,
    f: spec_fn(A) -> B,
    kb: spec_fn(B) -> Seq<u8>,
    k: Seq<u8>,
)
    requires
        forall|x: A| #[trigger] kb(f(x)) == ka(x),
    ensures
        with_key(s, ka, k).map_values(f) == with_key(s.map_values(f), kb, k),
    decreases s.len(),
{
    reveal(Seq::filter);
    if s.len() > 0 {
        let rest = s.drop_last();
        let last = s.last();
        lemma_with_key_map(rest, ka, f, kb, k);
        assert(s.map_values(f).drop_last() =~= rest.map_values(f));
        assert(s.map_values(f).last() == f(last));
        assert(kb(f(last)) == ka(last));
        if ka(last) == k {
            assert(with_key(s, ka, k).map_values(f) =~= with_key(rest, ka, k).map_values(f).push(f(last)));
        } else {
            assert(with_key(s, ka, k).map_values(f) =~= with_key(rest, ka, k).map_values(f));
        }
    } else {
        assert(with_key(s, ka, k).map_values(f) =~= with_key(s.map_values(f), kb, k));
    }
}

/// A stable sort stays one under a map that keeps keys.
pub proof fn lemma_stable_sort_map<A, B>(
    r: Seq<A>,
    s: Seq<A>,
    ka: spec_fn(A) -> Seq<u8>,
    f: spec_fn(A) -> B,
    kb: spec_fn(B) -> Seq<u8>,
)
    requires
        is_stable_sort(r, s, ka),
        forall|x: A| #[trigger] kb(f(x)) == ka(x),
    ensures
        is_stable_sort(r.map_values(f), s.map_values(f), kb),
{
    let rm = r.map_values(f);
    assert forall|i: int, j: int| 0 <= i < j < rm.len() implies !lex_lt(kb(#[trigger] rm[j]), kb(#[trigger] rm[i])) by {
        assert(kb(f(r[j])) == ka(r[j]));
        assert(kb(f(r[i])) == ka(r[i]));
    }
    assert forall|k: Seq<u8>| #[trigger] with_key(rm, kb, k) == with_key(s.map_values(f), kb, k) by {
        lemma_with_key_map(r, ka, f, kb, k);
        lemma_with_key_map(s, ka, f, kb, k);
        assert(with_key(r, ka, k) == with_key(s, ka, k));
    }
}

proof fn lemma_with_key_empty<T: ByteKeyed>(s: Seq<T>, k: Seq<u8>)
    requires
        forall|j: int| 0 <= j < s.len() ==> #[trigger] s[j].byte_key() != k,
    ensures
        with_key(s, byte_key_of::<T>(), k) == Seq::<T>::empty(),
{
    let p = key_is(byte_key_of::<T>(), k);
    assert(s.all(|e: T| !p(e)));
    s.lemma_all_neg_filter_empty(p);
    assert(s.filter(p) =~= Seq::<T>::empty());
}

/// Inserting `x` after every element whose key is not above its own keeps
/// the sequence sorted and adds `x` last among the elements of its key.
proof fn lemma_insert_sorted<T: ByteKeyed>(s: Seq<T>, p: int, x: T)
    requires
        sorted_by(s, byte_key_of::<T>()),
        0 <= p <= s.len(),
        forall|j: int| 0 <= j < p ==> !lex_lt(x.byte_key(), #[trigger] s[j].byte_key()),
        p < s.len() ==> lex_lt(x.byte_key(), s[p].byte_key()),
    ensures
        sorted_by(s.insert(p, x), byte_key_of::<T>()),
        forall|k: Seq<u8>|
            #[trigger] with_key(s.insert(p, x), byte_key_of::<T>(), k) == if k == x.byte_key() {
                with_key(s, byte_key_of::<T>(), k).push(x)
            } else {
                with_key(s, byte_key_of::<T>(), k)
            },
{
    let r = s.insert(p, x);
    let kx = x.byte_key();
    let key = byte_key_of::<T>();
    assert forall|j: int| p <= j < s.len() implies lex_lt(kx, #[trigger] s[j].byte_key()) by {
        if j > p {
            if s[j].byte_key() != s[p].byte_key() {
                lemma_lex_lt_total(s[j].byte_key(), s[p].byte_key());
                lemma_lex_lt_transitive(kx, s[p].byte_key(), s[j].byte_key());
            }
        }
    }
    assert forall|i: int, j: int| 0 <= i < j < r.len() implies !lex_lt(
        key(#[trigger] r[j]),
        key(#[trigger] r[i]),
    ) by {
        if i == p {
            lemma_lex_lt_asymmetric(kx, s[j - 1].byte_key());
        } else if j == p {
        } else if i < p && j > p {
            assert(r[j] == s[j - 1]);
            if s[j - 1].byte_key() != s[i].byte_key() {
                lemma_lex_lt_total(s[j - 1].byte_key(), s[i].byte_key());
                if lex_lt(s[j - 1].byte_key(), s[i].byte_key()) {
                    lemma_lex_lt_transitive(kx, s[j - 1].byte_key(), s[i].byte_key());
                }
            } else {
                lemma_lex_lt_irreflexive(s[i].byte_key());
            }
        }
    }
    assert forall|k: Seq<u8>| #[trigger]
        with_key(r, key, k) == if k == kx {
            with_key(s, key, k).push(x)
        } else {
            with_key(s, key, k)
        } by {
        let pred = key_is(key, k);
        let a = s.take(p);
        let b = s.skip(p);
        assert(s =~= a + b);
        assert(r =~= a + seq![x] + b);
        Seq::filter_distributes_over_add(a, b, pred);
        Seq::filter_distributes_over_add(a + seq![x], b, pred);
        Seq::filter_distributes_over_add(a, seq![x], pred);
        reveal_with_fuel(Seq::filter, 2);
        assert(seq![x].drop_last() =~= Seq::<T>::empty());
        if k == kx {
            assert forall|j: int| 0 <= j < b.len() implies #[trigger] b[j].byte_key() != k by {
                assert(b[j] == s[p + j]);
                lemma_lex_lt_irreflexive(kx);
            }
            lemma_with_key_empty(b, k);
            assert(with_key(r, key, k) =~= with_key(a, key, k).push(x));
            assert(with_key(s, key, k) =~= with_key(a, key, k));
        } else {
            assert(with_key(seq![x], key, k) =~= Seq::<T>::empty());
            assert(with_key(r, key, k) =~= with_key(a, key, k) + with_key(b, key, k));
        }
    }
}

/// Sorts `v` by key; elements with equal keys keep their relative order.
pub fn stable_sort_by_key<T: ByteKeyed>(v: Vec<T>) -> (res: Vec<T>)
    ensures
        is_stable_sort(res@, v@, byte_key_of::<T>()),
{
    let ghost input = v@;
    let mut res: Vec<T> = Vec::new();
    let mut rest = v;
    proof {
        assert(rest@ =~= input.skip(0));
        assert forall|k: Seq<u8>| #[trigger] with_key(res@, byte_key_of::<T>(), k) == with_key(input.take(0), byte_key_of::<T>(), k) by {
            assert(input.take(0) =~= res@);
        }
    }
    while rest.len() > 0
        invariant
            rest@.len() <= input.len(),
            rest@ == input.skip(input.len() - rest@.len()),
            sorted_by(res@, byte_key_of::<T>()),
            forall|k: Seq<u8>|
                #[trigger] with_key(res@, byte_key_of::<T>(), k) == with_key(input.take(input.len() - rest@.len()), byte_key_of::<T>(), k),
        decreases rest.len(),
    {
        let ghost done: int = input.len() - rest@.len();
        let x = rest.remove(0);
        assert(x == input[done]);
        assert(rest@ =~= input.skip(done + 1));
        let mut p: usize = 0;
        while p < res.len()
            invariant
                p <= res@.len(),
                forall|j: int| 0 <= j < p ==> !lex_lt(x.byte_key(), #[trigger] res@[j].byte_key()),
            ensures
                p <= res@.len(),
                forall|j: int| 0 <= j < p ==> !lex_lt(x.byte_key(), #[trigger] res@[j].byte_key()),
                p < res@.len() ==> lex_lt(x.byte_key(), res@[p as int].byte_key()),
            decreases res.len() - p,
        {
            if bytes_less(x.key_bytes(), res[p].key_bytes()) {
                break;
            }
            p = p + 1;
        }
        proof {
            lemma_insert_sorted(res@, p as int, x);
            assert(input.take(done + 1) =~= input.take(done).push(x));
            assert forall|k: Seq<u8>| #[trigger]
                with_key(input.take(done + 1), byte_key_of::<T>(), k) == if k == x.byte_key() {
                    with_key(input.take(done), byte_key_of::<T>(), k).push(x)
                } else {
                    with_key(input.take(done), byte_key_of::<T>(), k)
                } by {
                input.take(done).lemma_filter_push(x, key_is(byte_key_of::<T>(), k));
            }
        }
        res.insert(p, x);
    }
    proof {
        assert(input.take(input.len() as int) =~= input);
    }
    res
}

/// The key of a byte string is the byte string itself.
pub open spec fn id_key() -> spec_fn(Seq<u8>) -> Seq<u8> {
    |b: Seq<u8>| b
}

/// How often `k` occurs in `s` is how many elements `with_key` keeps.
proof fn lemma_with_id_key_count(s: Seq<Seq<u8>>, k: Seq<u8>)
    ensures
        with_key(s, id_key(), k).len() == s.to_multiset().count(k),
    decreases s.len(),
{
    broadcast use vstd::seq_lib::group_to_multiset_ensures;
    broadcast use vstd::multiset::group_multiset_axioms;

    reveal(Seq::filter);
    if s.len() == 0 {
        assert(!s.contains(k));
    } else {
        let r = s.drop_last();
        let x = s.last();
        lemma_with_id_key_count(r, k);
        assert(s =~= r.push(x));
        vstd::seq_lib::to_multiset_build(r, x);
        r.lemma_filter_push(x, key_is(id_key(), k));
    }
}

/// Two sequences of byte strings in order, with the same elements as many
/// times each, are equal.
proof fn lemma_sorted_unique(r1: Seq<Seq<u8>>, r2: Seq<Seq<u8>>)
    requires
        sorted_by(r1, id_key()),
        sorted_by(r2, id_key()),
        r1.to_multiset() == r2.to_multiset(),
    ensures
        r1 == r2,
    decreases r1.len(),
{
    broadcast use vstd::seq_lib::group_to_multiset_ensures;
    broadcast use vstd::multiset::group_multiset_axioms;

    vstd::seq_lib::to_multiset_len(r1);
    vstd::seq_lib::to_multiset_len(r2);
    if r1.len() == 0 {
        assert(r1 =~= r2);
    } else {
        let n = r1.len();
        let m1 = r1.last();
        let m2 = r2.last();
        assert(r1.contains(m1)) by {
            assert(r1[n - 1] == m1);
        }
        vstd::seq_lib::to_multiset_contains(r1, m1);
        vstd::seq_lib::to_multiset_contains(r2, m1);
        let j = choose|j: int| 0 <= j < r2.len() && r2[j] == m1;
        if j < n - 1 {
            assert(!lex_lt(id_key()(r2[n - 1]), id_key()(r2[j])));
        }
        assert(r2.contains(m2)) by {
            assert(r2[n - 1] == m2);
        }
        vstd::seq_lib::to_multiset_contains(r2, m2);
        vstd::seq_lib::to_multiset_contains(r1, m2);
        let i = choose|i: int| 0 <= i < r1.len() && r1[i] == m2;
        if i < n - 1 {
            assert(!lex_lt(id_key()(r1[n - 1]), id_key()(r1[i])));
        }
        if m1 != m2 {
            lemma_lex_lt_total(m1, m2);
        }
        let a = r1.drop_last();
        let b = r2.drop_last();
        assert(r1 =~= a.push(m1));
        assert(r2 =~= b.push(m1));
        vstd::seq_lib::to_multiset_build(a, m1);
        vstd::seq_lib::to_multiset_build(b, m1);
        assert(r1.to_multiset() == a.to_multiset().insert(m1));
        assert(r2.to_multiset() == b.to_multiset().insert(m1));
        assert forall|x: Seq<u8>| a.to_multiset().count(x) == b.to_multiset().count(x) by {
            assert(r1.to_multiset().count(x) == r2.to_multiset().count(x));
            if x == m1 {
                vstd::multiset::lemma_insert_increases_count_by_1(a.to_multiset(), m1);
                vstd::multiset::lemma_insert_increases_count_by_1(b.to_multiset(), m1);
            } else {
                vstd::multiset::lemma_insert_other_elements_unchanged(a.to_multiset(), m1, x);
                vstd::multiset::lemma_insert_other_elements_unchanged(b.to_multiset(), m1, x);
            }
        }
        assert(a.to_multiset() =~= b.to_multiset());
        assert(sorted_by(a, id_key())) by {
            assert forall|p: int, q: int| 0 <= p < q < a.len() implies !lex_lt(
                id_key()(#[trigger] a[q]),
                id_key()(#[trigger] a[p]),
            ) by {
                assert(a[p] == r1[p] && a[q] == r1[q]);
            }
        }
        assert(sorted_by(b, id_key())) by {
            assert forall|p: int, q: int| 0 <= p < q < b.len() implies !lex_lt(
                id_key()(#[trigger] b[q]),
                id_key()(#[trigger] b[p]),
            ) by {
                assert(b[p] == r2[p] && b[q] == r2[q]);
            }
        }
        lemma_sorted_unique(a, b);
    }
}

/// Stable sorts by the byte strings themselves of two sequences with the
/// same elements, as many times each, are equal.
pub proof fn lemma_stable_sort_unique(r1: Seq<Seq<u8>>, s1: Seq<Seq<u8>>, r2: Seq<Seq<u8>>, s2: Seq<Seq<u8>>)
    requires
        is_stable_sort(r1, s1, id_key()),
        is_stable_sort(r2, s2, id_key()),
        s1.to_multiset() == s2.to_multiset(),
    ensures
        r1 == r2,
{
    assert forall|k: Seq<u8>| r1.to_multiset().count(k) == r2.to_multiset().count(k) by {
        lemma_with_id_key_count(r1, k);
        lemma_with_id_key_count(s1, k);
        lemma_with_id_key_count(r2, k);
        lemma_with_id_key_count(s2, k);
        assert(with_key(r1, id_key(), k) == with_key(s1, id_key(), k));
        assert(with_key(r2, id_key(), k) == with_key(s2, id_key(), k));
    }
    assert(r1.to_multiset() =~= r2.to_multiset());
    lemma_sorted_unique(r1, r2);
}

/// `a` and `b` agree on their first `k` bytes, and there `a` ends while
/// `b` goes on, or the next byte of `a` is smaller as a number than that of `b`.
pub open spec fn first_difference_at(a: Seq<u8>, b: Seq<u8>, k: int) -> bool {
    &&& 0 <= k <= a.len()
    &&& k <= b.len()
    &&& a.take(k) == b.take(k)
    &&& (k == a.len() && k < b.len()) || (k < a.len() && k < b.len() && a[k] < b[k])
}

/// The order of byte strings is the order of std's `Vec<u8>` and `str`:
/// `a` comes first exactly when, after their longest common prefix, `a`
/// ends while `b` goes on, or the next byte of `a` is smaller as a number
/// than that of `b`.
pub proof fn lemma_lex_lt_first_difference(a: Seq<u8>, b: Seq<u8>)
    ensures
        lex_lt(a, b) <==> exists|k: int| #[trigger] first_difference_at(a, b, k),
    decreases a.len(),
{
    if a.len() == 0 {
        if b.len() > 0 {
            assert(first_difference_at(a, b, 0)) by {
                assert(a.take(0) =~= b.take(0));
            }
        }
    } else if b.len() == 0 {
    } else if a[0] != b[0] {
        if a[0] < b[0] {
            assert(first_difference_at(a, b, 0)) by {
                assert(a.take(0) =~= b.take(0));
            }
        } else {
            if exists|k: int| #[trigger] first_difference_at(a, b, k) {
                let k = choose|k: int| #[trigger] first_difference_at(a, b, k);
                if k > 0 {
                    assert(a.take(k)[0] == b.take(k)[0]);
                }
            }
        }
    } else {
        let a1 = a.drop_first();
        let b1 = b.drop_first();
        lemma_lex_lt_first_difference(a1, b1);
        if exists|k: int| #[trigger] first_difference_at(a1, b1, k) {
            let k = choose|k: int| #[trigger] first_difference_at(a1, b1, k);
            assert(a.take(k + 1) =~= seq![a[0]] + a1.take(k));
            assert(b.take(k + 1) =~= seq![b[0]] + b1.take(k));
            assert(first_difference_at(a, b, k + 1));
        }
        if exists|k: int| #[trigger] first_difference_at(a, b, k) {
            let k = choose|k: int| #[trigger] first_difference_at(a, b, k);
            if k == 0 {
                assert(a[0] == b[0]);
            } else {
                assert(a1.take(k - 1) =~= a.take(k).drop_first());
                assert(b1.take(k - 1) =~= b.take(k).drop_first());
                assert(first_difference_at(a1, b1, k - 1));
            }
        }
    }
}

/// Byte strings that differ in their first byte are ordered as those bytes
/// are as numbers.
pub proof fn lemma_lex_lt_first_byte(a: Seq<u8>, b: Seq<u8>)
    requires
        a.len() > 0,
        b.len() > 0,
        a[0] != b[0],
    ensures
        lex_lt(a, b) <==> a[0] < b[0],
{
    lemma_lex_lt_first_difference(a, b);
    if lex_lt(a, b) {
        let k = choose|k: int| #[trigger] first_difference_at(a, b, k);
        if k > 0 {
            assert(a.take(k)[0] == b.take(k)[0]);
        }
    } else {
        if a[0] < b[0] {
            assert(a.take(0) =~= b.take(0));
            assert(first_difference_at(a, b, 0));
        }
    }
}

/// In a sequence sorted by key, of two elements with different keys the
/// earlier one's key comes first in std's byte order: after the common
/// prefix of the two keys it ends, or its next byte is smaller as a number.
pub proof fn lemma_sorted_by_byte_order<A>(s: Seq<A>, key: spec_fn(A) -> Seq<u8>, i: int, j: int)
    requires
        sorted_by(s, key),
        0 <= i < j < s.len(),
        key(s[i]) != key(s[j]),
    ensures
        exists|k: int| #[trigger] first_difference_at(key(s[i]), key(s[j]), k),
{
    assert(!lex_lt(key(s[j]), key(s[i])));
    lemma_lex_lt_total(key(s[i]), key(s[j]));
    lemma_lex_lt_first_difference(key(s[i]), key(s[j]));
}

} // verus!
