//! Orders on strings as `String`'s `Ord` compares them: by their UTF-8 bytes.
use vstd::prelude::*;
use vstd::utf8::{encode_utf8, encode_utf8_decode_utf8};

verus! {

/// `x` comes strictly before `y` in lexicographic byte order.
pub open spec fn lex_less(x: Seq<u8>, y: Seq<u8>) -> bool
    decreases x.len(),
{
    if x.len() == 0 {
        y.len() > 0
    } else if y.len() == 0 {
        false
    } else if x[0] != y[0] {
        x[0] < y[0]
    } else {
        lex_less(x.drop_first(), y.drop_first())
    }
}

pub proof fn lemma_lex_irreflexive(x: Seq<u8>)
    ensures
        !lex_less(x, x),
    decreases x.len(),
{
    if x.len() > 0 {
        lemma_lex_irreflexive(x.drop_first());
    }
}

pub proof fn lemma_lex_asymmetric(x: Seq<u8>, y: Seq<u8>)
    requires
        lex_less(x, y),
    ensures
        !lex_less(y, x),
    decreases x.len(),
{
    if x.len() > 0 && y.len() > 0 && x[0] == y[0] {
        lemma_lex_asymmetric(x.drop_first(), y.drop_first());
    }
}

pub proof fn lemma_lex_transitive(x: Seq<u8>, y: Seq<u8>, z: Seq<u8>)
    requires
        lex_less(x, y),
        lex_less(y, z),
    ensures
        lex_less(x, z),
    decreases x.len(),
{
    if x.len() > 0 && y.len() > 0 && z.len() > 0 && x[0] == y[0] && y[0] == z[0] {
        lemma_lex_transitive(x.drop_first(), y.drop_first(), z.drop_first());
    }
}

pub proof fn lemma_lex_total(x: Seq<u8>, y: Seq<u8>)
    requires
        x != y,
    ensures
        lex_less(x, y) || lex_less(y, x),
    decreases x.len(),
{
    if x.len() > 0 && y.len() > 0 && x[0] == y[0] {
        if x.drop_first() == y.drop_first() {
            assert(x =~= seq![x[0]] + x.drop_first());
            assert(y =~= seq![y[0]] + y.drop_first());
        }
        lemma_lex_total(x.drop_first(), y.drop_first());
    } else if x.len() == 0 && y.len() == 0 {
        assert(x =~= y);
    }
}

/// `a` sorts before `b`: with `by_len`, longer (in bytes) first and equal
/// lengths in byte order; otherwise in byte order.
pub open spec fn str_before(a: Seq<char>, b: Seq<char>, by_len: bool) -> bool {
    let x = encode_utf8(a);
    let y = encode_utf8(b);
    if by_len {
        x.len() > y.len() || (x.len() == y.len() && lex_less(x, y))
    } else {
        lex_less(x, y)
    }
}

/// Every entry sorts strictly before every later one.
pub open spec fn strictly_sorted(s: Seq<Seq<char>>, by_len: bool) -> bool {
    forall|i: int, j: int| 0 <= i < j < s.len() ==> #[trigger] str_before(s[i], s[j], by_len)
}

pub proof fn lemma_before_irreflexive(a: Seq<char>, by_len: bool)
    ensures
        !str_before(a, a, by_len),
{
    lemma_lex_irreflexive(encode_utf8(a));
}

pub proof fn lemma_before_asymmetric(a: Seq<char>, b: Seq<char>, by_len: bool)
    requires
        str_before(a, b, by_len),
    ensures
        !str_before(b, a, by_len),
{
    let x = encode_utf8(a);
    let y = encode_utf8(b);
    if lex_less(x, y) {
        lemma_lex_asymmetric(x, y);
    }
}

pub proof fn lemma_before_transitive(a: Seq<char>, b: Seq<char>, c: Seq<char>, by_len: bool)
    requires
        str_before(a, b, by_len),
        str_before(b, c, by_len),
    ensures
        str_before(a, c, by_len),
{
    let x = encode_utf8(a);
    let y = encode_utf8(b);
    let z = encode_utf8(c);
    if lex_less(x, y) && lex_less(y, z) {
        lemma_lex_transitive(x, y, z);
    }
}

pub proof fn lemma_before_total(a: Seq<char>, b: Seq<char>, by_len: bool)
    requires
        a != b,
    ensures
        str_before(a, b, by_len) || str_before(b, a, by_len),
{
    encode_utf8_decode_utf8(a);
    encode_utf8_decode_utf8(b);
    lemma_lex_total(encode_utf8(a), encode_utf8(b));
}

fn bytes_less(x: &[u8], y: &[u8]) -> (r: bool)
    ensures
        r == lex_less(x@, y@),
{
    let mut i: usize = 0;
    assert(x@.skip(0) =~= x@);
    assert(y@.skip(0) =~= y@);
    while i < x.len() && i < y.len()
        invariant
            i <= x@.len(),
            i <= y@.len(),
            lex_less(x@, y@) == lex_less(x@.skip(i as int), y@.skip(i as int)),
        decreases x@.len() - i,
    {
        if x[i] != y[i] {
            return x[i] < y[i];
        }
        assert(x@.skip(i as int).drop_first() =~= x@.skip(i + 1));
        assert(y@.skip(i as int).drop_first() =~= y@.skip(i + 1));
        i += 1;
    }
    i < y.len()
}

/// Whether `a` sorts before `b`.
pub fn is_before(a: &str, b: &str, by_len: bool) -> (r: bool)
    ensures
        r == str_before(a@, b@, by_len),
{
    let x = a.as_bytes();
    let y = b.as_bytes();
    if by_len {
        x.len() > y.len() || (x.len() == y.len() && bytes_less(x, y))
    } else {
        bytes_less(x, y)
    }
}

/// Adds `x` to a strictly sorted list unless it is already there.
pub fn insert_sorted(v: &mut Vec<String>, x: String, by_len: bool)
    requires
        strictly_sorted(old(v)@.map_values(|s: String| s@), by_len),
    ensures
        strictly_sorted(final(v)@.map_values(|s: String| s@), by_len),
        final(v)@.map_values(|s: String| s@).to_set() == old(v)@.map_values(|s: String| s@).to_set().insert(x@),
{
    let ghost old_s = v@.map_values(|s: String| s@);
    let mut i: usize = 0;
    while i < v.len() && is_before(v[i].as_str(), x.as_str(), by_len)
        invariant
            i <= v@.len(),
            old_s == v@.map_values(|s: String| s@),
            strictly_sorted(old_s, by_len),
            forall|k: int| 0 <= k < i ==> #[trigger] str_before(old_s[k], x@, by_len),
        decreases v@.len() - i,
    {
        i += 1;
    }
    if i < v.len() && crate::text::str_eq(v[i].as_str(), x.as_str()) {
        assert(old_s.to_set().insert(x@) =~= old_s.to_set()) by {
            assert(old_s[i as int] == x@);
        }
        return;
    }
    proof {
        if i < old_s.len() {
            lemma_before_total(old_s[i as int], x@, by_len);
            assert(str_before(x@, old_s[i as int], by_len));
        }
    }
    v.insert(i, x);
    let ghost new_s = v@.map_values(|s: String| s@);
    assert(new_s =~= old_s.insert(i as int, x@));
    assert forall|a: int, b: int| 0 <= a < b < new_s.len() implies #[trigger] str_before(new_s[a], new_s[b], by_len) by {
        if b < i {
            assert(str_before(old_s[a], old_s[b], by_len));
        } else if b == i {
        } else if a == i {
            if b - 1 > i {
                assert(str_before(old_s[i as int], old_s[b - 1], by_len));
                lemma_before_transitive(x@, old_s[i as int], old_s[b - 1], by_len);
            }
        } else if a < i {
            assert(str_before(old_s[a], old_s[b - 1], by_len));
        } else {
            assert(str_before(old_s[a - 1], old_s[b - 1], by_len));
        }
    }
    assert(new_s.to_set() =~= old_s.to_set().insert(x@)) by {
        assert forall|e: Seq<char>| new_s.to_set().contains(e) implies old_s.to_set().insert(x@).contains(e) by {
            let k = choose|k: int| 0 <= k < new_s.len() && new_s[k] == e;
            if k < i {
                assert(old_s[k] == e);
            } else if k > i {
                assert(old_s[k - 1] == e);
            }
        }
        assert forall|e: Seq<char>| old_s.to_set().insert(x@).contains(e) implies new_s.to_set().contains(e) by {
            if e == x@ {
                assert(new_s[i as int] == e);
            } else {
                let k = choose|k: int| 0 <= k < old_s.len() && old_s[k] == e;
                if k < i {
                    assert(new_s[k] == e);
                } else {
                    assert(new_s[k + 1] == e);
                }
            }
        }
    }
}

/// How many entries of `s` the new entry `x` does not come before: where a
/// stable insertion puts it.
pub open spec fn count_not_before<T>(s: Seq<T>, x: T, before: spec_fn(T, T) -> bool) -> nat
    decreases s.len(),
{
    if s.len() == 0 {
        0
    } else {
        count_not_before(s.drop_last(), x, before) + if before(x, s.last()) { 0nat } else { 1nat }
    }
}

/// `s` sorted by `before`, entries that neither comes before keeping their order.
pub open spec fn stable_sorted<T>(s: Seq<T>, before: spec_fn(T, T) -> bool) -> Seq<T>
    decreases s.len(),
{
    if s.len() == 0 {
        s
    } else {
        let p = stable_sorted(s.drop_last(), before);
        p.insert(count_not_before(p, s.last(), before) as int, s.last())
    }
}

pub proof fn lemma_stable_sorted_len<T>(s: Seq<T>, before: spec_fn(T, T) -> bool)
    ensures
        stable_sorted(s, before).len() == s.len(),
    decreases s.len(),
{
    if s.len() > 0 {
        lemma_stable_sorted_len(s.drop_last(), before);
        lemma_count_not_before_le(stable_sorted(s.drop_last(), before), s.last(), before);
    }
}

pub proof fn lemma_count_not_before_le<T>(s: Seq<T>, x: T, before: spec_fn(T, T) -> bool)
    ensures
        count_not_before(s, x, before) <= s.len(),
    decreases s.len(),
{
    if s.len() > 0 {
        lemma_count_not_before_le(s.drop_last(), x, before);
    }
}

} // verus!

verus! {

/// `before` orders values strictly and totally: never a value before itself,
/// transitively, and of two different values one before the other.
pub open spec fn strict_total<T>(before: spec_fn(T, T) -> bool) -> bool {
    &&& forall|a: T| !#[trigger] before(a, a)
    &&& forall|a: T, b: T, c: T| #[trigger] before(a, b) && #[trigger] before(b, c) ==> before(a, c)
    &&& forall|a: T, b: T| a != b ==> #[trigger] before(a, b) || before(b, a)
}

/// No entry comes before an earlier one.
pub open spec fn sorted_by<T>(s: Seq<T>, before: spec_fn(T, T) -> bool) -> bool {
    forall|i: int, j: int| 0 <= i < j < s.len() ==> !before(#[trigger] s[j], #[trigger] s[i])
}

proof fn lemma_count_prefix<T>(p: Seq<T>, x: T, before: spec_fn(T, T) -> bool)
    requires
        strict_total(before),
        sorted_by(p, before),
    ensures
        count_not_before(p, x, before) <= p.len(),
        forall|k: int| 0 <= k < p.len() ==> ((k < count_not_before(p, x, before)) <==> !before(x, #[trigger] p[k])),
    decreases p.len(),
{
    if p.len() > 0 {
        let q = p.drop_last();
        assert forall|i: int, j: int| 0 <= i < j < q.len() implies !before(#[trigger] q[j], #[trigger] q[i]) by {
            assert(q[i] == p[i] && q[j] == p[j]);
        }
        lemma_count_prefix(q, x, before);
        let l = p.last();
        if !before(x, l) {
            assert forall|k: int| 0 <= k < p.len() - 1 implies !before(x, #[trigger] p[k]) by {
                assert(p[k] == q[k]);
                assert(!before(p[p.len() - 1], p[k]));
                if before(x, p[k]) {
                    if p[k] == l {
                    } else {
                        assert(before(p[k], l) || before(l, p[k]));
                        assert(before(x, l));
                    }
                }
            }
            assert forall|k: int| 0 <= k < p.len() implies ((k < count_not_before(p, x, before)) <==> !before(x, #[trigger] p[k])) by {
                if k < p.len() - 1 {
                    assert(p[k] == q[k]);
                    assert(k < count_not_before(q, x, before));
                }
            }
        } else {
            assert forall|k: int| 0 <= k < p.len() implies ((k < count_not_before(p, x, before)) <==> !before(x, #[trigger] p[k])) by {
                if k < p.len() - 1 {
                    assert(p[k] == q[k]);
                }
            }
        }
    }
}

/// A stable sort by a strict total order sorts.
pub proof fn lemma_stable_sorted_sorted<T>(s: Seq<T>, before: spec_fn(T, T) -> bool)
    requires
        strict_total(before),
    ensures
        sorted_by(stable_sorted(s, before), before),
        stable_sorted(s, before).len() == s.len(),
    decreases s.len(),
{
    lemma_stable_sorted_len(s, before);
    if s.len() > 0 {
        let p = stable_sorted(s.drop_last(), before);
        let x = s.last();
        lemma_stable_sorted_sorted(s.drop_last(), before);
        lemma_count_prefix(p, x, before);
        let c = count_not_before(p, x, before) as int;
        let r = p.insert(c, x);
        assert forall|i: int, j: int| 0 <= i < j < r.len() implies !before(#[trigger] r[j], #[trigger] r[i]) by {
            if j < c {
                assert(r[i] == p[i] && r[j] == p[j]);
            } else if j == c {
                assert(r[i] == p[i]);
                assert(!before(x, p[i]));
            } else if i == c {
                assert(r[j] == p[j - 1]);
                assert(before(x, p[j - 1]));
                if before(p[j - 1], x) {
                    assert(before(x, x));
                }
            } else if i < c {
                assert(r[i] == p[i] && r[j] == p[j - 1]);
            } else {
                assert(r[i] == p[i - 1] && r[j] == p[j - 1]);
            }
        }
    }
}

/// A stable sort keeps every entry.
pub proof fn lemma_stable_sorted_multiset<T>(s: Seq<T>, before: spec_fn(T, T) -> bool)
    ensures
        stable_sorted(s, before).to_multiset() == s.to_multiset(),
    decreases s.len(),
{
    broadcast use vstd::seq_lib::group_to_multiset_ensures;
    if s.len() > 0 {
        lemma_stable_sorted_multiset(s.drop_last(), before);
        let p = stable_sorted(s.drop_last(), before);
        lemma_count_not_before_le(p, s.last(), before);
        vstd::seq_lib::to_multiset_insert(p, count_not_before(p, s.last(), before) as int, s.last());
        vstd::seq_lib::to_multiset_build(s.drop_last(), s.last());
        assert(s.drop_last().push(s.last()) =~= s);
    }
}

/// Two sorted lists with the same entries are the same list.
pub proof fn lemma_sorted_unique_by<T>(a: Seq<T>, b: Seq<T>, before: spec_fn(T, T) -> bool)
    requires
        strict_total(before),
        sorted_by(a, before),
        sorted_by(b, before),
        a.to_multiset() == b.to_multiset(),
    ensures
        a == b,
    decreases a.len(),
{
    broadcast use vstd::seq_lib::group_to_multiset_ensures;
    vstd::seq_lib::to_multiset_len(a);
    vstd::seq_lib::to_multiset_len(b);
    if a.len() == 0 {
        assert(a =~= b);
    } else {
        let x = a.last();
        let y = b.last();
        vstd::seq_lib::to_multiset_contains(a, y);
        vstd::seq_lib::to_multiset_contains(b, y);
        vstd::seq_lib::to_multiset_contains(a, x);
        vstd::seq_lib::to_multiset_contains(b, x);
        assert(b.to_multiset().count(y) > 0);
        assert(a.contains(y));
        assert(b.contains(x));
        if x != y {
            let ka = choose|k: int| 0 <= k < a.len() && a[k] == y;
            let kb = choose|k: int| 0 <= k < b.len() && b[k] == x;
            assert(before(x, y) || before(y, x));
            if before(x, y) {
                assert(ka < a.len() - 1);
                assert(!before(a[a.len() - 1], a[ka]));
            } else {
                assert(kb < b.len() - 1);
                assert(!before(b[b.len() - 1], b[kb]));
            }
        }
        assert(x == y);
        vstd::seq_lib::to_multiset_remove(a, a.len() - 1);
        vstd::seq_lib::to_multiset_remove(b, b.len() - 1);
        assert(a.remove(a.len() - 1) =~= a.drop_last());
        assert(b.remove(b.len() - 1) =~= b.drop_last());
        assert forall|i: int, j: int| 0 <= i < j < a.drop_last().len() implies !before(#[trigger] a.drop_last()[j], #[trigger] a.drop_last()[i]) by {
            assert(a.drop_last()[i] == a[i] && a.drop_last()[j] == a[j]);
        }
        assert forall|i: int, j: int| 0 <= i < j < b.drop_last().len() implies !before(#[trigger] b.drop_last()[j], #[trigger] b.drop_last()[i]) by {
            assert(b.drop_last()[i] == b[i] && b.drop_last()[j] == b[j]);
        }
        lemma_sorted_unique_by(a.drop_last(), b.drop_last(), before);
        assert(a =~= a.drop_last().push(x));
        assert(b =~= b.drop_last().push(y));
    }
}

/// Sorting a rearrangement gives the same list.
pub proof fn lemma_stable_sorted_permutation<T>(a: Seq<T>, b: Seq<T>, before: spec_fn(T, T) -> bool)
    requires
        strict_total(before),
        a.to_multiset() == b.to_multiset(),
    ensures
        stable_sorted(a, before) == stable_sorted(b, before),
{
    lemma_stable_sorted_sorted(a, before);
    lemma_stable_sorted_sorted(b, before);
    lemma_stable_sorted_multiset(a, before);
    lemma_stable_sorted_multiset(b, before);
    lemma_sorted_unique_by(stable_sorted(a, before), stable_sorted(b, before), before);
}


proof fn lemma_count_not_before_keyed<T, U>(p: Seq<T>, x: T, key: spec_fn(T) -> U, bt: spec_fn(T, T) -> bool, bu: spec_fn(U, U) -> bool)
    requires
        forall|a: T, b: T| #[trigger] bt(a, b) == bu(key(a), key(b)),
    ensures
        count_not_before(p, x, bt) == count_not_before(p.map_values(key), key(x), bu),
    decreases p.len(),
{
    if p.len() > 0 {
        assert(p.map_values(key).drop_last() =~= p.drop_last().map_values(key));
        lemma_count_not_before_keyed(p.drop_last(), x, key, bt, bu);
        assert(bt(x, p.last()) == bu(key(x), key(p.last())));
    }
}

/// Sorting by a key and then taking the keys gives the keys sorted: a
/// stable sort by `key` agrees with a stable sort of the keys.
pub proof fn lemma_stable_sorted_keyed<T, U>(s: Seq<T>, key: spec_fn(T) -> U, bt: spec_fn(T, T) -> bool, bu: spec_fn(U, U) -> bool)
    requires
        forall|a: T, b: T| #[trigger] bt(a, b) == bu(key(a), key(b)),
    ensures
        stable_sorted(s, bt).map_values(key) == stable_sorted(s.map_values(key), bu),
    decreases s.len(),
{
    if s.len() > 0 {
        let q = s.drop_last();
        assert(s.map_values(key).drop_last() =~= q.map_values(key));
        lemma_stable_sorted_keyed(q, key, bt, bu);
        let p = stable_sorted(q, bt);
        lemma_count_not_before_keyed(p, s.last(), key, bt, bu);
        lemma_count_not_before_le(p, s.last(), bt);
        let c = count_not_before(p, s.last(), bt) as int;
        assert(p.insert(c, s.last()).map_values(key) =~= p.map_values(key).insert(c, key(s.last())));
    }
}

} // verus!
