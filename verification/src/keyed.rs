//! Integer-sequence keys under lexicographic order, and vectors of keys
//! kept strictly sorted, so that a collection ordered by its keys holds each
//! key once and does not depend on the order its items arrived in.

use vstd::prelude::*;

verus! {

/// `a` sorts strictly before `b`: at the first position where they differ
/// `a` holds the smaller value, or `a` is a proper prefix of `b`.
pub open spec fn key_lt(a: Seq<i128>, b: Seq<i128>) -> bool
    decreases a.len(),
{
    if a.len() == 0 {
        b.len() > 0
    } else if b.len() == 0 {
        false
    } else if a[0] != b[0] {
        a[0] < b[0]
    } else {
        key_lt(a.drop_first(), b.drop_first())
    }
}

/// No key sorts before itself, and of two keys at most one sorts first.
pub proof fn lemma_key_lt_asym(a: Seq<i128>, b: Seq<i128>)
    ensures
        !key_lt(a, a),
        key_lt(a, b) ==> !key_lt(b, a),
    decreases a.len(),
{
    if a.len() > 0 {
        lemma_key_lt_asym(a.drop_first(), a.drop_first());
        if b.len() > 0 {
            lemma_key_lt_asym(a.drop_first(), b.drop_first());
        }
    }
}

/// Two different keys are ordered one way or the other.
pub proof fn lemma_key_lt_total(a: Seq<i128>, b: Seq<i128>)
    ensures
        a != b ==> key_lt(a, b) || key_lt(b, a),
    decreases a.len(),
{
    if a.len() > 0 && b.len() > 0 && a[0] == b[0] {
        lemma_key_lt_total(a.drop_first(), b.drop_first());
        if a.drop_first() == b.drop_first() {
            assert(a =~= seq![a[0]] + a.drop_first());
            assert(b =~= seq![b[0]] + b.drop_first());
        }
    }
    if a.len() == 0 && b.len() == 0 {
        assert(a =~= b);
    }
}

/// The order is transitive.
pub proof fn lemma_key_lt_trans(a: Seq<i128>, b: Seq<i128>, c: Seq<i128>)
    requires
        key_lt(a, b),
        key_lt(b, c),
    ensures
        key_lt(a, c),
    decreases a.len(),
{
    if a.len() > 0 && b.len() > 0 && c.len() > 0 && a[0] == b[0] && b[0] == c[0] {
        lemma_key_lt_trans(a.drop_first(), b.drop_first(), c.drop_first());
    }
}

/// Every key sorts strictly before every later one.
pub open spec fn keys_sorted(s: Seq<Seq<i128>>) -> bool {
    forall|i: int, j: int| 0 <= i < j < s.len() ==> key_lt(#[trigger] s[i], #[trigger] s[j])
}

/// The keys held by a vector of key vectors.
pub open spec fn key_views(s: Seq<Vec<i128>>) -> Seq<Seq<i128>> {
    s.map_values(|k: Vec<i128>| k@)
}

/// Two strictly sorted key sequences holding the same keys are equal.
pub proof fn lemma_sorted_unique(s: Seq<Seq<i128>>, t: Seq<Seq<i128>>)
    requires
        keys_sorted(s),
        keys_sorted(t),
        forall|k: Seq<i128>| s.contains(k) <==> t.contains(k),
    ensures
        s == t,
    decreases s.len(),
{
    if s.len() == 0 {
        if t.len() > 0 {
            assert(t.contains(t[0]));
        }
        assert(s =~= t);
    } else {
        assert(s.contains(s[0]));
        let k = choose|k: int| 0 <= k < t.len() && t[k] == s[0];
        assert(t.contains(t[0]));
        let j = choose|j: int| 0 <= j < s.len() && s[j] == t[0];
        if j > 0 {
            assert(key_lt(s[0], s[j]));
            if k > 0 {
                assert(key_lt(t[0], t[k]));
                lemma_key_lt_asym(s[0], t[0]);
            } else {
                lemma_key_lt_asym(s[0], s[0]);
            }
        }
        assert(s[0] == t[0]);
        let s1 = s.drop_first();
        let t1 = t.drop_first();
        assert forall|x: Seq<i128>| s1.contains(x) <==> t1.contains(x) by {
            if s1.contains(x) {
                let a = choose|a: int| 0 <= a < s1.len() && s1[a] == x;
                assert(key_lt(s[0], s[a + 1]));
                lemma_key_lt_asym(s[0], s[0]);
                assert(s.contains(x));
                let b = choose|b: int| 0 <= b < t.len() && t[b] == x;
                assert(b != 0);
                assert(t1[b - 1] == x);
            }
            if t1.contains(x) {
                let a = choose|a: int| 0 <= a < t1.len() && t1[a] == x;
                assert(key_lt(t[0], t[a + 1]));
                lemma_key_lt_asym(t[0], t[0]);
                assert(t.contains(x));
                let b = choose|b: int| 0 <= b < s.len() && s[b] == x;
                assert(b != 0);
                assert(s1[b - 1] == x);
            }
        }
        lemma_sorted_unique(s1, t1);
        assert(s =~= seq![s[0]] + s1);
        assert(t =~= seq![t[0]] + t1);
    }
}

/// Inserting a key between those that sort before it and those that sort
/// after it keeps the sequence strictly sorted.
pub proof fn lemma_insert_sorted(s: Seq<Seq<i128>>, p: int, k: Seq<i128>)
    requires
        keys_sorted(s),
        0 <= p <= s.len(),
        forall|i: int| 0 <= i < p ==> key_lt(#[trigger] s[i], k),
        forall|i: int| p <= i < s.len() ==> key_lt(k, #[trigger] s[i]),
    ensures
        keys_sorted(s.insert(p, k)),
{
    let r = s.insert(p, k);
    assert forall|i: int, j: int| 0 <= i < j < r.len() implies key_lt(#[trigger] r[i], #[trigger] r[j]) by {
        if j < p {
            assert(r[i] == s[i] && r[j] == s[j]);
        } else if j == p {
            assert(r[i] == s[i]);
        } else if i < p {
            assert(r[i] == s[i] && r[j] == s[j - 1]);
            lemma_key_lt_trans(s[i], k, s[j - 1]);
        } else if i == p {
            assert(r[j] == s[j - 1]);
        } else {
            assert(r[i] == s[i - 1] && r[j] == s[j - 1]);
        }
    }
}

/// Whether key `a` sorts strictly before key `b`, as [`key_lt`] says.
pub fn key_less(a: &Vec<i128>, b: &Vec<i128>) -> (r: bool)
    ensures
        r == key_lt(a@, b@),
{
    let mut i: usize = 0;
    assert(a@.skip(0) =~= a@ && b@.skip(0) =~= b@);
    while i < a.len() && i < b.len()
        invariant
            i <= a@.len(),
            i <= b@.len(),
            key_lt(a@.skip(i as int), b@.skip(i as int)) == key_lt(a@, b@),
        decreases a@.len() - i,
    {
        let ghost sa = a@.skip(i as int);
        let ghost sb = b@.skip(i as int);
        assert(sa[0] == a@[i as int] && sb[0] == b@[i as int]);
        assert(sa.drop_first() =~= a@.skip(i + 1));
        assert(sb.drop_first() =~= b@.skip(i + 1));
        if a[i] != b[i] {
            return a[i] < b[i];
        }
        i = i + 1;
    }
    i == a.len() && i < b.len()
}

/// Whether two keys are equal.
pub fn key_same(a: &Vec<i128>, b: &Vec<i128>) -> (r: bool)
    ensures
        r == (a@ == b@),
{
    if a.len() != b.len() {
        return false;
    }
    let mut i: usize = 0;
    while i < a.len()
        invariant
            a@.len() == b@.len(),
            i <= a@.len(),
            forall|k: int| 0 <= k < i ==> a@[k] == b@[k],
        decreases a@.len() - i,
    {
        if a[i] != b[i] {
            return false;
        }
        i = i + 1;
    }
    assert(a@ =~= b@);
    true
}

/// Where `key` belongs in the strictly sorted `keys`: the position `p` such
/// that every key before it sorts before `key`, and whether `keys[p]` is
/// `key` itself; when it is not, every key from `p` on sorts after `key`.
pub fn locate_key(keys: &Vec<Vec<i128>>, key: &Vec<i128>) -> (r: (usize, bool))
    requires
        keys_sorted(key_views(keys@)),
    ensures
        r.0 <= keys@.len(),
        forall|i: int| 0 <= i < r.0 ==> key_lt(#[trigger] key_views(keys@)[i], key@),
        r.1 ==> r.0 < keys@.len() && keys@[r.0 as int]@ == key@,
        !r.1 ==> forall|i: int| r.0 <= i < keys@.len() ==> key_lt(key@, #[trigger] key_views(keys@)[i]),
{
    let ghost ks = key_views(keys@);
    let mut lo: usize = 0;
    let mut hi: usize = keys.len();
    while lo < hi
        invariant
            ks == key_views(keys@),
            keys_sorted(ks),
            ks.len() == keys@.len(),
            lo <= hi <= keys@.len(),
            forall|i: int| 0 <= i < lo ==> key_lt(#[trigger] ks[i], key@),
            forall|i: int| hi <= i < keys@.len() ==> key_lt(key@, #[trigger] ks[i]),
        decreases hi - lo,
    {
        let mid = lo + (hi - lo) / 2;
        assert(ks[mid as int] == keys@[mid as int]@);
        if key_same(&keys[mid], key) {
            return (mid, true);
        }
        if key_less(&keys[mid], key) {
            assert forall|i: int| 0 <= i < mid + 1 implies key_lt(#[trigger] ks[i], key@) by {
                if i < mid {
                    lemma_key_lt_trans(ks[i], ks[mid as int], key@);
                }
            }
            lo = mid + 1;
        } else {
            proof {
                lemma_key_lt_total(ks[mid as int], key@);
            }
            assert forall|i: int| mid <= i < keys@.len() implies key_lt(key@, #[trigger] ks[i]) by {
                if i > mid {
                    lemma_key_lt_trans(key@, ks[mid as int], ks[i]);
                }
            }
            hi = mid;
        }
    }
    (lo, false)
}

} // verus!
