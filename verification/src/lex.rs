//! Lexicographic order on character sequences (the order of Rust's
//! `String`, since UTF-8 preserves code-point order), with the facts that
//! make it a total order.

use vstd::prelude::*;

verus! {

/// `a` sorts no later than `b`, comparing code points left to right.
pub open spec fn seq_le(a: Seq<char>, b: Seq<char>) -> bool
    decreases a.len(),
{
    if a.len() == 0 {
        true
    } else if b.len() == 0 {
        false
    } else if a[0] < b[0] {
        true
    } else if a[0] > b[0] {
        false
    } else {
        seq_le(a.drop_first(), b.drop_first())
    }
}

pub proof fn lemma_seq_le_total(a: Seq<char>, b: Seq<char>)
    ensures
        seq_le(a, b) || seq_le(b, a),
    decreases a.len(),
{
    if a.len() > 0 && b.len() > 0 && a[0] == b[0] {
        lemma_seq_le_total(a.drop_first(), b.drop_first());
    }
}

pub proof fn lemma_seq_le_antisym(a: Seq<char>, b: Seq<char>)
    requires
        seq_le(a, b),
        seq_le(b, a),
    ensures
        a == b,
    decreases a.len(),
{
    if a.len() > 0 {
        assert(b.len() > 0);
        if a[0] < b[0] {
            assert(!seq_le(b, a));
        }
        if a[0] > b[0] {
            assert(!seq_le(a, b));
        }
        assert(a[0] == b[0]);
        lemma_seq_le_antisym(a.drop_first(), b.drop_first());
        assert(a =~= seq![a[0]] + a.drop_first());
        assert(b =~= seq![b[0]] + b.drop_first());
    } else if b.len() > 0 {
        assert(!seq_le(b, a));
    }
}

pub proof fn lemma_seq_le_trans(a: Seq<char>, b: Seq<char>, c: Seq<char>)
    requires
        seq_le(a, b),
        seq_le(b, c),
    ensures
        seq_le(a, c),
    decreases a.len(),
{
    if a.len() > 0 && b.len() > 0 && c.len() > 0 && a[0] == b[0] && b[0] == c[0] {
        lemma_seq_le_trans(a.drop_first(), b.drop_first(), c.drop_first());
    }
}

/// Whether `a` sorts no later than `b`.
pub fn chars_le(a: &Vec<char>, b: &Vec<char>) -> (r: bool)
    ensures
        r == seq_le(a@, b@),
{
    let mut i: usize = 0;
    assert(a@.skip(0) =~= a@);
    assert(b@.skip(0) =~= b@);
    while i < a.len() && i < b.len() && a[i] == b[i]
        invariant
            i <= a@.len(),
            i <= b@.len(),
            seq_le(a@.skip(i as int), b@.skip(i as int)) == seq_le(a@, b@),
        decreases a@.len() - i,
    {
        proof {
            assert(a@.skip(i as int).drop_first() =~= a@.skip(i + 1));
            assert(b@.skip(i as int).drop_first() =~= b@.skip(i + 1));
        }
        i = i + 1;
    }
    if i == a.len() {
        assert(a@.skip(i as int).len() == 0);
        true
    } else if i == b.len() {
        assert(b@.skip(i as int).len() == 0);
        false
    } else {
        assert(a@.skip(i as int)[0] == a@[i as int]);
        assert(b@.skip(i as int)[0] == b@[i as int]);
        a[i] < b[i]
    }
}

/// An optional text, absent first.
pub open spec fn opt_seq_le(a: Option<Seq<char>>, b: Option<Seq<char>>) -> bool {
    match (a, b) {
        (None, _) => true,
        (Some(_), None) => false,
        (Some(x), Some(y)) => seq_le(x, y),
    }
}

pub proof fn lemma_opt_seq_le(a: Option<Seq<char>>, b: Option<Seq<char>>, c: Option<Seq<char>>)
    ensures
        opt_seq_le(a, b) || opt_seq_le(b, a),
        opt_seq_le(a, b) && opt_seq_le(b, a) ==> a == b,
        opt_seq_le(a, b) && opt_seq_le(b, c) ==> opt_seq_le(a, c),
{
    if let (Some(x), Some(y)) = (a, b) {
        lemma_seq_le_total(x, y);
        if seq_le(x, y) && seq_le(y, x) {
            lemma_seq_le_antisym(x, y);
        }
        if let Some(z) = c {
            if seq_le(x, y) && seq_le(y, z) {
                lemma_seq_le_trans(x, y, z);
            }
        }
    }
}

} // verus!
