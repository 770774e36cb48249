//! The key by which complete combinations are ranked under the balanced
//! policy, best first: fewer unresolved fields, then the lower cost key,
//! then the shorter longest lead time, then the higher lowest purity, then
//! the manufacturers, catalog numbers and offer identifiers (each sorted)
//! in text order as the deterministic tiebreak.

use crate::commercial_catalog::model::{text_lt, CurrencyCode, Money};
use crate::commercial_catalog::quantity::cost_rank_key;
use crate::commercial_catalog::search::{
    chosen, combination_total_cost, cost_total, valid_choice, OfferCandidate,
};
use crate::frac::Frac;
use crate::lex::{lemma_seq_le_total, seq_le};
use crate::linalg::Q;
use vstd::prelude::*;
use vstd::string::StringExecFns;

verus! {

/// The texts of a list of strings.
pub open spec fn texts(v: Seq<String>) -> Seq<Seq<char>> {
    Seq::new(v.len(), |i: int| v[i]@)
}

/// `a` sorts strictly before `b`, element by element, a proper prefix
/// first.
pub open spec fn texts_lt(a: Seq<Seq<char>>, b: Seq<Seq<char>>) -> bool
    decreases a.len(),
{
    if a.len() == 0 {
        b.len() > 0
    } else if b.len() == 0 {
        false
    } else if a[0] != b[0] {
        seq_le(a[0], b[0])
    } else {
        texts_lt(a.drop_first(), b.drop_first())
    }
}

/// `x` inserted into `s` before the first entry it sorts no later than.
pub open spec fn insert_text(s: Seq<Seq<char>>, x: Seq<char>) -> Seq<Seq<char>>
    decreases s.len(),
{
    if s.len() == 0 {
        seq![x]
    } else if seq_le(x, s[0]) {
        seq![x] + s
    } else {
        seq![s[0]] + insert_text(s.drop_first(), x)
    }
}

/// `s` in text order, by insertion.
pub open spec fn sorted_texts(s: Seq<Seq<char>>) -> Seq<Seq<char>>
    decreases s.len(),
{
    if s.len() == 0 {
        Seq::empty()
    } else {
        insert_text(sorted_texts(s.drop_last()), s.last())
    }
}

/// Inserting where the first entry no earlier than `x` stands.
proof fn lemma_insert_text_at(s: Seq<Seq<char>>, x: Seq<char>, p: int)
    requires
        0 <= p <= s.len(),
        forall|j: int| 0 <= j < p ==> !seq_le(x, #[trigger] s[j]),
        p < s.len() ==> seq_le(x, s[p]),
    ensures
        insert_text(s, x) == s.take(p) + seq![x] + s.skip(p),
    decreases s.len(),
{
    if s.len() == 0 {
        assert(s.take(p) + seq![x] + s.skip(p) =~= seq![x]);
    } else if p == 0 {
        assert(s.take(0) + seq![x] + s.skip(0) =~= seq![x] + s);
    } else {
        let t = s.drop_first();
        assert forall|j: int| 0 <= j < p - 1 implies !seq_le(x, #[trigger] t[j]) by {
            assert(t[j] == s[j + 1]);
        }
        lemma_insert_text_at(t, x, p - 1);
        assert(seq![s[0]] + (t.take(p - 1) + seq![x] + t.skip(p - 1)) =~= s.take(p) + seq![x] + s.skip(p));
    }
}

/// Sorts strings into text order.
pub fn sort_texts(v: Vec<String>) -> (r: Vec<String>)
    ensures
        texts(r@) == sorted_texts(texts(v@)),
{
    let ghost orig = texts(v@);
    let mut out: Vec<String> = Vec::new();
    let mut i: usize = 0;
    let n = v.len();
    let mut rest = v;
    assert(texts(out@) =~= sorted_texts(orig.take(0)));
    while i < n
        invariant
            i <= n,
            n == orig.len(),
            rest@.len() == n - i,
            texts(rest@) == orig.skip(i as int),
            texts(out@) == sorted_texts(orig.take(i as int)),
        decreases n - i,
    {
        let ghost r0 = rest@;
        let x = rest.remove(0);
        proof {
            assert(x@ == texts(r0)[0]);
            assert(x@ == orig[i as int]);
            assert(texts(rest@) =~= orig.skip(i + 1)) by {
                assert forall|k: int| 0 <= k < rest@.len() implies texts(rest@)[k] == orig.skip(i + 1)[k] by {
                    assert(rest@[k] == r0[k + 1]);
                    assert(texts(r0)[k + 1] == orig.skip(i as int)[k + 1]);
                }
            }
        }
        let mut p: usize = 0;
        while p < out.len() && !seq_le_exec(&x, &out[p])
            invariant
                p <= out@.len(),
                forall|j: int| 0 <= j < p ==> !seq_le(x@, #[trigger] texts(out@)[j]),
            decreases out@.len() - p,
        {
            p = p + 1;
        }
        let ghost o0 = texts(out@);
        proof {
            lemma_insert_text_at(o0, x@, p as int);
            assert(orig.take(i + 1).drop_last() =~= orig.take(i as int));
            assert(orig.take(i + 1).last() == x@);
        }
        out.insert(p, x);
        proof {
            assert(texts(out@) =~= o0.take(p as int) + seq![orig[i as int]] + o0.skip(p as int));
        }
        i = i + 1;
    }
    proof {
        assert(orig.take(n as int) =~= orig);
    }
    out
}

/// Whether `a` sorts no later than `b`.
fn seq_le_exec(a: &String, b: &String) -> (r: bool)
    ensures
        r == seq_le(a@, b@),
{
    let lt = text_lt(a, b);
    if lt {
        return true;
    }
    if *a == *b {
        proof {
            lemma_seq_le_total(a@, a@);
        }
        return true;
    }
    false
}

/// Whether `a` sorts strictly before `b` as [`texts_lt`] says.
pub fn texts_less(a: &Vec<String>, b: &Vec<String>) -> (r: bool)
    ensures
        r == texts_lt(texts(a@), texts(b@)),
{
    let mut i: usize = 0;
    proof {
        assert(texts(a@).skip(0) =~= texts(a@));
        assert(texts(b@).skip(0) =~= texts(b@));
    }
    while i < a.len() && i < b.len() && a[i] == b[i]
        invariant
            i <= a@.len(),
            i <= b@.len(),
            texts_lt(texts(a@).skip(i as int), texts(b@).skip(i as int)) == texts_lt(texts(a@), texts(b@)),
        decreases a@.len() - i,
    {
        proof {
            assert(texts(a@).skip(i as int).drop_first() =~= texts(a@).skip(i + 1));
            assert(texts(b@).skip(i as int).drop_first() =~= texts(b@).skip(i + 1));
            assert(texts(a@).skip(i as int)[0] == a@[i as int]@);
            assert(texts(b@).skip(i as int)[0] == b@[i as int]@);
        }
        i = i + 1;
    }
    proof {
        if i < a@.len() {
            assert(texts(a@).skip(i as int)[0] == a@[i as int]@);
        }
        if i < b@.len() {
            assert(texts(b@).skip(i as int)[0] == b@[i as int]@);
        }
    }
    if i == a.len() {
        i < b.len()
    } else if i == b.len() {
        false
    } else {
        text_lt(&a[i], &b[i])
    }
}

/// The cost key of a total: `(0, code, units)` when known,
/// `(1, none, 0)` otherwise.
pub open spec fn cost_key_of(total: Option<Money>) -> (u8, Option<CurrencyCode>, u64) {
    match total {
        Some(m) => (0u8, Some(m.code()), m.units()),
        None => (1u8, None, 0u64),
    }
}

/// Strict order of cost keys: known totals first, then by currency code,
/// then by amount.
pub open spec fn cost_key_lt(a: (u8, Option<CurrencyCode>, u64), b: (u8, Option<CurrencyCode>, u64)) -> bool {
    if a.0 != b.0 {
        a.0 < b.0
    } else {
        match (a.1, b.1) {
            (None, Some(_)) => true,
            (Some(_), None) => false,
            (Some(x), Some(y)) if x.letters() != y.letters() => seq_le(x.letters(), y.letters()),
            _ => a.2 < b.2,
        }
    }
}

/// The two cost keys are equal in every component the order reads.
pub open spec fn cost_key_eq(a: (u8, Option<CurrencyCode>, u64), b: (u8, Option<CurrencyCode>, u64)) -> bool {
    &&& a.0 == b.0
    &&& a.2 == b.2
    &&& match (a.1, b.1) {
        (None, None) => true,
        (Some(x), Some(y)) => x.letters() == y.letters(),
        _ => false,
    }
}

/// Whether cost key `a` sorts strictly before `b`.
pub(crate) fn cost_key_less(a: &(u8, Option<CurrencyCode>, u64), b: &(u8, Option<CurrencyCode>, u64)) -> (r: bool)
    ensures
        r == cost_key_lt(*a, *b),
{
    if a.0 != b.0 {
        return a.0 < b.0;
    }
    match (a.1, b.1) {
        (None, Some(_)) => true,
        (Some(_), None) => false,
        (Some(x), Some(y)) => {
            if !x.same(&y) {
                x.precedes(&y)
            } else {
                a.2 < b.2
            }
        },
        (None, None) => a.2 < b.2,
    }
}

/// Whether two cost keys are equal in every component.
pub(crate) fn cost_key_same(a: &(u8, Option<CurrencyCode>, u64), b: &(u8, Option<CurrencyCode>, u64)) -> (r: bool)
    ensures
        r == cost_key_eq(*a, *b),
{
    a.0 == b.0 && a.2 == b.2 && match (a.1, b.1) {
        (None, None) => true,
        (Some(x), Some(y)) => x.same(&y),
        _ => false,
    }
}

/// The unresolved-field counts summed, at most `usize::MAX`.
pub open spec fn unresolved_total<'a>(sel: Seq<OfferCandidate<'a>>) -> int
    decreases sel.len(),
{
    if sel.len() == 0 {
        0
    } else {
        let t = unresolved_total(sel.drop_last()) + sel.last().unresolved_fields@.len();
        if t > usize::MAX {
            usize::MAX as int
        } else {
            t
        }
    }
}

/// The longest lead time, an unknown one counting as `u32::MAX`; 0 for no
/// candidate.
pub open spec fn lead_key<'a>(sel: Seq<OfferCandidate<'a>>) -> int
    decreases sel.len(),
{
    if sel.len() == 0 {
        0
    } else {
        let l = match sel.last().offer.lead_time_days {
            Some(d) => d as int,
            None => u32::MAX as int,
        };
        let m = lead_key(sel.drop_last());
        if l > m {
            l
        } else {
            m
        }
    }
}

/// A candidate's purity, an unknown one counting as 0.
pub open spec fn purity_value<'a>(c: OfferCandidate<'a>) -> Q {
    match c.offer.purity {
        Some(p) => p.fraction()@,
        None => (0int, 1int),
    }
}

/// `a < b` as rationals with positive denominators.
pub open spec fn q_lt(a: Q, b: Q) -> bool {
    a.0 * b.1 < b.0 * a.1
}

/// The lowest purity of a non-empty selection, unknown ones counting as 0.
pub open spec fn purity_key<'a>(sel: Seq<OfferCandidate<'a>>) -> Q
    decreases sel.len(),
{
    if sel.len() <= 1 {
        if sel.len() == 1 {
            purity_value(sel[0])
        } else {
            (1int, 0int)
        }
    } else {
        let m = purity_key(sel.drop_last());
        let v = purity_value(sel.last());
        if q_lt(v, m) {
            v
        } else {
            m
        }
    }
}

/// The manufacturers of a selection, in row order.
pub open spec fn maker_names<'a>(sel: Seq<OfferCandidate<'a>>) -> Seq<Seq<char>> {
    Seq::new(sel.len(), |i: int| sel[i].offer.manufacturer@)
}

/// The catalog numbers of a selection, an unknown one as empty text.
pub open spec fn catalog_names<'a>(sel: Seq<OfferCandidate<'a>>) -> Seq<Seq<char>> {
    Seq::new(
        sel.len(),
        |i: int|
            match sel[i].offer.catalog_number {
                Some(c) => c@,
                None => Seq::empty(),
            },
    )
}

/// The offer identifiers of a selection.
pub open spec fn id_names<'a>(sel: Seq<OfferCandidate<'a>>) -> Seq<Seq<char>> {
    Seq::new(sel.len(), |i: int| sel[i].offer.offer_id.0@)
}

/// One complete combination with its precomputed rank key.
pub struct RankEntry {
    pub indices: Vec<usize>,
    pub unresolved_sum: usize,
    pub total_cost: Option<Money>,
    pub cost_key: (u8, Option<CurrencyCode>, u64),
    pub max_lead_time: u32,
    pub min_purity: Frac,
    pub manufacturers: Vec<String>,
    pub catalog_numbers: Vec<String>,
    pub offer_ids: Vec<String>,
}

/// `e` holds the rank key of the combination its indices pick from `rows`.
pub open spec fn describes<'a>(e: RankEntry, rows: Seq<Vec<OfferCandidate<'a>>>) -> bool {
    let sel = chosen(rows, e.indices@);
    &&& valid_choice(rows, e.indices@)
    &&& e.unresolved_sum == unresolved_total(sel)
    &&& (e.total_cost is None <==> cost_total(sel) is None)
    &&& (e.total_cost matches Some(m) ==> cost_total(sel) == Some((m.units() as int, m.code())))
    &&& e.cost_key == cost_key_of(e.total_cost)
    &&& e.max_lead_time == lead_key(sel)
    &&& e.min_purity@ == purity_key(sel)
    &&& e.min_purity.wf()
    &&& texts(e.manufacturers@) == sorted_texts(maker_names(sel))
    &&& texts(e.catalog_numbers@) == sorted_texts(catalog_names(sel))
    &&& texts(e.offer_ids@) == sorted_texts(id_names(sel))
}

/// `a` ranks strictly better than `b` under the balanced policy.
pub open spec fn ranks_better(a: RankEntry, b: RankEntry) -> bool {
    if a.unresolved_sum != b.unresolved_sum {
        a.unresolved_sum < b.unresolved_sum
    } else if !cost_key_eq(a.cost_key, b.cost_key) {
        cost_key_lt(a.cost_key, b.cost_key)
    } else if a.max_lead_time != b.max_lead_time {
        a.max_lead_time < b.max_lead_time
    } else if q_lt(b.min_purity@, a.min_purity@) || q_lt(a.min_purity@, b.min_purity@) {
        q_lt(b.min_purity@, a.min_purity@)
    } else if texts(a.manufacturers@) != texts(b.manufacturers@) {
        texts_lt(texts(a.manufacturers@), texts(b.manufacturers@))
    } else if texts(a.catalog_numbers@) != texts(b.catalog_numbers@) {
        texts_lt(texts(a.catalog_numbers@), texts(b.catalog_numbers@))
    } else {
        texts_lt(texts(a.offer_ids@), texts(b.offer_ids@))
    }
}

/// Whether two string lists are equal.
pub(crate) fn texts_same(a: &Vec<String>, b: &Vec<String>) -> (r: bool)
    ensures
        r == (texts(a@) == texts(b@)),
{
    if a.len() != b.len() {
        assert(texts(a@).len() != texts(b@).len());
        return false;
    }
    let mut i: usize = 0;
    while i < a.len()
        invariant
            i <= a@.len(),
            a@.len() == b@.len(),
            forall|k: int| 0 <= k < i ==> #[trigger] texts(a@)[k] == texts(b@)[k],
        decreases a@.len() - i,
    {
        if a[i] != b[i] {
            assert(texts(a@)[i as int] != texts(b@)[i as int]);
            return false;
        }
        i = i + 1;
    }
    assert(texts(a@) =~= texts(b@));
    true
}

/// Whether `a` ranks strictly better than `b`, as [`ranks_better`] says.
pub fn rank_better(a: &RankEntry, b: &RankEntry) -> (r: bool)
    requires
        a.min_purity.wf(),
        b.min_purity.wf(),
    ensures
        r == ranks_better(*a, *b),
{
    if a.unresolved_sum != b.unresolved_sum {
        return a.unresolved_sum < b.unresolved_sum;
    }
    if !cost_key_same(&a.cost_key, &b.cost_key) {
        return cost_key_less(&a.cost_key, &b.cost_key);
    }
    if a.max_lead_time != b.max_lead_time {
        return a.max_lead_time < b.max_lead_time;
    }
    let b_below = b.min_purity.less_than(&a.min_purity);
    let a_below = a.min_purity.less_than(&b.min_purity);
    if b_below || a_below {
        return b_below;
    }
    if !texts_same(&a.manufacturers, &b.manufacturers) {
        return texts_less(&a.manufacturers, &b.manufacturers);
    }
    if !texts_same(&a.catalog_numbers, &b.catalog_numbers) {
        return texts_less(&a.catalog_numbers, &b.catalog_numbers);
    }
    texts_less(&a.offer_ids, &b.offer_ids)
}

/// The rank entry of the combination `indices` picks.
pub fn rank_entry<'a>(indices: Vec<usize>, rows: &[Vec<OfferCandidate<'a>>]) -> (r: RankEntry)
    requires
        valid_choice(rows@, indices@),
        indices@.len() > 0,
    ensures
        describes(r, rows@),
        r.indices@ == indices@,
{
    let ghost sel = chosen(rows@, indices@);
    let n = indices.len();
    let mut unresolved_sum: usize = 0;
    let mut max_lead_time: u32 = 0;
    let mut min_purity: Frac = Frac::zero();
    let mut makers: Vec<String> = Vec::new();
    let mut catalogs: Vec<String> = Vec::new();
    let mut ids: Vec<String> = Vec::new();
    let mut i: usize = 0;
    while i < n
        invariant
            i <= n,
            n == indices@.len(),
            n > 0,
            valid_choice(rows@, indices@),
            sel == chosen(rows@, indices@),
            unresolved_sum == unresolved_total(sel.take(i as int)),
            max_lead_time == lead_key(sel.take(i as int)),
            min_purity.wf(),
            i > 0 ==> min_purity@ == purity_key(sel.take(i as int)),
            makers@.len() == i,
            catalogs@.len() == i,
            ids@.len() == i,
            texts(makers@) == maker_names(sel.take(i as int)),
            texts(catalogs@) == catalog_names(sel.take(i as int)),
            texts(ids@) == id_names(sel.take(i as int)),
        decreases n - i,
    {
        let c = &rows[i][indices[i]];
        assert(*c == sel[i as int]);
        let ghost prefix = sel.take(i + 1);
        proof {
            assert(prefix.drop_last() =~= sel.take(i as int));
            assert(prefix.last() == sel[i as int]);
        }
        let count = c.unresolved_fields.len();
        unresolved_sum = match unresolved_sum.checked_add(count) {
            Some(t) => t,
            None => usize::MAX,
        };
        let lead = match c.offer.lead_time_days {
            Some(d) => d,
            None => u32::MAX,
        };
        if lead > max_lead_time {
            max_lead_time = lead;
        }
        let value = match c.offer.purity {
            Some(p) => p.value(),
            None => Frac::zero(),
        };
        if i == 0 {
            min_purity = value;
            proof {
                assert(prefix.len() == 1);
                assert(prefix[0] == sel[0]);
            }
        } else if value.less_than(&min_purity) {
            min_purity = value;
        }
        let ghost old_makers = makers@;
        let ghost old_catalogs = catalogs@;
        let maker = c.offer.manufacturer.clone();
        assert(maker@ == sel[i as int].offer.manufacturer@);
        makers.push(maker);
        let catalog = match &c.offer.catalog_number {
            Some(cn) => cn.clone(),
            None => String::new(),
        };
        assert(catalog@ == catalog_names(prefix)[i as int]);
        catalogs.push(catalog);
        let ghost old_ids = ids@;
        let id = c.offer.offer_id.0.clone();
        assert(id@ == id_names(prefix)[i as int]);
        ids.push(id);
        proof {
            assert forall|k: int| 0 <= k < i + 1 implies #[trigger] texts(makers@)[k] == maker_names(prefix)[k] by {
                if k < i {
                    assert(prefix[k] == sel.take(i as int)[k]);
                    assert(maker_names(sel.take(i as int))[k] == texts(old_makers)[k]);
                    assert(makers@[k] == old_makers[k]);
                }
            }
            assert forall|k: int| 0 <= k < i + 1 implies #[trigger] texts(catalogs@)[k] == catalog_names(prefix)[k] by {
                if k < i {
                    assert(prefix[k] == sel.take(i as int)[k]);
                    assert(catalog_names(sel.take(i as int))[k] == texts(old_catalogs)[k]);
                    assert(catalogs@[k] == old_catalogs[k]);
                }
            }
            assert forall|k: int| 0 <= k < i + 1 implies #[trigger] texts(ids@)[k] == id_names(prefix)[k] by {
                if k < i {
                    assert(prefix[k] == sel.take(i as int)[k]);
                    assert(id_names(sel.take(i as int))[k] == texts(old_ids)[k]);
                    assert(ids@[k] == old_ids[k]);
                }
            }
            assert(texts(makers@) =~= maker_names(prefix));
            assert(texts(catalogs@) =~= catalog_names(prefix));
            assert(texts(ids@) =~= id_names(prefix));
        }
        i = i + 1;
    }
    proof {
        assert(sel.take(n as int) =~= sel);
    }
    let total_cost = combination_total_cost(rows, &indices);
    let cost_key = cost_rank_key(total_cost);
    RankEntry {
        indices,
        unresolved_sum,
        total_cost,
        cost_key,
        max_lead_time,
        min_purity,
        manufacturers: sort_texts(makers),
        catalog_numbers: sort_texts(catalogs),
        offer_ids: sort_texts(ids),
    }
}

/// The cost key of a choice's total, by code letters: `(0, letters,
/// units)` when known, `(1, none, 0)` otherwise.
pub open spec fn choice_cost_key<'a>(sel: Seq<OfferCandidate<'a>>) -> (int, Option<Seq<char>>, int) {
    match cost_total(sel) {
        Some(t) => (0int, Some(t.1.letters()), t.0),
        None => (1int, None, 0int),
    }
}

/// Strict order of cost keys by code letters.
pub open spec fn cost_triple_lt(a: (int, Option<Seq<char>>, int), b: (int, Option<Seq<char>>, int)) -> bool {
    if a.0 != b.0 {
        a.0 < b.0
    } else {
        match (a.1, b.1) {
            (None, Some(_)) => true,
            (Some(_), None) => false,
            (Some(x), Some(y)) if x != y => seq_le(x, y),
            _ => a.2 < b.2,
        }
    }
}

/// The lead-time key of a selection is its longest lead time, an unknown
/// one counting as the longest possible: no candidate's exceeds it, and for
/// a non-empty selection some candidate's equals it.
pub proof fn lemma_lead_key_meaning<'a>(sel: Seq<OfferCandidate<'a>>)
    ensures
        forall|i: int| 0 <= i < sel.len() ==> lead_of(#[trigger] sel[i]) <= lead_key(sel),
        sel.len() > 0 ==> exists|i: int| 0 <= i < sel.len() && lead_of(#[trigger] sel[i]) == lead_key(sel),
    decreases sel.len(),
{
    if sel.len() > 0 {
        let t = sel.drop_last();
        lemma_lead_key_meaning(t);
        assert(lead_of(sel.last()) == lead_of(sel[sel.len() - 1]));
        assert forall|i: int| 0 <= i < sel.len() implies lead_of(#[trigger] sel[i]) <= lead_key(sel) by {
            if i < t.len() {
                assert(sel[i] == t[i]);
                assert(lead_of(t[i]) <= lead_key(t));
            }
        }
        if t.len() > 0 {
            let j = choose|j: int| 0 <= j < t.len() && lead_of(#[trigger] t[j]) == lead_key(t);
            assert(sel[j] == t[j]);
        }
    }
}

/// The choice `x` ranks strictly better than `y` under the balanced
/// policy.
pub open spec fn choice_better<'a>(rows: Seq<Vec<OfferCandidate<'a>>>, x: Seq<usize>, y: Seq<usize>) -> bool {
    let a = chosen(rows, x);
    let b = chosen(rows, y);
    if unresolved_total(a) != unresolved_total(b) {
        unresolved_total(a) < unresolved_total(b)
    } else if choice_cost_key(a) != choice_cost_key(b) {
        cost_triple_lt(choice_cost_key(a), choice_cost_key(b))
    } else if lead_key(a) != lead_key(b) {
        lead_key(a) < lead_key(b)
    } else if q_lt(purity_key(b), purity_key(a)) || q_lt(purity_key(a), purity_key(b)) {
        q_lt(purity_key(b), purity_key(a))
    } else if sorted_texts(maker_names(a)) != sorted_texts(maker_names(b)) {
        texts_lt(sorted_texts(maker_names(a)), sorted_texts(maker_names(b)))
    } else if sorted_texts(catalog_names(a)) != sorted_texts(catalog_names(b)) {
        texts_lt(sorted_texts(catalog_names(a)), sorted_texts(catalog_names(b)))
    } else {
        texts_lt(sorted_texts(id_names(a)), sorted_texts(id_names(b)))
    }
}

/// The rank entries' order is the order of their choices.
pub proof fn lemma_ranks_better_choice<'a>(a: RankEntry, b: RankEntry, rows: Seq<Vec<OfferCandidate<'a>>>)
    requires
        describes(a, rows),
        describes(b, rows),
    ensures
        ranks_better(a, b) == choice_better(rows, a.indices@, b.indices@),
{
    let sa = chosen(rows, a.indices@);
    let sb = chosen(rows, b.indices@);
    assert(cost_key_eq(a.cost_key, b.cost_key) == (choice_cost_key(sa) == choice_cost_key(sb)));
    if !cost_key_eq(a.cost_key, b.cost_key) {
        assert(cost_key_lt(a.cost_key, b.cost_key) == cost_triple_lt(choice_cost_key(sa), choice_cost_key(sb)));
    }
}

/// `x` inserted into a best-first list after every entry it does not rank
/// strictly better than (a stable insertion).
pub open spec fn insert_ranked<'a>(rows: Seq<Vec<OfferCandidate<'a>>>, s: Seq<Seq<usize>>, x: Seq<usize>) -> Seq<Seq<usize>>
    decreases s.len(),
{
    if s.len() == 0 {
        seq![x]
    } else if choice_better(rows, x, s[0]) {
        seq![x] + s
    } else {
        seq![s[0]] + insert_ranked(rows, s.drop_first(), x)
    }
}

/// The choices best first; equally ranked ones keep their order.
pub open spec fn rank_sorted<'a>(rows: Seq<Vec<OfferCandidate<'a>>>, s: Seq<Seq<usize>>) -> Seq<Seq<usize>>
    decreases s.len(),
{
    if s.len() == 0 {
        Seq::empty()
    } else {
        insert_ranked(rows, rank_sorted(rows, s.drop_last()), s.last())
    }
}

proof fn lemma_insert_ranked_at<'a>(rows: Seq<Vec<OfferCandidate<'a>>>, s: Seq<Seq<usize>>, x: Seq<usize>, p: int)
    requires
        0 <= p <= s.len(),
        forall|j: int| 0 <= j < p ==> !choice_better(rows, x, #[trigger] s[j]),
        p < s.len() ==> choice_better(rows, x, s[p]),
    ensures
        insert_ranked(rows, s, x) == s.take(p) + seq![x] + s.skip(p),
    decreases s.len(),
{
    if s.len() == 0 {
        assert(s.take(p) + seq![x] + s.skip(p) =~= seq![x]);
    } else if p == 0 {
        assert(s.take(0) + seq![x] + s.skip(0) =~= seq![x] + s);
    } else {
        let t = s.drop_first();
        assert forall|j: int| 0 <= j < p - 1 implies !choice_better(rows, x, #[trigger] t[j]) by {
            assert(t[j] == s[j + 1]);
        }
        lemma_insert_ranked_at(rows, t, x, p - 1);
        assert(seq![s[0]] + (t.take(p - 1) + seq![x] + t.skip(p - 1)) =~= s.take(p) + seq![x] + s.skip(p));
    }
}

/// The index lists of rank entries.
pub open spec fn entry_choices(v: Seq<RankEntry>) -> Seq<Seq<usize>> {
    Seq::new(v.len(), |i: int| v[i].indices@)
}

/// Inserts `e` into the best-first list `v` after every entry it does not
/// rank strictly better than.
pub fn insert_rank_entry<'a>(v: &mut Vec<RankEntry>, e: RankEntry, Ghost(rows): Ghost<Seq<Vec<OfferCandidate<'a>>>>)
    requires
        describes(e, rows),
        forall|i: int| 0 <= i < old(v)@.len() ==> describes(#[trigger] old(v)@[i], rows),
    ensures
        entry_choices(final(v)@) == insert_ranked(rows, entry_choices(old(v)@), e.indices@),
        forall|i: int| 0 <= i < final(v)@.len() ==> describes(#[trigger] final(v)@[i], rows),
{
    let mut p: usize = 0;
    while p < v.len() && !rank_better(&e, &v[p])
        invariant
            p <= v@.len(),
            v@ == old(v)@,
            describes(e, rows),
            forall|i: int| 0 <= i < v@.len() ==> describes(#[trigger] v@[i], rows),
            forall|j: int| 0 <= j < p ==> !choice_better(rows, e.indices@, #[trigger] entry_choices(v@)[j]),
        decreases v@.len() - p,
    {
        proof {
            lemma_ranks_better_choice(e, v@[p as int], rows);
        }
        p = p + 1;
    }
    proof {
        if p < v@.len() {
            lemma_ranks_better_choice(e, v@[p as int], rows);
        }
        lemma_insert_ranked_at(rows, entry_choices(v@), e.indices@, p as int);
    }
    let ghost v0 = v@;
    v.insert(p, e);
    proof {
        assert(entry_choices(v@) =~= entry_choices(v0).take(p as int) + seq![e.indices@] + entry_choices(v0).skip(p as int));
        assert forall|i: int| 0 <= i < v@.len() implies describes(#[trigger] v@[i], rows) by {
            if i < p {
                assert(v@[i] == v0[i]);
            } else if i > p {
                assert(v@[i] == v0[i - 1]);
            }
        }
    }
}

/// An optional text, absent first.
pub open spec fn opt_text_lt(a: Option<String>, b: Option<String>) -> bool {
    match (a, b) {
        (None, Some(_)) => true,
        (Some(x), Some(y)) => seq_le(x@, y@) && x@ != y@,
        _ => false,
    }
}

/// Whether two optional texts are equal.
pub open spec fn opt_text_eq(a: Option<String>, b: Option<String>) -> bool {
    match (a, b) {
        (None, None) => true,
        (Some(x), Some(y)) => x@ == y@,
        _ => false,
    }
}

/// The lead time a candidate is ranked by, an unknown one as `u32::MAX`.
pub open spec fn lead_of<'a>(c: OfferCandidate<'a>) -> int {
    match c.offer.lead_time_days {
        Some(d) => d as int,
        None => u32::MAX as int,
    }
}

/// Candidate `a` is ranked strictly before `b` within a row: fewer
/// unresolved fields, then the lower cost key, the shorter lead time, the
/// higher purity, then manufacturer, catalog number and offer identifier
/// in text order.
pub open spec fn offer_ranks_before<'a>(a: OfferCandidate<'a>, b: OfferCandidate<'a>) -> bool {
    let ka = cost_key_of(a.quantity.subtotal);
    let kb = cost_key_of(b.quantity.subtotal);
    if a.unresolved_fields@.len() != b.unresolved_fields@.len() {
        a.unresolved_fields@.len() < b.unresolved_fields@.len()
    } else if !cost_key_eq(ka, kb) {
        cost_key_lt(ka, kb)
    } else if lead_of(a) != lead_of(b) {
        lead_of(a) < lead_of(b)
    } else if q_lt(purity_value(b), purity_value(a)) || q_lt(purity_value(a), purity_value(b)) {
        q_lt(purity_value(b), purity_value(a))
    } else if a.offer.manufacturer@ != b.offer.manufacturer@ {
        seq_le(a.offer.manufacturer@, b.offer.manufacturer@)
    } else if !opt_text_eq(a.offer.catalog_number, b.offer.catalog_number) {
        opt_text_lt(a.offer.catalog_number, b.offer.catalog_number)
    } else {
        seq_le(a.offer.offer_id.0@, b.offer.offer_id.0@) && a.offer.offer_id.0@ != b.offer.offer_id.0@
    }
}

/// The two subtotals are equal: both unknown, or both known in the same
/// currency with the same amount.
pub open spec fn same_subtotal(a: Option<Money>, b: Option<Money>) -> bool {
    match (a, b) {
        (None, None) => true,
        (Some(x), Some(y)) => x.code().letters() == y.code().letters() && x.units() == y.units(),
        _ => false,
    }
}

/// Ranking within a row puts, in this priority: fewer unresolved fields
/// first; then a known cost before an unknown one, and the lower amount in
/// the same currency; then a known lead time before an unknown one, and the
/// shorter one; then the higher purity. Each of these decides the order one
/// way only.
pub proof fn lemma_offer_rank_priorities<'a>(a: OfferCandidate<'a>, b: OfferCandidate<'a>)
    ensures
        a.unresolved_fields@.len() < b.unresolved_fields@.len() ==> offer_ranks_before(a, b)
            && !offer_ranks_before(b, a),
        a.unresolved_fields@.len() == b.unresolved_fields@.len() && a.quantity.subtotal is Some
            && b.quantity.subtotal is None ==> offer_ranks_before(a, b) && !offer_ranks_before(b, a),
        a.unresolved_fields@.len() == b.unresolved_fields@.len() && a.quantity.subtotal is Some
            && b.quantity.subtotal is Some && a.quantity.subtotal->0.code().letters()
            == b.quantity.subtotal->0.code().letters() && a.quantity.subtotal->0.units()
            < b.quantity.subtotal->0.units() ==> offer_ranks_before(a, b) && !offer_ranks_before(b, a),
        a.unresolved_fields@.len() == b.unresolved_fields@.len() && same_subtotal(
            a.quantity.subtotal,
            b.quantity.subtotal,
        ) && a.offer.lead_time_days is Some && a.offer.lead_time_days->0 < u32::MAX
            && b.offer.lead_time_days is None ==> offer_ranks_before(a, b) && !offer_ranks_before(b, a),
        a.unresolved_fields@.len() == b.unresolved_fields@.len() && same_subtotal(
            a.quantity.subtotal,
            b.quantity.subtotal,
        ) && a.offer.lead_time_days is Some && b.offer.lead_time_days is Some
            && a.offer.lead_time_days->0 < b.offer.lead_time_days->0 ==> offer_ranks_before(a, b)
            && !offer_ranks_before(b, a),
        a.unresolved_fields@.len() == b.unresolved_fields@.len() && same_subtotal(
            a.quantity.subtotal,
            b.quantity.subtotal,
        ) && a.offer.lead_time_days == b.offer.lead_time_days && a.offer.purity is Some
            && b.offer.purity is Some && b.offer.purity->0.fraction()@.0 * a.offer.purity->0.fraction()@.1
            < a.offer.purity->0.fraction()@.0 * b.offer.purity->0.fraction()@.1 ==> offer_ranks_before(a, b)
            && !offer_ranks_before(b, a),
{
}

/// Ranking combinations puts, in this priority: fewer unresolved fields
/// first; then a known total before an unknown one, and the lower amount in
/// the same currency; then the shorter longest lead time; then the higher
/// lowest purity. Each of these decides the order one way only.
pub proof fn lemma_choice_rank_priorities<'a>(rows: Seq<Vec<OfferCandidate<'a>>>, x: Seq<usize>, y: Seq<usize>)
    ensures
        unresolved_total(chosen(rows, x)) < unresolved_total(chosen(rows, y)) ==> choice_better(rows, x, y)
            && !choice_better(rows, y, x),
        unresolved_total(chosen(rows, x)) == unresolved_total(chosen(rows, y)) && cost_total(
            chosen(rows, x),
        ) is Some && cost_total(chosen(rows, y)) is None ==> choice_better(rows, x, y)
            && !choice_better(rows, y, x),
        (unresolved_total(chosen(rows, x)) == unresolved_total(chosen(rows, y)) && (cost_total(
            chosen(rows, x),
        ) matches Some(tx) && cost_total(chosen(rows, y)) matches Some(ty) && tx.1.letters()
            == ty.1.letters() && tx.0 < ty.0)) ==> choice_better(rows, x, y) && !choice_better(rows, y, x),
        unresolved_total(chosen(rows, x)) == unresolved_total(chosen(rows, y)) && cost_total(
            chosen(rows, x),
        ) == cost_total(chosen(rows, y)) && lead_key(chosen(rows, x)) < lead_key(chosen(rows, y))
            ==> choice_better(rows, x, y) && !choice_better(rows, y, x),
        unresolved_total(chosen(rows, x)) == unresolved_total(chosen(rows, y)) && cost_total(
            chosen(rows, x),
        ) == cost_total(chosen(rows, y)) && lead_key(chosen(rows, x)) == lead_key(chosen(rows, y))
            && purity_key(chosen(rows, y)).0 * purity_key(chosen(rows, x)).1 < purity_key(
            chosen(rows, x),
        ).0 * purity_key(chosen(rows, y)).1 ==> choice_better(rows, x, y) && !choice_better(rows, y, x),
{
}

/// Whether optional text `a` sorts strictly before `b`.
fn opt_text_less(a: &Option<String>, b: &Option<String>) -> (r: bool)
    ensures
        r == opt_text_lt(*a, *b),
{
    match (a, b) {
        (None, Some(_)) => true,
        (Some(x), Some(y)) => text_lt(x, y),
        _ => false,
    }
}

/// Whether two optional texts are equal.
fn opt_text_same(a: &Option<String>, b: &Option<String>) -> (r: bool)
    ensures
        r == opt_text_eq(*a, *b),
{
    match (a, b) {
        (None, None) => true,
        (Some(x), Some(y)) => *x == *y,
        _ => false,
    }
}

/// Whether candidate `a` ranks strictly before `b`, as
/// [`offer_ranks_before`] says.
pub fn offer_rank_before<'a>(a: &OfferCandidate<'a>, b: &OfferCandidate<'a>) -> (r: bool)
    ensures
        r == offer_ranks_before(*a, *b),
{
    let ua = a.unresolved_fields.len();
    let ub = b.unresolved_fields.len();
    if ua != ub {
        return ua < ub;
    }
    let ka = cost_rank_key(a.quantity.subtotal);
    let kb = cost_rank_key(b.quantity.subtotal);
    if !cost_key_same(&ka, &kb) {
        return cost_key_less(&ka, &kb);
    }
    let la = match a.offer.lead_time_days {
        Some(d) => d,
        None => u32::MAX,
    };
    let lb = match b.offer.lead_time_days {
        Some(d) => d,
        None => u32::MAX,
    };
    if la != lb {
        return la < lb;
    }
    let pa = match a.offer.purity {
        Some(p) => p.value(),
        None => Frac::zero(),
    };
    let pb = match b.offer.purity {
        Some(p) => p.value(),
        None => Frac::zero(),
    };
    let b_below = pb.less_than(&pa);
    let a_below = pa.less_than(&pb);
    if b_below || a_below {
        return b_below;
    }
    if a.offer.manufacturer != b.offer.manufacturer {
        return seq_le_exec(&a.offer.manufacturer, &b.offer.manufacturer);
    }
    if !opt_text_same(&a.offer.catalog_number, &b.offer.catalog_number) {
        return opt_text_less(&a.offer.catalog_number, &b.offer.catalog_number);
    }
    text_lt(&a.offer.offer_id.0, &b.offer.offer_id.0)
}

/// `x` inserted after every candidate of `s` it does not rank strictly
/// before.
pub open spec fn insert_candidate<'a>(s: Seq<OfferCandidate<'a>>, x: OfferCandidate<'a>) -> Seq<OfferCandidate<'a>>
    decreases s.len(),
{
    if s.len() == 0 {
        seq![x]
    } else if offer_ranks_before(x, s[0]) {
        seq![x] + s
    } else {
        seq![s[0]] + insert_candidate(s.drop_first(), x)
    }
}

/// The candidates in rank order; equally ranked ones keep their order.
pub open spec fn ranked_candidates<'a>(s: Seq<OfferCandidate<'a>>) -> Seq<OfferCandidate<'a>>
    decreases s.len(),
{
    if s.len() == 0 {
        Seq::empty()
    } else {
        insert_candidate(ranked_candidates(s.drop_last()), s.last())
    }
}

/// Inserting a candidate adds exactly it.
proof fn lemma_insert_candidate_members<'a>(s: Seq<OfferCandidate<'a>>, x: OfferCandidate<'a>)
    ensures
        insert_candidate(s, x).len() == s.len() + 1,
        forall|y: OfferCandidate<'a>| #[trigger] insert_candidate(s, x).contains(y) <==> (y == x || s.contains(y)),
    decreases s.len(),
{
    let r = insert_candidate(s, x);
    if s.len() == 0 {
        assert forall|y: OfferCandidate<'a>| #[trigger] r.contains(y) <==> (y == x || s.contains(y)) by {
            if y == x {
                assert(r[0] == x);
            }
        }
    } else if offer_ranks_before(x, s[0]) {
        assert(r == seq![x] + s);
        assert forall|y: OfferCandidate<'a>| #[trigger] r.contains(y) <==> (y == x || s.contains(y)) by {
            if y == x {
                assert(r[0] == x);
            }
            if s.contains(y) {
                let i = choose|i: int| 0 <= i < s.len() && s[i] == y;
                assert(r[i + 1] == y);
            }
            if r.contains(y) {
                let i = choose|i: int| 0 <= i < r.len() && r[i] == y;
                if i > 0 {
                    assert(s[i - 1] == y);
                }
            }
        }
    } else {
        let t = s.drop_first();
        lemma_insert_candidate_members(t, x);
        let rt = insert_candidate(t, x);
        assert(r == seq![s[0]] + rt);
        assert forall|y: OfferCandidate<'a>| #[trigger] r.contains(y) <==> (y == x || s.contains(y)) by {
            if y == x || t.contains(y) {
                assert(rt.contains(y));
                let i = choose|i: int| 0 <= i < rt.len() && rt[i] == y;
                assert(r[i + 1] == y);
            }
            if s.contains(y) && !(y == x) {
                let i = choose|i: int| 0 <= i < s.len() && s[i] == y;
                if i == 0 {
                    assert(r[0] == y);
                } else {
                    assert(t[i - 1] == y);
                    assert(t.contains(y));
                    assert(rt.contains(y));
                    let j = choose|j: int| 0 <= j < rt.len() && rt[j] == y;
                    assert(r[j + 1] == y);
                }
            }
            if r.contains(y) {
                let i = choose|i: int| 0 <= i < r.len() && r[i] == y;
                if i == 0 {
                    assert(s[0] == y);
                    assert(s.contains(y));
                } else {
                    assert(rt[i - 1] == y);
                    assert(rt.contains(y));
                    if t.contains(y) {
                        let k = choose|k: int| 0 <= k < t.len() && t[k] == y;
                        assert(s[k + 1] == y);
                    }
                }
            }
        }
    }
}

/// Ranking keeps every candidate and adds none: the ranked list has the
/// same length and holds exactly the same candidates.
pub proof fn lemma_ranked_candidates_members<'a>(s: Seq<OfferCandidate<'a>>)
    ensures
        ranked_candidates(s).len() == s.len(),
        forall|y: OfferCandidate<'a>| #[trigger] ranked_candidates(s).contains(y) <==> s.contains(y),
    decreases s.len(),
{
    if s.len() > 0 {
        let t = s.drop_last();
        lemma_ranked_candidates_members(t);
        lemma_insert_candidate_members(ranked_candidates(t), s.last());
        assert forall|y: OfferCandidate<'a>| #[trigger] ranked_candidates(s).contains(y) <==> s.contains(y) by {
            if t.contains(y) {
                let i = choose|i: int| 0 <= i < t.len() && t[i] == y;
                assert(s[i] == y);
            }
            if y == s.last() {
                assert(s[s.len() - 1] == y);
            }
            if s.contains(y) && y != s.last() {
                let i = choose|i: int| 0 <= i < s.len() && s[i] == y;
                assert(i < t.len());
                assert(t[i] == y);
            }
        }
    }
}

proof fn lemma_insert_candidate_at<'a>(s: Seq<OfferCandidate<'a>>, x: OfferCandidate<'a>, p: int)
    requires
        0 <= p <= s.len(),
        forall|j: int| 0 <= j < p ==> !offer_ranks_before(x, #[trigger] s[j]),
        p < s.len() ==> offer_ranks_before(x, s[p]),
    ensures
        insert_candidate(s, x) == s.take(p) + seq![x] + s.skip(p),
    decreases s.len(),
{
    if s.len() == 0 {
        assert(s.take(p) + seq![x] + s.skip(p) =~= seq![x]);
    } else if p == 0 {
        assert(s.take(0) + seq![x] + s.skip(0) =~= seq![x] + s);
    } else {
        let t = s.drop_first();
        assert forall|j: int| 0 <= j < p - 1 implies !offer_ranks_before(x, #[trigger] t[j]) by {
            assert(t[j] == s[j + 1]);
        }
        lemma_insert_candidate_at(t, x, p - 1);
        assert(seq![s[0]] + (t.take(p - 1) + seq![x] + t.skip(p - 1)) =~= s.take(p) + seq![x] + s.skip(p));
    }
}

/// Orders one row's candidates best first (stable).
pub fn rank_candidates<'a>(v: Vec<OfferCandidate<'a>>) -> (r: Vec<OfferCandidate<'a>>)
    ensures
        r@ == ranked_candidates(v@),
{
    let ghost orig = v@;
    let n = v.len();
    let mut rest = v;
    let mut out: Vec<OfferCandidate<'a>> = Vec::new();
    let mut i: usize = 0;
    assert(out@ =~= ranked_candidates(orig.take(0)));
    while i < n
        invariant
            i <= n,
            n == orig.len(),
            rest@ == orig.skip(i as int),
            out@ == ranked_candidates(orig.take(i as int)),
        decreases n - i,
    {
        let ghost r0 = rest@;
        let x = rest.remove(0);
        proof {
            assert(x == orig[i as int]);
            assert(rest@ =~= orig.skip(i + 1));
        }
        let mut p: usize = 0;
        while p < out.len() && !offer_rank_before(&x, &out[p])
            invariant
                p <= out@.len(),
                forall|j: int| 0 <= j < p ==> !offer_ranks_before(x, #[trigger] out@[j]),
            decreases out@.len() - p,
        {
            p = p + 1;
        }
        let ghost o0 = out@;
        proof {
            lemma_insert_candidate_at(o0, x, p as int);
            assert(orig.take(i + 1).drop_last() =~= orig.take(i as int));
            assert(orig.take(i + 1).last() == x);
        }
        out.insert(p, x);
        assert(out@ =~= o0.take(p as int) + seq![orig[i as int]] + o0.skip(p as int));
        i = i + 1;
    }
    assert(orig.take(n as int) =~= orig);
    out
}

} // verus!
