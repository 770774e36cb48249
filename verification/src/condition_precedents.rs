//! Splicing cited, structured condition data from precedents into the
//! heating steps of a plan: only empty fields are filled, a field is
//! filled only when every matching precedent that reports it agrees, and
//! a disagreement is reported instead of resolved.

use crate::evidence::{EvidenceKind, EvidenceScope, EvidenceStrength, PlanningEvidence};
use crate::process::{
    Atmosphere, ConditionValue, DurationRange, HeatingPurpose, PlannedStep, ProcessStep,
    RampRateRange, StepRequirement, TemperatureRange,
};
use crate::lex::{chars_le, lemma_opt_seq_le, lemma_seq_le_antisym, lemma_seq_le_total, lemma_seq_le_trans, opt_seq_le, seq_le};
use crate::text::chars_of;
use vstd::prelude::*;

verus! {

/// A provider's precedent: free text, plus structured per-purpose
/// conditions each traceable to its own citation.
#[derive(Debug, Clone, PartialEq, Eq)]
pub struct ProcessPrecedent {
    pub description: String,
    pub conditions: Vec<ConditionPrecedent>,
}

/// One provider's cited evidence for how a heating step's conditions
/// should be resolved. Fields without real, sourced data stay `None`.
#[derive(Debug, Clone, PartialEq, Eq)]
pub struct ConditionPrecedent {
    pub purpose: HeatingPurpose,
    pub temperature: Option<TemperatureRange>,
    pub duration: Option<DurationRange>,
    pub atmosphere: Option<Atmosphere>,
    pub ramp: Option<RampRateRange>,
    pub evidence_kind: EvidenceKind,
    pub source_id: Option<String>,
    pub statement: String,
    pub strength: EvidenceStrength,
    pub applicable_to: EvidenceScope,
}

/// A heating-step field where matching precedents disagreed, left
/// unresolved rather than picking one or averaging.
#[derive(Debug, Clone, PartialEq, Eq)]
pub struct ConditionConflict {
    pub step_index: usize,
    pub field: &'static str,
    pub reason: String,
}

/// The key of field `f` (0 temperature, 1 duration, 2 atmosphere, 3 ramp
/// rate) of a precedent, if it reports one.
pub open spec fn precedent_field(p: ConditionPrecedent, f: int) -> Option<Seq<int>> {
    if f == 0 {
        match p.temperature {
            Some(v) => Some(v.key()),
            None => None,
        }
    } else if f == 1 {
        match p.duration {
            Some(v) => Some(v.key()),
            None => None,
        }
    } else if f == 2 {
        match p.atmosphere {
            Some(v) => Some(v.key()),
            None => None,
        }
    } else {
        match p.ramp {
            Some(v) => Some(v.key()),
            None => None,
        }
    }
}

/// How precedent `p` writes field `f`, if it reports one.
pub open spec fn precedent_text(p: ConditionPrecedent, f: int) -> Option<Seq<char>> {
    if f == 0 {
        match p.temperature {
            Some(v) => Some(ConditionValue::text(&v)),
            None => None,
        }
    } else if f == 1 {
        match p.duration {
            Some(v) => Some(ConditionValue::text(&v)),
            None => None,
        }
    } else if f == 2 {
        match p.atmosphere {
            Some(v) => Some(ConditionValue::text(&v)),
            None => None,
        }
    } else {
        match p.ramp {
            Some(v) => Some(ConditionValue::text(&v)),
            None => None,
        }
    }
}

/// Each distinct value the precedents for `purpose` report for field `f`,
/// written with the citation of the first precedent reporting it, in
/// first-appearance order.
pub open spec fn field_cited(ps: Seq<ConditionPrecedent>, purpose: HeatingPurpose, f: int) -> Seq<Seq<char>>
    decreases ps.len(),
{
    if ps.len() == 0 {
        Seq::empty()
    } else {
        let prev = field_cited(ps.drop_last(), purpose, f);
        let p = ps.last();
        if p.purpose == purpose && precedent_field(p, f) is Some && !distinct_of(
            field_keys(ps.drop_last(), purpose, f),
        ).contains(precedent_field(p, f)->Some_0) {
            prev.push(cited_text(precedent_text(p, f)->Some_0, p.source_id))
        } else {
            prev
        }
    }
}

/// The keys that the precedents for `purpose` report for field `f`, in
/// order.
pub open spec fn field_keys(ps: Seq<ConditionPrecedent>, purpose: HeatingPurpose, f: int) -> Seq<Seq<int>>
    decreases ps.len(),
{
    if ps.len() == 0 {
        Seq::empty()
    } else {
        let prev = field_keys(ps.drop_last(), purpose, f);
        let p = ps.last();
        if p.purpose == purpose && precedent_field(p, f) is Some {
            prev.push(precedent_field(p, f)->Some_0)
        } else {
            prev
        }
    }
}

/// The distinct keys in first-appearance order.
pub open spec fn distinct_of(ks: Seq<Seq<int>>) -> Seq<Seq<int>>
    decreases ks.len(),
{
    if ks.len() == 0 {
        Seq::empty()
    } else {
        let prev = distinct_of(ks.drop_last());
        if prev.contains(ks.last()) {
            prev
        } else {
            prev.push(ks.last())
        }
    }
}

/// The name a conflict reports for field `f`.
pub open spec fn field_name(f: int) -> Seq<char> {
    if f == 0 {
        "temperature"@
    } else if f == 1 {
        "duration"@
    } else if f == 2 {
        "atmosphere"@
    } else {
        "ramp rate"@
    }
}

/// A condition field of a precedent.
pub trait PrecedentField: ConditionValue {
    spec fn index() -> int;

    fn pick(p: &ConditionPrecedent) -> (r: Option<Self>)
        ensures
            Self::index() == 0 || Self::index() == 1 || Self::index() == 2 || Self::index() == 3,
            r is None <==> precedent_field(*p, Self::index()) is None,
            r matches Some(v) ==> precedent_field(*p, Self::index()) == Some(v.key())
                && precedent_text(*p, Self::index()) == Some(v.text()),
    ;

    fn name() -> (r: &'static str)
        ensures
            r@ == field_name(Self::index()),
    ;
}

impl PrecedentField for TemperatureRange {
    open spec fn index() -> int {
        0
    }

    fn pick(p: &ConditionPrecedent) -> (r: Option<Self>) {
        p.temperature
    }

    fn name() -> (r: &'static str) {
        "temperature"
    }
}

impl PrecedentField for DurationRange {
    open spec fn index() -> int {
        1
    }

    fn pick(p: &ConditionPrecedent) -> (r: Option<Self>) {
        p.duration
    }

    fn name() -> (r: &'static str) {
        "duration"
    }
}

impl PrecedentField for Atmosphere {
    open spec fn index() -> int {
        2
    }

    fn pick(p: &ConditionPrecedent) -> (r: Option<Self>) {
        match &p.atmosphere {
            Some(a) => {
                let c = a.copy_value();
                assert(precedent_text(*p, 2) == Some(ConditionValue::text(a)));
                Some(c)
            },
            None => None,
        }
    }

    fn name() -> (r: &'static str) {
        "atmosphere"
    }
}

impl PrecedentField for RampRateRange {
    open spec fn index() -> int {
        3
    }

    fn pick(p: &ConditionPrecedent) -> (r: Option<Self>) {
        p.ramp
    }

    fn name() -> (r: &'static str) {
        "ramp rate"
    }
}

/// Every matching precedent's value for one field, grouped by exact
/// equality: one agreed value with the positions (among the matching
/// precedents) that supplied it, or each distinct value with the source of
/// its first occurrence.
pub enum FieldResolution<T> {
    Resolved(T, Vec<usize>),
    Conflict(Vec<(T, Option<String>)>),
}

/// The positions of the candidates, in order.
pub open spec fn cand_positions<T: ConditionValue>(c: Seq<(usize, T, Option<String>)>) -> Seq<usize> {
    c.map_values(|e: (usize, T, Option<String>)| e.0)
}

/// The keys of the candidates, in order.
pub open spec fn cand_keys<T: ConditionValue>(c: Seq<(usize, T, Option<String>)>) -> Seq<Seq<int>> {
    c.map_values(|e: (usize, T, Option<String>)| e.1.key())
}

/// Each distinct candidate value written with the source of its first
/// occurrence, in first-appearance order.
pub open spec fn first_cited<T: ConditionValue>(c: Seq<(usize, T, Option<String>)>) -> Seq<Seq<char>>
    decreases c.len(),
{
    if c.len() == 0 {
        Seq::empty()
    } else {
        let prev = first_cited(c.drop_last());
        if distinct_of(cand_keys(c.drop_last())).contains(c.last().1.key()) {
            prev
        } else {
            prev.push(cited_text(c.last().1.text(), c.last().2))
        }
    }
}

/// The written values of a conflict, each with its citation.
pub open spec fn cited_items<T: ConditionValue>(values: Seq<(T, Option<String>)>) -> Seq<Seq<char>> {
    values.map_values(|e: (T, Option<String>)| cited_text(e.0.text(), e.1))
}

proof fn lemma_distinct_of_step(ks: Seq<Seq<int>>, i: int)
    requires
        0 <= i < ks.len(),
    ensures
        distinct_of(ks.take(i + 1)) == (if distinct_of(ks.take(i)).contains(ks[i]) {
            distinct_of(ks.take(i))
        } else {
            distinct_of(ks.take(i)).push(ks[i])
        }),
{
    assert(ks.take(i + 1).drop_last() =~= ks.take(i));
}

proof fn lemma_distinct_of_first(ks: Seq<Seq<int>>)
    ensures
        ks.len() > 0 ==> distinct_of(ks).len() > 0 && distinct_of(ks)[0] == ks[0],
    decreases ks.len(),
{
    if ks.len() == 1 {
        assert(ks.drop_last().len() == 0);
        assert(distinct_of(ks.drop_last()) == Seq::<Seq<int>>::empty());
        assert(!distinct_of(ks.drop_last()).contains(ks.last()));
    } else if ks.len() > 1 {
        lemma_distinct_of_first(ks.drop_last());
        assert(ks.drop_last()[0] == ks[0]);
    }
}

/// Groups the candidates `(position, value, source)` by exact value.
/// `None` exactly when there are none.
pub fn resolve_field<T: ConditionValue>(candidates: Vec<(usize, T, Option<String>)>) -> (r: Option<
    FieldResolution<T>,
>)
    ensures
        r is None <==> candidates@.len() == 0,
        r matches Some(FieldResolution::Resolved(v, idxs)) ==> distinct_of(cand_keys(candidates@)).len()
            == 1 && v.key() == distinct_of(cand_keys(candidates@))[0] && idxs@ == cand_positions(candidates@),
        r matches Some(FieldResolution::Conflict(vals)) ==> distinct_of(cand_keys(candidates@)).len()
            >= 2 && vals@.len() == distinct_of(cand_keys(candidates@)).len() && forall|k: int|
            0 <= k < vals@.len() ==> (#[trigger] vals@[k]).0.key() == distinct_of(
                cand_keys(candidates@),
            )[k],
        r matches Some(FieldResolution::Conflict(vals)) ==> cited_items(vals@) == first_cited(candidates@),
{
    let n = candidates.len();
    if n == 0 {
        return None;
    }
    let ghost ks = cand_keys(candidates@);
    let mut firsts: Vec<usize> = Vec::new();
    let mut values: Vec<(T, Option<String>)> = Vec::new();
    let mut i: usize = 0;
    while i < n
        invariant
            i <= n,
            n == candidates@.len(),
            ks == cand_keys(candidates@),
            values@.len() == firsts@.len(),
            forall|k: int| 0 <= k < values@.len() ==> (#[trigger] values@[k]).0.key() == distinct_of(ks.take(i as int))[k],
            cited_items(values@) == first_cited(candidates@.take(i as int)),
            firsts@.len() == distinct_of(ks.take(i as int)).len(),
            forall|k: int|
                0 <= k < firsts@.len() ==> (#[trigger] firsts@[k]) < i && ks[firsts@[k] as int]
                    == distinct_of(ks.take(i as int))[k],
            forall|a: int, b: int| 0 <= a < b < firsts@.len() ==> firsts@[a] < firsts@[b],
        decreases n - i,
    {
        proof {
            lemma_distinct_of_step(ks, i as int);
        }
        let mut found = false;
        let mut k: usize = 0;
        while k < firsts.len()
            invariant
                k <= firsts@.len(),
                i < n,
                n == candidates@.len(),
                ks == cand_keys(candidates@),
                forall|q: int| 0 <= q < firsts@.len() ==> (#[trigger] firsts@[q]) < i,
                found == exists|q: int| 0 <= q < k && ks[(#[trigger] firsts@[q]) as int] == ks[i as int],
            decreases firsts@.len() - k,
        {
            if candidates[firsts[k]].1.same_value(&candidates[i].1) {
                found = true;
            }
            k = k + 1;
        }
        let ghost dk = distinct_of(ks.take(i as int));
        proof {
            if found {
                let q = choose|q: int| 0 <= q < firsts@.len() && ks[(#[trigger] firsts@[q]) as int] == ks[i as int];
                assert(dk[q] == ks[i as int]);
                assert(dk.contains(ks[i as int]));
            } else {
                assert(!dk.contains(ks[i as int])) by {
                    if dk.contains(ks[i as int]) {
                        let q = choose|q: int| 0 <= q < dk.len() && dk[q] == ks[i as int];
                        assert(ks[firsts@[q] as int] == dk[q]);
                    }
                }
            }
        }
        proof {
            let c1 = candidates@.take(i + 1);
            assert(c1.drop_last() =~= candidates@.take(i as int));
            assert(c1.last() == candidates@[i as int]);
            assert(cand_keys(candidates@.take(i as int)) =~= ks.take(i as int));
        }
        if !found {
            firsts.push(i);
            let ghost v0 = values@;
            let v = candidates[i].1.copy_value();
            let src = copy_text(&candidates[i].2);
            values.push((v, src));
            proof {
                assert(cited_items(values@) =~= cited_items(v0).push(cited_text(v.text(), src)));
                assert(cited_text(v.text(), src) == cited_text(candidates@[i as int].1.text(), candidates@[i as int].2));
            }
        }
        i = i + 1;
    }
    assert(ks.take(n as int) =~= ks);
    assert(candidates@.take(n as int) =~= candidates@);
    proof {
        lemma_distinct_of_first(ks);
    }
    let ghost cands = candidates@;
    let mut rest = candidates;
    if firsts.len() == 1 {
        let (i0, v0, _s0) = rest.remove(0);
        let mut idxs: Vec<usize> = Vec::new();
        idxs.push(i0);
        let mut pos: usize = 1;
        while rest.len() > 0
            invariant
                rest@ == cands.subrange(pos as int, n as int),
                1 <= pos <= n,
                n == cands.len(),
                idxs@ == cand_positions(cands.take(pos as int)),
            decreases rest@.len(),
        {
            let (ix, _v, _s) = rest.remove(0);
            idxs.push(ix);
            pos = pos + 1;
            assert(rest@ =~= cands.subrange(pos as int, n as int));
            assert(idxs@ =~= cand_positions(cands.take(pos as int)));
        }
        assert(cands.take(n as int) =~= cands);
        return Some(FieldResolution::Resolved(v0, idxs));
    }
    Some(FieldResolution::Conflict(values))
}

/// `items` joined with ` vs. `.
pub open spec fn joined_vs(items: Seq<Seq<char>>) -> Seq<char>
    decreases items.len(),
{
    if items.len() == 0 {
        Seq::empty()
    } else if items.len() == 1 {
        items[0]
    } else {
        joined_vs(items.drop_last()) + " vs. "@ + items.last()
    }
}

/// A value written with its citation, `uncited` when it has none.
pub open spec fn cited_text(value: Seq<char>, source: Option<String>) -> Seq<char> {
    value + " ("@ + (match source {
        Some(s) => s@,
        None => "uncited"@,
    }) + ")"@
}

/// The sentence reporting a disagreement on `field` among the cited
/// values `items`.
pub open spec fn conflict_reason_text(field: Seq<char>, items: Seq<Seq<char>>) -> Seq<char> {
    crate::text::int_text(items.len() as int) + " matching literature precedents disagree on "@
        + field + ": "@ + joined_vs(items) + " -- left unresolved rather than picking one or averaging"@
}

/// Reports a field's disagreeing values with their citations.
pub fn format_conflict_reason<T: ConditionValue>(field: &str, values: &Vec<(T, Option<String>)>) -> (r: String)
    ensures
        r@ == conflict_reason_text(field@, cited_items(values@)),
{
    let ghost items = cited_items(values@);
    let mut listing = String::new();
    let mut i: usize = 0;
    while i < values.len()
        invariant
            i <= values@.len(),
            items == cited_items(values@),
            listing@ == joined_vs(items.take(i as int)),
        decreases values@.len() - i,
    {
        if i > 0 {
            listing.append(" vs. ");
        }
        let d = values[i].0.describe();
        listing.append(d.as_str());
        listing.append(" (");
        match &values[i].1 {
            Some(s) => listing.append(s.as_str()),
            None => listing.append("uncited"),
        }
        listing.append(")");
        proof {
            assert(items.take(i + 1).drop_last() =~= items.take(i as int));
            assert(items[i as int] == cited_text(values@[i as int].0.text(), values@[i as int].1));
        }
        i = i + 1;
        assert(listing@ =~= joined_vs(items.take(i as int)));
    }
    assert(items.take(i as int) =~= items);
    let mut r = String::new();
    crate::text::append_int(&mut r, values.len() as i128);
    r.append(" matching literature precedents disagree on ");
    r.append(field);
    r.append(": ");
    r.append(listing.as_str());
    r.append(" -- left unresolved rather than picking one or averaging");
    assert(r@ =~= conflict_reason_text(field@, cited_items(values@)));
    r
}

/// The key of an optional value.
pub open spec fn opt_key<T: ConditionValue>(o: Option<T>) -> Option<Seq<int>> {
    match o {
        Some(v) => Some(v.key()),
        None => None,
    }
}

/// A field after resolution: a set field stays; an empty one takes the
/// value every matching precedent reporting it agrees on, if there is
/// exactly one such value.
pub open spec fn settled_key(
    current: Option<Seq<int>>,
    ps: Seq<ConditionPrecedent>,
    purpose: HeatingPurpose,
    f: int,
) -> Option<Seq<int>> {
    match current {
        Some(k) => Some(k),
        None => {
            let d = distinct_of(field_keys(ps, purpose, f));
            if d.len() == 1 {
                Some(d[0])
            } else {
                None
            }
        },
    }
}

/// An empty field whose matching precedents disagree.
pub open spec fn field_conflicts(
    current: Option<Seq<int>>,
    ps: Seq<ConditionPrecedent>,
    purpose: HeatingPurpose,
    f: int,
) -> bool {
    current is None && distinct_of(field_keys(ps, purpose, f)).len() >= 2
}

/// The positions in `ps` of the precedents for `purpose`, in order.
pub open spec fn matching_positions(ps: Seq<ConditionPrecedent>, purpose: HeatingPurpose) -> Seq<int>
    decreases ps.len(),
{
    if ps.len() == 0 {
        Seq::empty()
    } else {
        let prev = matching_positions(ps.drop_last(), purpose);
        if ps.last().purpose == purpose {
            prev.push(ps.len() - 1)
        } else {
            prev
        }
    }
}

/// The positions matching in a prefix are the first positions matching in
/// the whole.
proof fn lemma_matching_prefix(ps: Seq<ConditionPrecedent>, purpose: HeatingPurpose, n: int)
    requires
        0 <= n <= ps.len(),
    ensures
        matching_positions(ps.take(n), purpose).len() <= matching_positions(ps, purpose).len(),
        forall|k: int|
            0 <= k < matching_positions(ps.take(n), purpose).len() ==> #[trigger] matching_positions(
                ps.take(n),
                purpose,
            )[k] == matching_positions(ps, purpose)[k],
        forall|k: int|
            0 <= k < matching_positions(ps, purpose).len() ==> 0 <= #[trigger] matching_positions(
                ps,
                purpose,
            )[k] < ps.len() && ps[matching_positions(ps, purpose)[k]].purpose == purpose,
    decreases ps.len(),
{
    if ps.len() > 0 {
        lemma_matching_prefix(ps.drop_last(), purpose, if n == ps.len() { ps.len() - 1 } else { n });
        if n < ps.len() {
            assert(ps.drop_last().take(n) =~= ps.take(n));
        } else {
            assert(ps.take(n) =~= ps);
        }
        let d = ps.drop_last();
        assert forall|k: int| 0 <= k < matching_positions(d, purpose).len() implies ps[
            #[trigger] matching_positions(d, purpose)[k]] == d[matching_positions(d, purpose)[k]] by {}
    }
}

/// Precedent `j` is credited with field `f` of a step whose field was
/// `current`: the field was empty, every matching precedent reporting it
/// agrees, and precedent `j` reports it.
pub open spec fn credited(
    current: Option<Seq<int>>,
    ps: Seq<ConditionPrecedent>,
    purpose: HeatingPurpose,
    f: int,
    j: int,
) -> bool {
    &&& current is None
    &&& distinct_of(field_keys(ps, purpose, f)).len() == 1
    &&& precedent_field(ps[j], f) is Some
}

/// A copy of an optional string.
fn copy_text(s: &Option<String>) -> (r: Option<String>)
    ensures
        r is Some <==> s is Some,
        r matches Some(x) ==> x@ == s->Some_0@,
{
    match s {
        Some(t) => Some(String::from_str(t.as_str())),
        None => None,
    }
}

/// Resolves one field of one heating step against every precedent for
/// its purpose. Returns the field's new value, the positions (among the
/// precedents for this purpose) that supplied it, and the conflict, if
/// the precedents disagree.
fn settle<T: PrecedentField>(
    current: Option<T>,
    precedents: &[ConditionPrecedent],
    purpose: HeatingPurpose,
    step_index: usize,
) -> (r: (Option<T>, Vec<usize>, Option<ConditionConflict>))
    ensures
        opt_key(r.0) == settled_key(opt_key(current), precedents@, purpose, T::index()),
        r.2 is Some <==> field_conflicts(opt_key(current), precedents@, purpose, T::index()),
        r.2 matches Some(c) ==> c.step_index == step_index && c.field@ == field_name(T::index())
            && c.reason@ == conflict_reason_text(field_name(T::index()), field_cited(precedents@, purpose, T::index())),
        forall|m: usize|
            r.1@.contains(m) <==> (m < matching_positions(precedents@, purpose).len() && credited(
                opt_key(current),
                precedents@,
                purpose,
                T::index(),
                matching_positions(precedents@, purpose)[m as int],
            )),
{
    if current.is_some() {
        return (current, Vec::new(), None);
    }
    let mut cands: Vec<(usize, T, Option<String>)> = Vec::new();
    let mut m: usize = 0;
    let mut j: usize = 0;
    while j < precedents.len()
        invariant
            j <= precedents@.len(),
            m <= j,
            cand_keys(cands@) == field_keys(precedents@.take(j as int), purpose, T::index()),
            first_cited(cands@) == field_cited(precedents@.take(j as int), purpose, T::index()),
            m == matching_positions(precedents@.take(j as int), purpose).len(),
            forall|k: int| 0 <= k < m ==> #[trigger] matching_positions(precedents@.take(j as int), purpose)[k] < j,
            forall|k: int| 0 <= k < m ==> #[trigger] matching_positions(precedents@.take(j as int), purpose)[k]
                == matching_positions(precedents@, purpose)[k],
            forall|q: usize|
                cand_positions(cands@).contains(q) <==> (q < m
                    && precedent_field(
                    precedents@[matching_positions(precedents@.take(j as int), purpose)[q as int]],
                    T::index(),
                ) is Some),
        decreases precedents@.len() - j,
    {
        let p = &precedents[j];
        let ghost mp0 = matching_positions(precedents@.take(j as int), purpose);
        let ghost mp1 = matching_positions(precedents@.take(j + 1), purpose);
        let ghost pos0 = cand_positions(cands@);
        let ghost m0 = m;
        let ghost picked = precedent_field(*p, T::index()) is Some;
        proof {
            assert(precedents@.take(j + 1).drop_last() =~= precedents@.take(j as int));
            assert(precedents@.take(j + 1).last() == *p);
            lemma_matching_prefix(precedents@, purpose, j + 1);
            lemma_matching_prefix(precedents@, purpose, j as int);
        }
        if p.purpose == purpose {
            assert(mp1 == mp0.push(j as int));
            match T::pick(p) {
                Some(v) => {
                    let ghost c0 = cands@;
                    let src = copy_text(&p.source_id);
                    cands.push((m, v, src));
                    assert(cand_keys(cands@) =~= cand_keys(c0).push(v.key()));
                    assert(cands@.drop_last() =~= c0);
                    assert(cited_text(v.text(), src) == cited_text(v.text(), p.source_id));
                    assert(cand_positions(cands@) =~= pos0.push(m));
                },
                None => {},
            }
            m = m + 1;
        } else {
            assert(mp1 == mp0);
        }
        proof {
            let pos1 = cand_positions(cands@);
            assert forall|q: usize|
                pos1.contains(q) <==> (q < m && precedent_field(precedents@[mp1[q as int]], T::index())
                    is Some) by {
                if q < m0 {
                    assert(mp1[q as int] == mp0[q as int]);
                    if pos0.contains(q) {
                        let i = choose|i: int| 0 <= i < pos0.len() && pos0[i] == q;
                        assert(pos1[i] == q);
                    }
                    if pos1.contains(q) {
                        let i = choose|i: int| 0 <= i < pos1.len() && pos1[i] == q;
                        if i < pos0.len() {
                            assert(pos0[i] == q);
                        }
                    }
                } else if q == m0 && q < m {
                    assert(mp1[q as int] == j as int);
                    if picked {
                        assert(pos1[pos1.len() - 1] == q);
                    } else {
                        assert(pos1 == pos0);
                        assert(!pos0.contains(q));
                    }
                } else {
                    if pos1.contains(q) {
                        let i = choose|i: int| 0 <= i < pos1.len() && pos1[i] == q;
                        if i < pos0.len() {
                            assert(pos0[i] == q);
                            assert(pos0.contains(q));
                        }
                    }
                }
            }
        }
        j = j + 1;
    }
    assert(precedents@.take(j as int) =~= precedents@);
    let ghost pos = cand_positions(cands@);
    let ghost mp = matching_positions(precedents@, purpose);
    match resolve_field(cands) {
        None => (None, Vec::new(), None),
        Some(FieldResolution::Resolved(v, idxs)) => (Some(v), idxs, None),
        Some(FieldResolution::Conflict(vals)) => {
            let reason = format_conflict_reason(T::name(), &vals);
            (None, Vec::new(), Some(ConditionConflict { step_index, field: T::name(), reason }))
        },
    }
}

/// An optional string's text.
pub open spec fn opt_view(o: Option<String>) -> Option<Seq<char>> {
    match o {
        Some(s) => Some(s@),
        None => None,
    }
}

/// The first limitation's text, empty when there is none.
pub open spec fn first_text(v: Seq<String>) -> Seq<char> {
    if v.len() > 0 {
        v[0]@
    } else {
        Seq::empty()
    }
}

/// Evidence order: by source, then statement, then limitation text.
pub open spec fn evidence_le(a: PlanningEvidence, b: PlanningEvidence) -> bool {
    if opt_view(a.source_id) != opt_view(b.source_id) {
        opt_seq_le(opt_view(a.source_id), opt_view(b.source_id))
    } else if a.statement@ != b.statement@ {
        seq_le(a.statement@, b.statement@)
    } else {
        seq_le(first_text(a.limitations@), first_text(b.limitations@))
    }
}

proof fn lemma_evidence_le(a: PlanningEvidence, b: PlanningEvidence, c: PlanningEvidence)
    ensures
        evidence_le(a, b) || evidence_le(b, a),
        evidence_le(a, b) && evidence_le(b, c) ==> evidence_le(a, c),
{
    let (sa, sb, sc) = (opt_view(a.source_id), opt_view(b.source_id), opt_view(c.source_id));
    lemma_opt_seq_le(sa, sb, sc);
    lemma_opt_seq_le(sb, sa, sc);
    lemma_opt_seq_le(sa, sc, sb);
    lemma_opt_seq_le(sb, sc, sa);
    lemma_opt_seq_le(sc, sa, sb);
    lemma_seq_le_total(a.statement@, b.statement@);
    lemma_seq_le_total(first_text(a.limitations@), first_text(b.limitations@));
    if evidence_le(a, b) && evidence_le(b, c) {
        if seq_le(a.statement@, b.statement@) && seq_le(b.statement@, c.statement@) {
            lemma_seq_le_trans(a.statement@, b.statement@, c.statement@);
        }
        if seq_le(a.statement@, b.statement@) && seq_le(b.statement@, a.statement@) {
            lemma_seq_le_antisym(a.statement@, b.statement@);
        }
        if seq_le(b.statement@, c.statement@) && seq_le(c.statement@, b.statement@) {
            lemma_seq_le_antisym(b.statement@, c.statement@);
        }
        if seq_le(a.statement@, b.statement@) && seq_le(b.statement@, c.statement@) && seq_le(c.statement@, a.statement@) {
            lemma_seq_le_antisym(a.statement@, c.statement@);
        }
        if seq_le(first_text(a.limitations@), first_text(b.limitations@)) && seq_le(
            first_text(b.limitations@),
            first_text(c.limitations@),
        ) {
            lemma_seq_le_trans(
                first_text(a.limitations@),
                first_text(b.limitations@),
                first_text(c.limitations@),
            );
        }
        if seq_le(c.statement@, a.statement@) && seq_le(a.statement@, c.statement@) {
            lemma_seq_le_antisym(a.statement@, c.statement@);
        }
    }
}

fn opt_text_eq(a: &Option<String>, b: &Option<String>) -> (r: bool)
    ensures
        r == (opt_view(*a) == opt_view(*b)),
{
    match (a, b) {
        (None, None) => true,
        (Some(x), Some(y)) => crate::text::chars_eq(&chars_of(x.as_str()), y.as_str()),
        _ => false,
    }
}

/// Whether `a` sorts no later than `b`.
fn evidence_le_exec(a: &PlanningEvidence, b: &PlanningEvidence) -> (r: bool)
    ensures
        r == evidence_le(*a, *b),
{
    if !opt_text_eq(&a.source_id, &b.source_id) {
        match (&a.source_id, &b.source_id) {
            (None, _) => true,
            (Some(_), None) => false,
            (Some(x), Some(y)) => chars_le(&chars_of(x.as_str()), &chars_of(y.as_str())),
        }
    } else if !crate::text::chars_eq(&chars_of(a.statement.as_str()), b.statement.as_str()) {
        chars_le(&chars_of(a.statement.as_str()), &chars_of(b.statement.as_str()))
    } else {
        let la = if a.limitations.len() > 0 { chars_of(a.limitations[0].as_str()) } else { Vec::new() };
        let lb = if b.limitations.len() > 0 { chars_of(b.limitations[0].as_str()) } else { Vec::new() };
        proof {
            assert(la@ == first_text(a.limitations@));
            assert(lb@ == first_text(b.limitations@));
        }
        chars_le(&la, &lb)
    }
}

/// The texts of a list of strings.
pub open spec fn texts_of(v: Seq<String>) -> Seq<Seq<char>> {
    v.map_values(|l: String| l@)
}

/// What an evidence entry says: kind, source, statement, strength, scope
/// and limitation texts.
pub open spec fn evidence_view(e: PlanningEvidence) -> (
    EvidenceKind,
    Option<Seq<char>>,
    Seq<char>,
    EvidenceStrength,
    EvidenceScope,
    Seq<Seq<char>>,
) {
    (e.kind, opt_view(e.source_id), e.statement@, e.strength, e.applicable_to, texts_of(e.limitations@))
}

/// The views of a list of evidence entries.
pub open spec fn evidence_views(v: Seq<PlanningEvidence>) -> Seq<
    (EvidenceKind, Option<Seq<char>>, Seq<char>, EvidenceStrength, EvidenceScope, Seq<Seq<char>>),
> {
    v.map_values(|e: PlanningEvidence| evidence_view(e))
}

/// The first text of a list, empty when there is none.
pub open spec fn first_of(v: Seq<Seq<char>>) -> Seq<char> {
    if v.len() > 0 {
        v[0]
    } else {
        Seq::empty()
    }
}

/// [`evidence_le`] on views: by source, then statement, then the first
/// limitation.
pub open spec fn view_le(
    a: (EvidenceKind, Option<Seq<char>>, Seq<char>, EvidenceStrength, EvidenceScope, Seq<Seq<char>>),
    b: (EvidenceKind, Option<Seq<char>>, Seq<char>, EvidenceStrength, EvidenceScope, Seq<Seq<char>>),
) -> bool {
    if a.1 != b.1 {
        opt_seq_le(a.1, b.1)
    } else if a.2 != b.2 {
        seq_le(a.2, b.2)
    } else {
        seq_le(first_of(a.5), first_of(b.5))
    }
}

/// The position at which insertion sort places `x` into `o`: after the
/// run of entries from `i` on that sort no later than `x`.
pub open spec fn insert_pos(
    o: Seq<(EvidenceKind, Option<Seq<char>>, Seq<char>, EvidenceStrength, EvidenceScope, Seq<Seq<char>>)>,
    x: (EvidenceKind, Option<Seq<char>>, Seq<char>, EvidenceStrength, EvidenceScope, Seq<Seq<char>>),
    i: int,
) -> int
    decreases o.len() - i,
{
    if i < 0 || i >= o.len() || !view_le(o[i], x) {
        i
    } else {
        insert_pos(o, x, i + 1)
    }
}

/// Stable insertion sort by [`view_le`]: each entry in turn placed after
/// every earlier-placed entry that sorts no later than it.
pub open spec fn sorted_views(
    v: Seq<(EvidenceKind, Option<Seq<char>>, Seq<char>, EvidenceStrength, EvidenceScope, Seq<Seq<char>>)>,
) -> Seq<(EvidenceKind, Option<Seq<char>>, Seq<char>, EvidenceStrength, EvidenceScope, Seq<Seq<char>>)>
    decreases v.len(),
{
    if v.len() == 0 {
        Seq::empty()
    } else {
        let o = sorted_views(v.drop_last());
        o.insert(insert_pos(o, v.last(), 0), v.last())
    }
}

/// Evidence in order.
pub open spec fn evidence_sorted(v: Seq<PlanningEvidence>) -> bool {
    forall|i: int, j: int| 0 <= i < j < v.len() ==> evidence_le(#[trigger] v[i], #[trigger] v[j])
}

/// Stable sort of evidence by source, statement, then limitation text.
fn sort_evidence(items: Vec<PlanningEvidence>) -> (r: Vec<PlanningEvidence>)
    ensures
        r@.len() == items@.len(),
        evidence_sorted(r@),
        forall|i: int| 0 <= i < r@.len() ==> items@.contains(#[trigger] r@[i]),
        evidence_views(r@) == sorted_views(evidence_views(items@)),
{
    let ghost orig = items@;
    let mut rest = items;
    let mut out: Vec<PlanningEvidence> = Vec::new();
    assert(evidence_views(out@) =~= sorted_views(evidence_views(orig.take(0))));
    while rest.len() > 0
        invariant
            out@.len() + rest@.len() == orig.len(),
            evidence_sorted(out@),
            forall|i: int| 0 <= i < out@.len() ==> orig.contains(#[trigger] out@[i]),
            forall|i: int| 0 <= i < rest@.len() ==> orig.contains(#[trigger] rest@[i]),
            rest@ == orig.skip(out@.len() as int),
            evidence_views(out@) == sorted_views(evidence_views(orig.take(out@.len() as int))),
        decreases rest@.len(),
    {
        let ghost r0 = rest@;
        let ghost done = out@.len() as int;
        let x = rest.remove(0);
        proof {
            assert(x == orig[done]);
            assert(rest@ =~= orig.skip(done + 1));
        }
        assert(orig.contains(x)) by {
            assert(r0[0] == x);
        }
        assert forall|i: int| 0 <= i < rest@.len() implies orig.contains(#[trigger] rest@[i]) by {
            assert(rest@[i] == r0[i + 1]);
        }
        let ghost ov = evidence_views(out@);
        let mut k: usize = 0;
        while k < out.len() && evidence_le_exec(&out[k], &x)
            invariant
                k <= out@.len(),
                forall|i: int| 0 <= i < k ==> evidence_le(#[trigger] out@[i], x),
                ov == evidence_views(out@),
                insert_pos(ov, evidence_view(x), 0) == insert_pos(ov, evidence_view(x), k as int),
            decreases out@.len() - k,
        {
            assert(evidence_le(out@[k as int], x) == view_le(ov[k as int], evidence_view(x)));
            k = k + 1;
        }
        proof {
            if k < out@.len() {
                assert(evidence_le(out@[k as int], x) == view_le(ov[k as int], evidence_view(x)));
            }
            assert(insert_pos(ov, evidence_view(x), k as int) == k);
            let ev = evidence_views(orig);
            assert(evidence_views(orig.take(done + 1)) =~= evidence_views(orig.take(done)).push(evidence_view(x)));
            assert(evidence_views(orig.take(done + 1)).drop_last() =~= evidence_views(orig.take(done)));
        }
        let ghost o0 = out@;
        proof {
            if k < o0.len() {
                lemma_evidence_le(o0[k as int], x, x);
                assert(evidence_le(x, o0[k as int]));
                assert forall|j: int| k <= j < o0.len() implies evidence_le(x, #[trigger] o0[j]) by {
                    lemma_evidence_le(x, o0[k as int], o0[j]);
                }
            }
        }
        out.insert(k, x);
        proof {
            assert(evidence_views(out@) =~= ov.insert(k as int, evidence_view(x)));
            assert forall|i: int, j: int| 0 <= i < j < out@.len() implies evidence_le(
                #[trigger] out@[i],
                #[trigger] out@[j],
            ) by {
                if i < k && j == k {
                } else if i == k {
                    assert(out@[j] == o0[j - 1]);
                } else if j < k {
                    assert(out@[i] == o0[i] && out@[j] == o0[j]);
                } else if i < k {
                    assert(out@[i] == o0[i] && out@[j] == o0[j - 1]);
                } else {
                    assert(out@[i] == o0[i - 1] && out@[j] == o0[j - 1]);
                }
            }
            assert forall|i: int| 0 <= i < out@.len() implies orig.contains(#[trigger] out@[i]) by {
                if i < k {
                    assert(out@[i] == o0[i]);
                } else if i > k {
                    assert(out@[i] == o0[i - 1]);
                }
            }
        }
    }
    assert(orig.take(out@.len() as int) =~= orig);
    out
}

/// A conflict as a step index, field name and reason.
pub open spec fn conflict_view(c: ConditionConflict) -> (int, Seq<char>, Seq<char>) {
    (c.step_index as int, c.field@, c.reason@)
}

/// The conflict reported for field `f` of step `i`: the field, and a
/// reason citing each distinct value with its first source.
pub open spec fn conflict_entry(i: int, ps: Seq<ConditionPrecedent>, purpose: HeatingPurpose, f: int) -> (
    int,
    Seq<char>,
    Seq<char>,
) {
    (i, field_name(f), conflict_reason_text(field_name(f), field_cited(ps, purpose, f)))
}

/// The conflicts one step yields, in field order.
pub open spec fn step_conflicts(step: PlannedStep, i: int, ps: Seq<ConditionPrecedent>) -> Seq<(int, Seq<char>, Seq<char>)> {
    match step.step {
        ProcessStep::Heat { purpose, temperature, duration, atmosphere, ramp } => {
            let c0 = if field_conflicts(opt_key(temperature), ps, purpose, 0) {
                seq![conflict_entry(i, ps, purpose, 0)]
            } else {
                Seq::empty()
            };
            let c1 = if field_conflicts(opt_key(duration), ps, purpose, 1) {
                seq![conflict_entry(i, ps, purpose, 1)]
            } else {
                Seq::empty()
            };
            let c2 = if field_conflicts(opt_key(atmosphere), ps, purpose, 2) {
                seq![conflict_entry(i, ps, purpose, 2)]
            } else {
                Seq::empty()
            };
            let c3 = if field_conflicts(opt_key(ramp), ps, purpose, 3) {
                seq![conflict_entry(i, ps, purpose, 3)]
            } else {
                Seq::empty()
            };
            c0 + c1 + c2 + c3
        },
        ProcessStep::Other { .. } => Seq::empty(),
    }
}

/// The conflicts of all steps, in step order.
pub open spec fn all_conflicts(steps: Seq<PlannedStep>, ps: Seq<ConditionPrecedent>) -> Seq<(int, Seq<char>, Seq<char>)>
    decreases steps.len(),
{
    if steps.len() == 0 {
        Seq::empty()
    } else {
        all_conflicts(steps.drop_last(), ps) + step_conflicts(steps.last(), steps.len() - 1, ps)
    }
}

/// The evidence one step yields.
pub open spec fn step_evidence(step: PlannedStep, ps: Seq<ConditionPrecedent>) -> Seq<
    (EvidenceKind, Option<Seq<char>>, Seq<char>, EvidenceStrength, EvidenceScope, Seq<Seq<char>>),
> {
    match step.step {
        ProcessStep::Heat { purpose, temperature, duration, atmosphere, ramp } => heat_evidence(
            opt_key(temperature),
            opt_key(duration),
            opt_key(atmosphere),
            opt_key(ramp),
            ps,
            purpose,
        ),
        ProcessStep::Other { .. } => Seq::empty(),
    }
}

/// The evidence of all steps, in step order.
pub open spec fn all_evidence(steps: Seq<PlannedStep>, ps: Seq<ConditionPrecedent>) -> Seq<
    (EvidenceKind, Option<Seq<char>>, Seq<char>, EvidenceStrength, EvidenceScope, Seq<Seq<char>>),
>
    decreases steps.len(),
{
    if steps.len() == 0 {
        Seq::empty()
    } else {
        all_evidence(steps.drop_last(), ps) + step_evidence(steps.last(), ps)
    }
}

/// `new` is `old` after its empty heating fields were resolved.
pub open spec fn step_settled(old: PlannedStep, new: PlannedStep, ps: Seq<ConditionPrecedent>) -> bool {
    &&& new.requirement == old.requirement
    &&& match old.step {
        ProcessStep::Other { .. } => new == old,
        ProcessStep::Heat { purpose, temperature, duration, atmosphere, ramp } => match new.step {
            ProcessStep::Heat {
                purpose: p2,
                temperature: t2,
                duration: d2,
                atmosphere: a2,
                ramp: r2,
            } => {
                &&& p2 == purpose
                &&& opt_key(t2) == settled_key(opt_key(temperature), ps, purpose, 0)
                &&& opt_key(d2) == settled_key(opt_key(duration), ps, purpose, 1)
                &&& opt_key(a2) == settled_key(opt_key(atmosphere), ps, purpose, 2)
                &&& opt_key(r2) == settled_key(opt_key(ramp), ps, purpose, 3)
            },
            ProcessStep::Other { .. } => false,
        },
    }
}

/// The evidence entry copies one precedent's provenance and carries one
/// limitation.
pub open spec fn from_precedent(e: PlanningEvidence, ps: Seq<ConditionPrecedent>) -> bool {
    &&& e.limitations@.len() == 1
    &&& exists|j: int|
        0 <= j < ps.len() && e.kind == (#[trigger] ps[j]).evidence_kind && e.strength == ps[j].strength
            && e.applicable_to == ps[j].applicable_to && e.statement@ == ps[j].statement@
            && opt_view(e.source_id) == opt_view(ps[j].source_id)
}

/// The tail of every evidence limitation.
pub const LIMITATION_TAIL: &'static str = " step from this precedent; other unresolved fields on this or other steps had no matching precedent data, or matching data that conflicted with another precedent";

/// Texts joined with `/`.
pub open spec fn slash_joined(s: Seq<Seq<char>>) -> Seq<char>
    decreases s.len(),
{
    if s.len() == 0 {
        Seq::empty()
    } else if s.len() == 1 {
        s[0]
    } else {
        slash_joined(s.drop_last()) + "/"@ + s.last()
    }
}

/// The limitation of an evidence entry crediting `fields` on a step for
/// `purpose`.
pub open spec fn limitation_of(fields: Seq<Seq<char>>, purpose: HeatingPurpose) -> Seq<char> {
    "resolved "@ + slash_joined(fields) + " for the "@ + purpose.name_text() + LIMITATION_TAIL@
}

/// The texts of a list of static strings.
pub open spec fn names_of(v: Seq<&'static str>) -> Seq<Seq<char>> {
    v.map_values(|s: &'static str| s@)
}

/// `resolved <fields> for the <purpose> step ...`, the limitation of an
/// evidence entry.
fn limitation_text(fields: &Vec<&'static str>, purpose: HeatingPurpose) -> (r: String)
    ensures
        r@ == limitation_of(names_of(fields@), purpose),
{
    let mut s = String::from_str("resolved ");
    let mut i: usize = 0;
    while i < fields.len()
        invariant
            i <= fields@.len(),
            s@ == "resolved "@ + slash_joined(names_of(fields@.take(i as int))),
        decreases fields@.len() - i,
    {
        let ghost s0 = s@;
        if i > 0 {
            s.append("/");
        }
        s.append(fields[i]);
        proof {
            let t = names_of(fields@.take(i + 1));
            assert(t.drop_last() =~= names_of(fields@.take(i as int)));
            assert(t.last() == fields@[i as int]@);
            if i == 0 {
                assert(t.len() == 1);
            }
        }
        i = i + 1;
        assert(s@ =~= "resolved "@ + slash_joined(names_of(fields@.take(i as int))));
    }
    s.append(" for the ");
    s.append(purpose.name());
    s.append(LIMITATION_TAIL);
    assert(fields@.take(i as int) =~= fields@);
    assert(s@ =~= limitation_of(names_of(fields@), purpose));
    s
}

fn contains_index(v: &Vec<usize>, x: usize) -> (r: bool)
    ensures
        r == v@.contains(x),
{
    let mut i: usize = 0;
    while i < v.len()
        invariant
            i <= v@.len(),
            forall|k: int| 0 <= k < i ==> v@[k] != x,
        decreases v@.len() - i,
    {
        if v[i] == x {
            return true;
        }
        i = i + 1;
    }
    false
}

/// The fields precedent `j` is credited with on a heating step whose
/// fields were `t`, `d`, `a`, `r`, by name, in field order.
pub open spec fn credited_fields(
    t: Option<Seq<int>>,
    d: Option<Seq<int>>,
    a: Option<Seq<int>>,
    r: Option<Seq<int>>,
    ps: Seq<ConditionPrecedent>,
    purpose: HeatingPurpose,
    j: int,
) -> Seq<Seq<char>> {
    (if credited(t, ps, purpose, 0, j) { seq![field_name(0)] } else { Seq::empty() }) + (if credited(d, ps, purpose, 1, j) {
        seq![field_name(1)]
    } else {
        Seq::empty()
    }) + (if credited(a, ps, purpose, 2, j) { seq![field_name(2)] } else { Seq::empty() }) + (if credited(r, ps, purpose, 3, j) {
        seq![field_name(3)]
    } else {
        Seq::empty()
    })
}

/// The evidence entry crediting precedent `p` with `fields` on a step for
/// `purpose`: the precedent's own provenance and one limitation.
pub open spec fn credited_view(p: ConditionPrecedent, fields: Seq<Seq<char>>, purpose: HeatingPurpose) -> (
    EvidenceKind,
    Option<Seq<char>>,
    Seq<char>,
    EvidenceStrength,
    EvidenceScope,
    Seq<Seq<char>>,
) {
    (p.evidence_kind, opt_view(p.source_id), p.statement@, p.strength, p.applicable_to, seq![limitation_of(fields, purpose)])
}

/// One entry per precedent at the positions `mp` that is credited with at
/// least one field, in that order.
pub open spec fn credited_views(
    t: Option<Seq<int>>,
    d: Option<Seq<int>>,
    a: Option<Seq<int>>,
    r: Option<Seq<int>>,
    ps: Seq<ConditionPrecedent>,
    purpose: HeatingPurpose,
    mp: Seq<int>,
) -> Seq<(EvidenceKind, Option<Seq<char>>, Seq<char>, EvidenceStrength, EvidenceScope, Seq<Seq<char>>)>
    decreases mp.len(),
{
    if mp.len() == 0 {
        Seq::empty()
    } else {
        let prev = credited_views(t, d, a, r, ps, purpose, mp.drop_last());
        let f = credited_fields(t, d, a, r, ps, purpose, mp.last());
        if f.len() > 0 {
            prev.push(credited_view(ps[mp.last()], f, purpose))
        } else {
            prev
        }
    }
}

/// The evidence a heating step with fields `t`, `d`, `a`, `r` yields: one
/// entry per matching precedent credited with a field, ordered by source,
/// statement and limitation (ties in precedent order).
pub open spec fn heat_evidence(
    t: Option<Seq<int>>,
    d: Option<Seq<int>>,
    a: Option<Seq<int>>,
    r: Option<Seq<int>>,
    ps: Seq<ConditionPrecedent>,
    purpose: HeatingPurpose,
) -> Seq<(EvidenceKind, Option<Seq<char>>, Seq<char>, EvidenceStrength, EvidenceScope, Seq<Seq<char>>)> {
    sorted_views(credited_views(t, d, a, r, ps, purpose, matching_positions(ps, purpose)))
}

/// The conflicts a heating step with these fields yields, in field order.
pub open spec fn heat_conflicts(
    i: int,
    purpose: HeatingPurpose,
    t: Option<Seq<int>>,
    d: Option<Seq<int>>,
    a: Option<Seq<int>>,
    r: Option<Seq<int>>,
    ps: Seq<ConditionPrecedent>,
) -> Seq<(int, Seq<char>, Seq<char>)> {
    (if field_conflicts(t, ps, purpose, 0) { seq![conflict_entry(i, ps, purpose, 0)] } else { Seq::empty() }) + (if field_conflicts(d, ps, purpose, 1) {
        seq![conflict_entry(i, ps, purpose, 1)]
    } else {
        Seq::empty()
    }) + (if field_conflicts(a, ps, purpose, 2) { seq![conflict_entry(i, ps, purpose, 2)] } else { Seq::empty() }) + (if field_conflicts(r, ps, purpose, 3) {
        seq![conflict_entry(i, ps, purpose, 3)]
    } else {
        Seq::empty()
    })
}

/// Resolves the four fields of one heating step.
fn settle_heat_step(
    i: usize,
    requirement: StepRequirement,
    purpose: HeatingPurpose,
    t0: Option<TemperatureRange>,
    d0: Option<DurationRange>,
    a0: Option<Atmosphere>,
    r0: Option<RampRateRange>,
    precedents: &[ConditionPrecedent],
) -> (r: (PlannedStep, Vec<ConditionConflict>, Vec<PlanningEvidence>))
    ensures
        r.0.requirement == requirement,
        r.0.step matches ProcessStep::Heat { purpose: p2, temperature: t2, duration: d2, atmosphere: a2, ramp: r2 }
            && p2 == purpose
            && opt_key(t2) == settled_key(opt_key(t0), precedents@, purpose, 0)
            && opt_key(d2) == settled_key(opt_key(d0), precedents@, purpose, 1)
            && opt_key(a2) == settled_key(opt_key(a0), precedents@, purpose, 2)
            && opt_key(r2) == settled_key(opt_key(r0), precedents@, purpose, 3),
        r.1@.map_values(|c: ConditionConflict| conflict_view(c)) == heat_conflicts(
            i as int,
            purpose,
            opt_key(t0),
            opt_key(d0),
            opt_key(a0),
            opt_key(r0),
            precedents@,
        ),
        forall|k: int| 0 <= k < r.2@.len() ==> from_precedent(#[trigger] r.2@[k], precedents@),
        evidence_views(r.2@) == heat_evidence(opt_key(t0), opt_key(d0), opt_key(a0), opt_key(r0), precedents@, purpose),
{
                let (t1, ct, xt) = settle(t0, precedents, purpose, i);
                let (d1, cd, xd) = settle(d0, precedents, purpose, i);
                let (a1, ca, xa) = settle(a0, precedents, purpose, i);
                let (r1, cr, xr) = settle(r0, precedents, purpose, i);
                let mut conflicts: Vec<ConditionConflict> = Vec::new();
                match xt {
                    Some(c) => conflicts.push(c),
                    None => {},
                }
                let ghost after0 = conflicts@;
                match xd {
                    Some(c) => conflicts.push(c),
                    None => {},
                }
                let ghost after1 = conflicts@;
                match xa {
                    Some(c) => conflicts.push(c),
                    None => {},
                }
                let ghost after2 = conflicts@;
                match xr {
                    Some(c) => conflicts.push(c),
                    None => {},
                }
                proof {
                    let f = |c: ConditionConflict| conflict_view(c);
                    let b0 = if field_conflicts(opt_key(t0), precedents@, purpose, 0) {
                        seq![conflict_entry(i as int, precedents@, purpose, 0)]
                    } else {
                        Seq::empty()
                    };
                    let b1 = if field_conflicts(opt_key(d0), precedents@, purpose, 1) {
                        seq![conflict_entry(i as int, precedents@, purpose, 1)]
                    } else {
                        Seq::empty()
                    };
                    let b2 = if field_conflicts(opt_key(a0), precedents@, purpose, 2) {
                        seq![conflict_entry(i as int, precedents@, purpose, 2)]
                    } else {
                        Seq::empty()
                    };
                    let b3 = if field_conflicts(opt_key(r0), precedents@, purpose, 3) {
                        seq![conflict_entry(i as int, precedents@, purpose, 3)]
                    } else {
                        Seq::empty()
                    };
                    assert(after0.map_values(f) =~= b0);
                    assert(after1.map_values(f) =~= b0 + b1);
                    assert(after2.map_values(f) =~= b0 + b1 + b2);
                    assert(conflicts@.map_values(f) =~= b0 + b1 + b2 + b3);
                }
                // Which fields each matching precedent supplied.
                let ghost mp = matching_positions(precedents@, purpose);
                let ghost (kt, kd, ka, kr) = (opt_key(t0), opt_key(d0), opt_key(a0), opt_key(r0));
                let mut matching: Vec<usize> = Vec::new();
                let mut j: usize = 0;
                while j < precedents.len()
                    invariant
                        j <= precedents@.len(),
                        forall|k: int| 0 <= k < matching@.len() ==> (#[trigger] matching@[k]) < precedents@.len(),
                        matching@.len() == matching_positions(precedents@.take(j as int), purpose).len(),
                        forall|k: int| 0 <= k < matching@.len() ==> matching@[k] as int
                            == #[trigger] matching_positions(precedents@.take(j as int), purpose)[k],
                    decreases precedents@.len() - j,
                {
                    proof {
                        assert(precedents@.take(j + 1).drop_last() =~= precedents@.take(j as int));
                        assert(precedents@.take(j + 1).last() == precedents@[j as int]);
                    }
                    if precedents[j].purpose == purpose {
                        matching.push(j);
                    }
                    j = j + 1;
                }
                proof {
                    assert(precedents@.take(j as int) =~= precedents@);
                }
                let mut step_evidence: Vec<PlanningEvidence> = Vec::new();
                let mut mi: usize = 0;
                assert(mp.take(0) =~= Seq::<int>::empty());
                while mi < matching.len()
                    invariant
                        mi <= matching@.len(),
                        forall|k: int| 0 <= k < matching@.len() ==> (#[trigger] matching@[k]) < precedents@.len(),
                        forall|k: int| 0 <= k < step_evidence@.len() ==> from_precedent(#[trigger] step_evidence@[k], precedents@),
                        mp == matching_positions(precedents@, purpose),
                        matching@.len() == mp.len(),
                        forall|k: int| 0 <= k < matching@.len() ==> matching@[k] as int == #[trigger] mp[k],
                        kt == opt_key(t0) && kd == opt_key(d0) && ka == opt_key(a0) && kr == opt_key(r0),
                        forall|m: usize|
                            ct@.contains(m) <==> (m < mp.len() && credited(kt, precedents@, purpose, 0, mp[m as int])),
                        forall|m: usize|
                            cd@.contains(m) <==> (m < mp.len() && credited(kd, precedents@, purpose, 1, mp[m as int])),
                        forall|m: usize|
                            ca@.contains(m) <==> (m < mp.len() && credited(ka, precedents@, purpose, 2, mp[m as int])),
                        forall|m: usize|
                            cr@.contains(m) <==> (m < mp.len() && credited(kr, precedents@, purpose, 3, mp[m as int])),
                        evidence_views(step_evidence@) == credited_views(kt, kd, ka, kr, precedents@, purpose, mp.take(mi as int)),
                    decreases matching@.len() - mi,
                {
                    let ghost jj = mp[mi as int];
                    proof {
                        assert(mp.take(mi + 1).drop_last() =~= mp.take(mi as int));
                        assert(mp.take(mi + 1).last() == jj);
                    }
                    let mut fields: Vec<&'static str> = Vec::new();
                    if contains_index(&ct, mi) {
                        fields.push("temperature");
                    }
                    if contains_index(&cd, mi) {
                        fields.push("duration");
                    }
                    if contains_index(&ca, mi) {
                        fields.push("atmosphere");
                    }
                    if contains_index(&cr, mi) {
                        fields.push("ramp rate");
                    }
                    assert(names_of(fields@) =~= credited_fields(kt, kd, ka, kr, precedents@, purpose, jj));
                    let ghost ev0 = step_evidence@;
                    if fields.len() > 0 {
                        let p = &precedents[matching[mi]];
                        let mut limitations: Vec<String> = Vec::new();
                        limitations.push(limitation_text(&fields, purpose));
                        let e = PlanningEvidence {
                            kind: p.evidence_kind,
                            source_id: copy_text(&p.source_id),
                            statement: String::from_str(p.statement.as_str()),
                            strength: p.strength,
                            applicable_to: p.applicable_to,
                            limitations,
                        };
                        proof {
                            assert(precedents@[matching@[mi as int] as int] == *p);
                            assert(texts_of(e.limitations@) =~= seq![limitation_of(names_of(fields@), purpose)]);
                            assert(evidence_view(e) == credited_view(precedents@[jj], names_of(fields@), purpose));
                        }
                        step_evidence.push(e);
                        assert(evidence_views(step_evidence@) =~= evidence_views(ev0).push(evidence_view(e)));
                    }
                    mi = mi + 1;
                }
                assert(mp.take(mi as int) =~= mp);
                let sorted = sort_evidence(step_evidence);
                let new_step = PlannedStep {
                    requirement,
                    step: ProcessStep::Heat { purpose, temperature: t1, duration: d1, atmosphere: a1, ramp: r1 },
                };
                (new_step, conflicts, sorted)
}

/// Splices cited condition data into the heating steps. Only an empty
/// field is ever filled, never one another source already set; each
/// field is resolved against every precedent for the step's purpose
/// independently of their order, and a field whose precedents disagree is
/// left empty and reported. Returns the evidence of [`all_evidence`]: per
/// heating step, one entry per matching precedent that supplied an agreed
/// field, carrying the precedent's provenance and a limitation naming
/// those fields, ordered by source, statement and limitation (ties in
/// precedent order); and the conflicts in step and field order, each with
/// the reason citing every distinct value with the source of its first
/// report ([`conflict_entry`]).
pub fn apply_condition_precedents(steps: &mut Vec<PlannedStep>, precedents: &[ConditionPrecedent]) -> (r: (
    Vec<PlanningEvidence>,
    Vec<ConditionConflict>,
))
    ensures
        final(steps)@.len() == old(steps)@.len(),
        forall|i: int|
            0 <= i < old(steps)@.len() ==> step_settled(
                #[trigger] old(steps)@[i],
                final(steps)@[i],
                precedents@,
            ),
        r.1@.map_values(|c: ConditionConflict| conflict_view(c)) == all_conflicts(old(steps)@, precedents@),
        forall|k: int| 0 <= k < r.0@.len() ==> from_precedent(#[trigger] r.0@[k], precedents@),
        evidence_views(r.0@) == all_evidence(old(steps)@, precedents@),
{
    let ghost old_steps = steps@;
    let n = steps.len();
    let mut evidence: Vec<PlanningEvidence> = Vec::new();
    let mut conflicts: Vec<ConditionConflict> = Vec::new();
    let mut i: usize = 0;
    while i < n
        invariant
            i <= n,
            n == old_steps.len(),
            steps@.len() == n,
            forall|k: int| 0 <= k < i ==> step_settled(#[trigger] old_steps[k], steps@[k], precedents@),
            forall|k: int| i <= k < n ==> #[trigger] steps@[k] == old_steps[k],
            conflicts@.map_values(|c: ConditionConflict| conflict_view(c)) == all_conflicts(
                old_steps.take(i as int),
                precedents@,
            ),
            forall|k: int| 0 <= k < evidence@.len() ==> from_precedent(#[trigger] evidence@[k], precedents@),
            evidence_views(evidence@) == all_evidence(old_steps.take(i as int), precedents@),
        decreases n - i,
    {
        proof {
            assert(old_steps.take(i + 1).drop_last() =~= old_steps.take(i as int));
            assert(old_steps.take(i + 1).last() == old_steps[i as int]);
        }
        let requirement = steps[i].requirement;
        let current = match &steps[i].step {
            ProcessStep::Heat { purpose, temperature, duration, atmosphere, ramp } => {
                let a = match atmosphere {
                    Some(x) => Some(x.copy_value()),
                    None => None,
                };
                Some((*purpose, *temperature, *duration, a, *ramp))
            },
            ProcessStep::Other { .. } => None,
        };
        match current {
            None => {
                proof {
                    assert(step_conflicts(old_steps[i as int], i as int, precedents@) =~= Seq::empty());
                    assert(step_evidence(old_steps[i as int], precedents@) =~= Seq::empty());
                    assert(evidence_views(evidence@) =~= all_evidence(old_steps.take(i + 1), precedents@));
                    assert(conflicts@.map_values(|c: ConditionConflict| conflict_view(c)) =~= all_conflicts(
                        old_steps.take(i + 1),
                        precedents@,
                    ));
                }
            },
            Some((purpose, t0, d0, a0, r0)) => {
                let (new_step, cs, es) = settle_heat_step(i, requirement, purpose, t0, d0, a0, r0, precedents);
                let ghost c_before = conflicts@;
                let ghost cs0 = cs@;
                let mut cs = cs;
                while cs.len() > 0
                    invariant
                        conflicts@ + cs@ == c_before + cs0,
                    decreases cs@.len(),
                {
                    let ghost before = cs@;
                    let c = cs.remove(0);
                    conflicts.push(c);
                    assert(conflicts@ + cs@ =~= c_before + cs0) by {
                        assert(before =~= seq![c] + cs@);
                    }
                }
                assert(conflicts@ =~= c_before + cs0);
                let ghost e_before = evidence_views(evidence@);
                let ghost es0 = evidence_views(es@);
                let mut es = es;
                while es.len() > 0
                    invariant
                        forall|k: int| 0 <= k < es@.len() ==> from_precedent(#[trigger] es@[k], precedents@),
                        forall|k: int| 0 <= k < evidence@.len() ==> from_precedent(#[trigger] evidence@[k], precedents@),
                        evidence_views(evidence@) + evidence_views(es@) == e_before + es0,
                    decreases es@.len(),
                {
                    let ghost before = es@;
                    let ghost ev0 = evidence@;
                    let e = es.remove(0);
                    assert(e == before[0]);
                    evidence.push(e);
                    assert(evidence_views(evidence@) + evidence_views(es@) =~= evidence_views(ev0) + evidence_views(before)) by {
                        assert(before =~= seq![e] + es@);
                        assert(evidence_views(before) =~= seq![evidence_view(e)] + evidence_views(es@));
                        assert(evidence_views(evidence@) =~= evidence_views(ev0).push(evidence_view(e)));
                    }
                    assert forall|k: int| 0 <= k < es@.len() implies from_precedent(#[trigger] es@[k], precedents@) by {
                        assert(es@[k] == before[k + 1]);
                    }
                }
                proof {
                    assert(evidence_views(es@) =~= Seq::empty());
                    assert(evidence_views(evidence@) =~= e_before + es0);
                    assert(step_evidence(old_steps[i as int], precedents@) == es0);
                    assert(evidence_views(evidence@) =~= all_evidence(old_steps.take(i + 1), precedents@));
                    let f = |c: ConditionConflict| conflict_view(c);
                    let old_step = old_steps[i as int];
                    assert(conflicts@.map_values(f) =~= c_before.map_values(f) + cs0.map_values(f));
                    assert(step_conflicts(old_step, i as int, precedents@) == heat_conflicts(
                        i as int,
                        purpose,
                        opt_key(t0),
                        opt_key(d0),
                        opt_key(a0),
                        opt_key(r0),
                        precedents@,
                    ));
                    assert(conflicts@.map_values(f) =~= all_conflicts(old_steps.take(i + 1), precedents@));
                }
                steps.set(i, new_step);
            },
        }
        i = i + 1;
    }
    assert(old_steps.take(n as int) =~= old_steps);
    (evidence, conflicts)
}

/// The distinct keys hold exactly the keys listed, each once.
proof fn lemma_distinct_of_members(ks: Seq<Seq<int>>)
    ensures
        forall|k: Seq<int>| #[trigger] distinct_of(ks).contains(k) <==> ks.contains(k),
        forall|i: int, j: int|
            0 <= i < j < distinct_of(ks).len() ==> distinct_of(ks)[i] != distinct_of(ks)[j],
    decreases ks.len(),
{
    if ks.len() > 0 {
        let t = ks.drop_last();
        lemma_distinct_of_members(t);
        assert forall|k: Seq<int>| #[trigger] distinct_of(ks).contains(k) <==> ks.contains(k) by {
            let dt = distinct_of(t);
            let dk = distinct_of(ks);
            if dt.contains(k) {
                let j = choose|j: int| 0 <= j < dt.len() && dt[j] == k;
                assert(dk[j] == k);
                assert(t.contains(k));
                let i = choose|i: int| 0 <= i < t.len() && t[i] == k;
                assert(ks[i] == k);
            }
            if ks.contains(k) {
                let i = choose|i: int| 0 <= i < ks.len() && ks[i] == k;
                if i < ks.len() - 1 {
                    assert(t[i] == k);
                    assert(t.contains(k));
                } else if !dt.contains(k) {
                    assert(dk[dk.len() - 1] == k);
                }
            }
            if dk.contains(k) && !dt.contains(k) {
                let j = choose|j: int| 0 <= j < dk.len() && dk[j] == k;
                if j < dt.len() {
                    assert(dk[j] == dt[j]);
                }
                assert(k == ks.last());
                assert(ks[ks.len() - 1] == k);
            }
        }
    }
}

/// The distinct keys are a single one exactly when some key is listed and
/// all listed keys are equal; that one is then the first.
proof fn lemma_distinct_of_single(ks: Seq<Seq<int>>)
    ensures
        distinct_of(ks).len() == 1 <==> (ks.len() > 0 && forall|i: int| 0 <= i < ks.len() ==> #[trigger] ks[i] == ks[0]),
        distinct_of(ks).len() == 1 ==> distinct_of(ks)[0] == ks[0],
{
    lemma_distinct_of_members(ks);
    lemma_distinct_of_first(ks);
    let d = distinct_of(ks);
    if d.len() == 1 {
        assert forall|i: int| 0 <= i < ks.len() implies #[trigger] ks[i] == ks[0] by {
            assert(ks.contains(ks[i]));
            assert(d.contains(ks[i]));
        }
    }
    if ks.len() > 0 && forall|i: int| 0 <= i < ks.len() ==> #[trigger] ks[i] == ks[0] {
        if d.len() >= 2 {
            assert(d.contains(d[1]));
            assert(ks.contains(d[1]));
            assert(d[0] != d[1]);
        }
    }
}

/// The listed keys of field `f` are those of the precedents for `purpose`
/// that report it.
proof fn lemma_field_keys_members(ps: Seq<ConditionPrecedent>, purpose: HeatingPurpose, f: int)
    ensures
        forall|k: Seq<int>|
            #[trigger] field_keys(ps, purpose, f).contains(k) <==> exists|i: int|
                0 <= i < ps.len() && ps[i].purpose == purpose && #[trigger] precedent_field(ps[i], f)
                    == Some(k),
    decreases ps.len(),
{
    if ps.len() > 0 {
        let t = ps.drop_last();
        lemma_field_keys_members(t, purpose, f);
        assert forall|k: Seq<int>|
            #[trigger] field_keys(ps, purpose, f).contains(k) <==> exists|i: int|
                0 <= i < ps.len() && ps[i].purpose == purpose && #[trigger] precedent_field(ps[i], f)
                    == Some(k) by {
            let fk = field_keys(ps, purpose, f);
            let ft = field_keys(t, purpose, f);
            if ft.contains(k) {
                let i = choose|i: int|
                    0 <= i < t.len() && t[i].purpose == purpose && #[trigger] precedent_field(t[i], f)
                        == Some(k);
                assert(ps[i] == t[i]);
                assert(fk.contains(k)) by {
                    let j = choose|j: int| 0 <= j < ft.len() && ft[j] == k;
                    assert(fk[j] == k);
                }
            }
            if exists|i: int|
                0 <= i < ps.len() && ps[i].purpose == purpose && #[trigger] precedent_field(ps[i], f)
                    == Some(k) {
                let i = choose|i: int|
                    0 <= i < ps.len() && ps[i].purpose == purpose && #[trigger] precedent_field(ps[i], f)
                        == Some(k);
                if i < ps.len() - 1 {
                    assert(t[i] == ps[i]);
                    assert(precedent_field(t[i], f) == Some(k));
                    assert(ft.contains(k));
                    let j = choose|j: int| 0 <= j < ft.len() && ft[j] == k;
                    assert(fk[j] == k);
                } else {
                    assert(fk[fk.len() - 1] == k);
                }
            }
            if fk.contains(k) && !ft.contains(k) {
                let j = choose|j: int| 0 <= j < fk.len() && fk[j] == k;
                if j < ft.len() {
                    assert(fk[j] == ft[j]);
                }
                assert(precedent_field(ps[ps.len() - 1], f) == Some(k));
            }
        }
    }
}

/// How a heating field is resolved from precedents: a value already set is
/// kept; an unset one is filled exactly when some precedent for the step's
/// purpose reports the field and every such precedent reports the same
/// value, and then with that value. Two precedents reporting different
/// values leave the field unset.
pub proof fn lemma_field_resolution(
    current: Option<Seq<int>>,
    ps: Seq<ConditionPrecedent>,
    purpose: HeatingPurpose,
    f: int,
)
    ensures
        current is Some ==> settled_key(current, ps, purpose, f) == current,
        current is None ==> (settled_key(current, ps, purpose, f) is Some <==> (exists|i: int|
            0 <= i < ps.len() && ps[i].purpose == purpose && (#[trigger] precedent_field(ps[i], f)) is Some)
            && forall|i: int, j: int|
            0 <= i < ps.len() && 0 <= j < ps.len() && ps[i].purpose == purpose && ps[j].purpose == purpose
                && (#[trigger] precedent_field(ps[i], f)) is Some && (#[trigger] precedent_field(ps[j], f)) is Some
                ==> precedent_field(ps[i], f) == precedent_field(ps[j], f)),
        current is None && settled_key(current, ps, purpose, f) is Some ==> forall|i: int|
            0 <= i < ps.len() && ps[i].purpose == purpose && (#[trigger] precedent_field(ps[i], f)) is Some
                ==> precedent_field(ps[i], f) == settled_key(current, ps, purpose, f),
{
    let ks = field_keys(ps, purpose, f);
    lemma_field_keys_members(ps, purpose, f);
    lemma_distinct_of_single(ks);
    if current is None {
        let reports = exists|i: int|
            0 <= i < ps.len() && ps[i].purpose == purpose && (#[trigger] precedent_field(ps[i], f)) is Some;
        let agree = forall|i: int, j: int|
            0 <= i < ps.len() && 0 <= j < ps.len() && ps[i].purpose == purpose && ps[j].purpose == purpose
                && (#[trigger] precedent_field(ps[i], f)) is Some && (#[trigger] precedent_field(ps[j], f)) is Some
                ==> precedent_field(ps[i], f) == precedent_field(ps[j], f);
        if distinct_of(ks).len() == 1 {
            assert(ks.contains(ks[0]));
            let i0 = choose|i: int|
                0 <= i < ps.len() && ps[i].purpose == purpose && #[trigger] precedent_field(ps[i], f) == Some(ks[0]);
            assert(reports);
            assert forall|i: int|
                0 <= i < ps.len() && ps[i].purpose == purpose && (#[trigger] precedent_field(ps[i], f)) is Some
                    implies precedent_field(ps[i], f) == Some(ks[0]) by {
                let k = precedent_field(ps[i], f)->Some_0;
                assert(ks.contains(k));
                let q = choose|q: int| 0 <= q < ks.len() && ks[q] == k;
                assert(ks[q] == ks[0]);
            }
        } else {
            if reports && agree {
                let i0 = choose|i: int|
                    0 <= i < ps.len() && ps[i].purpose == purpose && (#[trigger] precedent_field(ps[i], f)) is Some;
                let k0 = precedent_field(ps[i0], f)->Some_0;
                assert(ks.contains(k0));
                assert(ks.len() > 0);
                assert forall|q: int| 0 <= q < ks.len() implies #[trigger] ks[q] == ks[0] by {
                    assert(ks.contains(ks[q]));
                    assert(ks.contains(ks[0]));
                    let a = choose|i: int|
                        0 <= i < ps.len() && ps[i].purpose == purpose && #[trigger] precedent_field(ps[i], f) == Some(ks[q]);
                    let b = choose|i: int|
                        0 <= i < ps.len() && ps[i].purpose == purpose && #[trigger] precedent_field(ps[i], f) == Some(ks[0]);
                    assert(precedent_field(ps[a], f) == precedent_field(ps[b], f));
                }
                assert(false);
            }
        }
    }
}

/// Evidence in order is ordered by source first, an entry without a source
/// before one with, and the entries of one source by statement.
pub proof fn lemma_evidence_order(v: Seq<PlanningEvidence>)
    requires
        evidence_sorted(v),
    ensures
        forall|i: int, j: int|
            0 <= i < j < v.len() ==> opt_seq_le(
                opt_view((#[trigger] v[i]).source_id),
                opt_view((#[trigger] v[j]).source_id),
            ),
        forall|i: int, j: int|
            0 <= i < j < v.len() && opt_view((#[trigger] v[i]).source_id) == opt_view(
                (#[trigger] v[j]).source_id,
            ) ==> seq_le(v[i].statement@, v[j].statement@),
{
    assert forall|i: int, j: int|
        0 <= i < j < v.len() implies opt_seq_le(
            opt_view((#[trigger] v[i]).source_id),
            opt_view((#[trigger] v[j]).source_id),
        ) && (opt_view(v[i].source_id) == opt_view(v[j].source_id) ==> seq_le(
            v[i].statement@,
            v[j].statement@,
        )) by {
        assert(evidence_le(v[i], v[j]));
        let a = opt_view(v[i].source_id);
        lemma_opt_seq_le(a, a, a);
        crate::lex::lemma_seq_le_total(v[i].statement@, v[i].statement@);
    }
}

/// A precedent is credited for a field exactly when the step had no value
/// for it, the precedent reports it, and every precedent for the step's
/// purpose that reports it reports the same value.
pub proof fn lemma_credited_meaning(
    current: Option<Seq<int>>,
    ps: Seq<ConditionPrecedent>,
    purpose: HeatingPurpose,
    f: int,
    j: int,
)
    requires
        0 <= j < ps.len(),
        ps[j].purpose == purpose,
    ensures
        credited(current, ps, purpose, f, j) <==> (current is None && precedent_field(ps[j], f) is Some
            && forall|i: int|
            0 <= i < ps.len() && ps[i].purpose == purpose && (#[trigger] precedent_field(ps[i], f)) is Some
                ==> precedent_field(ps[i], f) == precedent_field(ps[j], f)),
{
    let ks = field_keys(ps, purpose, f);
    lemma_field_keys_members(ps, purpose, f);
    lemma_distinct_of_single(ks);
    if current is None && precedent_field(ps[j], f) is Some {
        let kj = precedent_field(ps[j], f)->Some_0;
        assert(ks.contains(kj));
        if distinct_of(ks).len() == 1 {
            assert forall|i: int|
                0 <= i < ps.len() && ps[i].purpose == purpose && (#[trigger] precedent_field(ps[i], f)) is Some
                    implies precedent_field(ps[i], f) == precedent_field(ps[j], f) by {
                let k = precedent_field(ps[i], f)->Some_0;
                assert(ks.contains(k));
                let q = choose|q: int| 0 <= q < ks.len() && ks[q] == k;
                let r = choose|q: int| 0 <= q < ks.len() && ks[q] == kj;
                assert(ks[q] == ks[0] && ks[r] == ks[0]);
            }
        }
        if forall|i: int|
            0 <= i < ps.len() && ps[i].purpose == purpose && (#[trigger] precedent_field(ps[i], f)) is Some
                ==> precedent_field(ps[i], f) == precedent_field(ps[j], f) {
            assert forall|q: int| 0 <= q < ks.len() implies #[trigger] ks[q] == ks[0] by {
                assert(ks.contains(ks[q]));
                assert(ks.contains(ks[0]));
                let a = choose|i: int|
                    0 <= i < ps.len() && ps[i].purpose == purpose && #[trigger] precedent_field(ps[i], f) == Some(ks[q]);
                let b = choose|i: int|
                    0 <= i < ps.len() && ps[i].purpose == purpose && #[trigger] precedent_field(ps[i], f) == Some(ks[0]);
            }
        }
    }
}

} // verus!



