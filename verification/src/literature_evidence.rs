//! Cross-DOI literature evidence: how independent sources agree or
//! disagree about the conditions of one heating step. Reference-only: none
//! of it feeds plan scoring.

use crate::composition::Composition;
use crate::process::{Atmosphere, ConditionValue, DurationRange, RouteFamily, TemperatureRange};
use vstd::prelude::*;
use vstd::string::StringExecFns;

verus! {

/// The grouping key within one route: how many heating operations the
/// route has and which of them this is.
#[derive(Debug, Clone, Copy, PartialEq, Eq, PartialOrd, Ord)]
pub struct StepGroupKey {
    pub heating_operation_count: usize,
    pub operation_index: usize,
}

/// A value and the DOI it came from.
#[derive(Debug, Clone, PartialEq, Eq)]
pub struct SourcedValue<T> {
    pub value: T,
    pub doi: String,
}

/// How the distinct DOIs reporting a field relate.
#[derive(Debug, Clone, PartialEq, Eq)]
pub enum CrossDoiFieldStatus<T> {
    Agreement { value: T, source_dois: Vec<String> },
    Conflict { values: Vec<SourcedValue<T>> },
    InsufficientIndependentSources,
    Unresolved,
    SegmentationAmbiguous,
}

/// The per-field status of one step group.
#[derive(Debug, Clone, PartialEq, Eq)]
pub struct StepGroupAssessment {
    pub key: StepGroupKey,
    pub source_dois: Vec<String>,
    pub temperature: CrossDoiFieldStatus<TemperatureRange>,
    pub duration: CrossDoiFieldStatus<DurationRange>,
    pub atmosphere: CrossDoiFieldStatus<Atmosphere>,
}

/// The distinct values of `cands` in first-appearance order, each with the
/// DOIs reporting it in order.
pub open spec fn distinct_keys<T: ConditionValue>(cands: Seq<(String, T)>) -> Seq<Seq<int>>
    decreases cands.len(),
{
    if cands.len() == 0 {
        Seq::empty()
    } else {
        let prev = distinct_keys(cands.drop_last());
        if prev.contains(cands.last().1.key()) {
            prev
        } else {
            prev.push(cands.last().1.key())
        }
    }
}

proof fn lemma_distinct_keys_prefix<T: ConditionValue>(cands: Seq<(String, T)>, i: int)
    requires
        0 <= i < cands.len(),
    ensures
        distinct_keys(cands.take(i + 1)) == (if distinct_keys(cands.take(i)).contains(
            cands[i].1.key(),
        ) {
            distinct_keys(cands.take(i))
        } else {
            distinct_keys(cands.take(i)).push(cands[i].1.key())
        }),
{
    assert(cands.take(i + 1).drop_last() =~= cands.take(i));
}

/// The keys of `distinct_keys` are those of some candidate.
proof fn lemma_distinct_keys_from<T: ConditionValue>(cands: Seq<(String, T)>)
    ensures
        forall|k: int|
            0 <= k < distinct_keys(cands).len() ==> exists|j: int|
                0 <= j < cands.len() && #[trigger] distinct_keys(cands)[k] == cands[j].1.key(),
        cands.len() > 0 ==> distinct_keys(cands).len() > 0,
        cands.len() > 0 ==> distinct_keys(cands)[0] == cands[0].1.key(),
    decreases cands.len(),
{
    if cands.len() > 0 {
        let t = cands.drop_last();
        lemma_distinct_keys_from(t);
        assert forall|k: int| 0 <= k < distinct_keys(cands).len() implies exists|j: int|
            0 <= j < cands.len() && #[trigger] distinct_keys(cands)[k] == cands[j].1.key() by {
            if k < distinct_keys(t).len() {
                let j = choose|j: int| 0 <= j < t.len() && #[trigger] distinct_keys(t)[k] == t[j].1.key();
                assert(cands[j] == t[j]);
            } else {
                assert(distinct_keys(cands)[k] == cands[cands.len() - 1].1.key());
            }
        }
        if t.len() == 0 {
            assert(distinct_keys(t).len() == 0);
        } else {
            assert(cands[0] == t[0]);
        }
    }
}

/// The distinct values hold exactly the candidates' values, each once.
proof fn lemma_distinct_keys_members<T: ConditionValue>(cands: Seq<(String, T)>)
    ensures
        forall|k: Seq<int>|
            #[trigger] distinct_keys(cands).contains(k) <==> exists|i: int|
                0 <= i < cands.len() && #[trigger] cands[i].1.key() == k,
        forall|i: int, j: int|
            0 <= i < j < distinct_keys(cands).len() ==> distinct_keys(cands)[i] != distinct_keys(cands)[j],
    decreases cands.len(),
{
    if cands.len() > 0 {
        let t = cands.drop_last();
        lemma_distinct_keys_members(t);
        assert forall|k: Seq<int>|
            #[trigger] distinct_keys(cands).contains(k) <==> exists|i: int|
                0 <= i < cands.len() && #[trigger] cands[i].1.key() == k by {
            let dt = distinct_keys(t);
            let dk = distinct_keys(cands);
            if dt.contains(k) {
                let j = choose|j: int| 0 <= j < dt.len() && dt[j] == k;
                assert(dk[j] == k);
                let i = choose|i: int| 0 <= i < t.len() && #[trigger] t[i].1.key() == k;
                assert(cands[i] == t[i]);
            }
            if exists|i: int| 0 <= i < cands.len() && #[trigger] cands[i].1.key() == k {
                let i = choose|i: int| 0 <= i < cands.len() && #[trigger] cands[i].1.key() == k;
                if i < cands.len() - 1 {
                    assert(t[i] == cands[i]);
                    assert(t[i].1.key() == k);
                } else if !dt.contains(k) {
                    assert(dk[dk.len() - 1] == k);
                }
            }
            if dk.contains(k) && !dt.contains(k) {
                let j = choose|j: int| 0 <= j < dk.len() && dk[j] == k;
                if j < dt.len() {
                    assert(dk[j] == dt[j]);
                }
                assert(cands[cands.len() - 1].1.key() == k);
            }
        }
    }
}

/// Among candidates, the values all agree exactly when there is one
/// distinct value, and two candidates disagree exactly when there are at
/// least two; an agreement's value is the first candidate's.
pub proof fn lemma_field_status_meaning<T: ConditionValue>(cands: Seq<(String, T)>)
    requires
        cands.len() > 0,
    ensures
        distinct_keys(cands).len() == 1 <==> forall|i: int|
            0 <= i < cands.len() ==> (#[trigger] cands[i]).1.key() == cands[0].1.key(),
        distinct_keys(cands).len() >= 2 <==> exists|i: int, j: int|
            0 <= i < cands.len() && 0 <= j < cands.len() && (#[trigger] cands[i]).1.key() != (
            #[trigger] cands[j]).1.key(),
        distinct_keys(cands).len() == 1 ==> distinct_keys(cands)[0] == cands[0].1.key(),
{
    lemma_distinct_keys_members(cands);
    lemma_distinct_keys_from(cands);
    let d = distinct_keys(cands);
    assert(d.len() >= 1);
    if d.len() == 1 {
        assert forall|i: int| 0 <= i < cands.len() implies (#[trigger] cands[i]).1.key() == cands[0].1.key() by {
            assert(cands[i].1.key() == cands[i].1.key());
            assert(d.contains(cands[i].1.key()));
            assert(d.contains(cands[0].1.key()));
        }
    }
    if forall|i: int| 0 <= i < cands.len() ==> (#[trigger] cands[i]).1.key() == cands[0].1.key() {
        if d.len() >= 2 {
            assert(d.contains(d[1]));
            let i = choose|i: int| 0 <= i < cands.len() && #[trigger] cands[i].1.key() == d[1];
            assert(d[0] != d[1]);
        }
    }
    if exists|i: int, j: int|
        0 <= i < cands.len() && 0 <= j < cands.len() && (#[trigger] cands[i]).1.key() != (
        #[trigger] cands[j]).1.key() {
        let (i, j) = choose|i: int, j: int|
            0 <= i < cands.len() && 0 <= j < cands.len() && (#[trigger] cands[i]).1.key() != (
            #[trigger] cands[j]).1.key();
        if d.len() < 2 {
            assert(cands[i].1.key() == cands[i].1.key());
            assert(d.contains(cands[i].1.key()));
            assert(d.contains(cands[j].1.key()));
        }
    }
    if d.len() >= 2 {
        assert(cands[0] == cands[0]);
        assert(d.contains(d[1]));
        let i = choose|i: int| 0 <= i < cands.len() && #[trigger] cands[i].1.key() == d[1];
        assert(cands[i].1.key() != cands[0].1.key());
    }
}

/// No candidate before `j` carries the value of candidate `j`.
pub open spec fn first_with_key<T: ConditionValue>(cands: Seq<(String, T)>, j: int) -> bool {
    forall|q: int| 0 <= q < j ==> cands[q].1.key() != cands[j].1.key()
}

/// `candidates` holds one `(doi, value)` pair per distinct contributing
/// DOI. None is `Unresolved`; a lone one is too few independent sources;
/// otherwise the values either all agree (every DOI credited, in order)
/// or conflict (each distinct value once, in first-appearance order, with
/// the DOI that first reported it).
#[verifier::rlimit(50)]
pub fn field_status<T: ConditionValue>(candidates: Vec<(String, T)>) -> (r: CrossDoiFieldStatus<T>)
    ensures
        candidates@.len() == 0 <==> r is Unresolved,
        candidates@.len() == 1 <==> r is InsufficientIndependentSources,
        candidates@.len() >= 2 ==> (r is Agreement <==> distinct_keys(candidates@).len() == 1),
        candidates@.len() >= 2 ==> (r is Conflict <==> distinct_keys(candidates@).len() >= 2),
        r matches CrossDoiFieldStatus::Agreement { value, source_dois } ==> value.key()
            == candidates@[0].1.key() && source_dois@.len() == candidates@.len() && forall|i: int|
            0 <= i < candidates@.len() ==> (#[trigger] source_dois@[i])@ == candidates@[i].0@,
        r matches CrossDoiFieldStatus::Conflict { values } ==> values@.len() == distinct_keys(
            candidates@,
        ).len() && forall|k: int|
            0 <= k < values@.len() ==> (#[trigger] values@[k]).value.key() == distinct_keys(
                candidates@,
            )[k] && exists|j: int|
                0 <= j < candidates@.len() && #[trigger] candidates@[j].1.key() == values@[k].value.key()
                    && candidates@[j].0@ == values@[k].doi@ && forall|q: int|
                    0 <= q < j ==> candidates@[q].1.key() != values@[k].value.key(),
        r is SegmentationAmbiguous ==> false,
{
    let n = candidates.len();
    if n == 0 {
        return CrossDoiFieldStatus::Unresolved;
    }
    if n == 1 {
        return CrossDoiFieldStatus::InsufficientIndependentSources;
    }
    let ghost cands = candidates@;
    // Positions of the first candidate carrying each distinct value.
    let mut firsts: Vec<usize> = Vec::new();
    let mut i: usize = 0;
    while i < n
        invariant
            i <= n,
            n == candidates@.len(),
            cands == candidates@,
            firsts@.len() == distinct_keys(cands.take(i as int)).len(),
            forall|k: int|
                0 <= k < firsts@.len() ==> (#[trigger] firsts@[k]) < i && cands[firsts@[k] as int].1.key()
                    == distinct_keys(cands.take(i as int))[k],
            forall|a: int, b: int| 0 <= a < b < firsts@.len() ==> firsts@[a] < firsts@[b],
            forall|q: int|
                #![trigger cands[q]]
                0 <= q < i ==> exists|k: int|
                    0 <= k < firsts@.len() && cands[(#[trigger] firsts@[k]) as int].1.key() == cands[q].1.key(),
            forall|k: int| 0 <= k < firsts@.len() ==> first_with_key(cands, #[trigger] firsts@[k] as int),
        decreases n - i,
    {
        proof {
            lemma_distinct_keys_prefix(cands, i as int);
        }
        let mut found = false;
        let mut k: usize = 0;
        while k < firsts.len()
            invariant
                k <= firsts@.len(),
                i < n,
                n == candidates@.len(),
                cands == candidates@,
                forall|q: int| 0 <= q < firsts@.len() ==> (#[trigger] firsts@[q]) < i,
                found == exists|q: int| 0 <= q < k && cands[(#[trigger] firsts@[q]) as int].1.key() == cands[i as int].1.key(),
            decreases firsts@.len() - k,
        {
            if candidates[firsts[k]].1.same_value(&candidates[i].1) {
                found = true;
            }
            k = k + 1;
        }
        let ghost dk = distinct_keys(cands.take(i as int));
        proof {
            if found {
                let q = choose|q: int| 0 <= q < firsts@.len() && cands[(#[trigger] firsts@[q]) as int].1.key() == cands[i as int].1.key();
                assert(dk[q] == cands[i as int].1.key());
                assert(dk.contains(cands[i as int].1.key()));
            } else {
                assert(!dk.contains(cands[i as int].1.key())) by {
                    if dk.contains(cands[i as int].1.key()) {
                        let q = choose|q: int| 0 <= q < dk.len() && dk[q] == cands[i as int].1.key();
                        assert(cands[firsts@[q] as int].1.key() == dk[q]);
                    }
                }
            }
        }
        let ghost f0 = firsts@;
        if !found {
            firsts.push(i);
        }
        proof {
            assert forall|q: int| #![trigger cands[q]] 0 <= q < i + 1 implies exists|k: int|
                0 <= k < firsts@.len() && cands[(#[trigger] firsts@[k]) as int].1.key() == cands[q].1.key() by {
                if q < i {
                    let k = choose|k: int|
                        0 <= k < f0.len() && cands[(#[trigger] f0[k]) as int].1.key() == cands[q].1.key();
                    assert(firsts@[k] == f0[k]);
                } else if found {
                    let k = choose|k: int| 0 <= k < f0.len() && cands[(#[trigger] f0[k]) as int].1.key() == cands[i as int].1.key();
                    assert(firsts@[k] == f0[k]);
                } else {
                    assert(firsts@[f0.len() as int] == i);
                }
            }
            assert forall|k: int| 0 <= k < firsts@.len() implies first_with_key(cands, #[trigger] firsts@[k] as int) by {
                if k < f0.len() {
                    assert(firsts@[k] == f0[k]);
                } else {
                    assert(firsts@[k] == i);
                    assert forall|q: int| 0 <= q < i implies cands[q].1.key() != cands[i as int].1.key() by {
                        if cands[q].1.key() == cands[i as int].1.key() {
                            let k2 = choose|k2: int|
                                0 <= k2 < f0.len() && cands[(#[trigger] f0[k2]) as int].1.key() == cands[q].1.key();
                            assert(cands[(f0[k2]) as int].1.key() == cands[i as int].1.key());
                        }
                    }
                }
            }
        }
        i = i + 1;
    }
    assert(cands.take(n as int) =~= cands);
    proof {
        lemma_distinct_keys_from(cands);
    }
    let mut rest = candidates;
    let mut pos: usize = 0;
    let mut next_first: usize = 0;
    if firsts.len() == 1 {
        let (doi0, value0) = rest.remove(0);
        let mut dois: Vec<String> = Vec::new();
        dois.push(doi0);
        pos = 1;
        while rest.len() > 0
            invariant
                rest@ == cands.subrange(pos as int, n as int),
                1 <= pos <= n,
                n == cands.len(),
                dois@.len() == pos,
                forall|q: int| 0 <= q < pos ==> (#[trigger] dois@[q])@ == cands[q].0@,
            decreases rest@.len(),
        {
            let (d, _v) = rest.remove(0);
            dois.push(d);
            pos = pos + 1;
            assert(rest@ =~= cands.subrange(pos as int, n as int));
        }
        return CrossDoiFieldStatus::Agreement { value: value0, source_dois: dois };
    }
    let mut values: Vec<SourcedValue<T>> = Vec::new();
    while rest.len() > 0
        invariant
            rest@ == cands.subrange(pos as int, n as int),
            pos <= n,
            n == cands.len(),
            firsts@.len() == distinct_keys(cands).len(),
            forall|k: int|
                0 <= k < firsts@.len() ==> (#[trigger] firsts@[k]) < n && cands[firsts@[k] as int].1.key()
                    == distinct_keys(cands)[k],
            forall|a: int, b: int| 0 <= a < b < firsts@.len() ==> firsts@[a] < firsts@[b],
            forall|k: int| 0 <= k < firsts@.len() ==> first_with_key(cands, #[trigger] firsts@[k] as int),
            next_first <= firsts@.len(),
            next_first < firsts@.len() ==> pos <= firsts@[next_first as int],
            next_first > 0 ==> firsts@[next_first - 1] < pos,
            values@.len() == next_first,
            forall|k: int|
                0 <= k < next_first ==> (#[trigger] values@[k]).value.key() == distinct_keys(cands)[k]
                    && values@[k].doi@ == cands[firsts@[k] as int].0@,
        decreases rest@.len(),
    {
        let (d, v) = rest.remove(0);
        if next_first < firsts.len() && firsts[next_first] == pos {
            values.push(SourcedValue { value: v, doi: d });
            next_first = next_first + 1;
        }
        pos = pos + 1;
        assert(rest@ =~= cands.subrange(pos as int, n as int));
    }
    proof {
        if next_first < firsts@.len() {
            assert(pos == n);
            assert(firsts@[next_first as int] < n);
        }
        assert forall|k: int| 0 <= k < values@.len() implies exists|j: int|
            0 <= j < cands.len() && cands[j].1.key() == (#[trigger] values@[k]).value.key()
                && cands[j].0@ == values@[k].doi@ && forall|q: int|
                0 <= q < j ==> cands[q].1.key() != values@[k].value.key() by {
            let j = firsts@[k] as int;
            assert(cands[j].1.key() == distinct_keys(cands)[k]);
            assert(first_with_key(cands, firsts@[k] as int));
        }
    }
    CrossDoiFieldStatus::Conflict { values }
}


/// The cross-DOI assessment of one route: its target, precursors and
/// family, whether its reports describe different numbers of heating
/// operations, which counts were observed, and each step group.
#[derive(Debug, Clone, PartialEq, Eq)]
pub struct RouteObservationAssessment {
    pub target: Composition,
    pub precursors: Vec<Composition>,
    pub route_family: RouteFamily,
    pub has_multiple_operation_shapes: bool,
    pub observed_operation_counts: Vec<usize>,
    pub step_groups: Vec<StepGroupAssessment>,
}

/// Every source DOI of every step group, in order.
pub open spec fn all_source_dois(groups: Seq<StepGroupAssessment>) -> Seq<Seq<char>>
    decreases groups.len(),
{
    if groups.len() == 0 {
        Seq::empty()
    } else {
        all_source_dois(groups.drop_last()) + Seq::new(
            groups.last().source_dois@.len(),
            |i: int| groups.last().source_dois@[i]@,
        )
    }
}

/// The distinct texts of `s`, in first-appearance order.
pub open spec fn distinct_texts(s: Seq<Seq<char>>) -> Seq<Seq<char>>
    decreases s.len(),
{
    if s.len() == 0 {
        Seq::empty()
    } else {
        let d = distinct_texts(s.drop_last());
        if d.contains(s.last()) {
            d
        } else {
            d.push(s.last())
        }
    }
}

/// The status reports a conflict.
pub open spec fn is_conflict<T>(s: CrossDoiFieldStatus<T>) -> bool {
    s is Conflict
}

/// Some step group reports a conflict in some field.
pub open spec fn any_conflict(groups: Seq<StepGroupAssessment>) -> bool {
    exists|i: int|
        0 <= i < groups.len() && (is_conflict(#[trigger] groups[i].temperature) || is_conflict(groups[i].duration)
            || is_conflict(groups[i].atmosphere))
}

/// Whether `v` already holds `t`.
fn holds_text(v: &Vec<String>, t: &String) -> (r: bool)
    ensures
        r == Seq::new(v@.len(), |i: int| v@[i]@).contains(t@),
{
    let ghost s = Seq::new(v@.len(), |i: int| v@[i]@);
    let mut i: usize = 0;
    while i < v.len()
        invariant
            i <= v@.len(),
            s == Seq::new(v@.len(), |i: int| v@[i]@),
            forall|k: int| 0 <= k < i ==> s[k] != t@,
        decreases v@.len() - i,
    {
        if v[i] == *t {
            assert(s[i as int] == t@);
            return true;
        }
        i = i + 1;
    }
    false
}

impl RouteObservationAssessment {
    /// How many distinct DOIs the step groups cite in all.
    pub fn independent_doi_count(&self) -> (r: usize)
        ensures
            r == distinct_texts(all_source_dois(self.step_groups@)).len(),
    {
        let ghost groups = self.step_groups@;
        let mut seen: Vec<String> = Vec::new();
        let mut g: usize = 0;
        assert(groups.take(0) =~= Seq::<StepGroupAssessment>::empty());
        while g < self.step_groups.len()
            invariant
                g <= groups.len(),
                groups == self.step_groups@,
                Seq::new(seen@.len(), |i: int| seen@[i]@) == distinct_texts(all_source_dois(groups.take(g as int))),
            decreases groups.len() - g,
        {
            let group = &self.step_groups[g];
            let ghost base = all_source_dois(groups.take(g as int));
            let ghost dois = Seq::new(group.source_dois@.len(), |i: int| group.source_dois@[i]@);
            assert(groups.take(g + 1).drop_last() =~= groups.take(g as int));
            assert(groups.take(g + 1).last() == *group);
            assert(all_source_dois(groups.take(g + 1)) == base + dois);
            let mut k: usize = 0;
            assert(base + dois.take(0) =~= base);
            while k < group.source_dois.len()
                invariant
                    k <= dois.len(),
                    dois == Seq::new(group.source_dois@.len(), |i: int| group.source_dois@[i]@),
                    Seq::new(seen@.len(), |i: int| seen@[i]@) == distinct_texts(base + dois.take(k as int)),
                decreases dois.len() - k,
            {
                let doi = &group.source_dois[k];
                let ghost before = Seq::new(seen@.len(), |i: int| seen@[i]@);
                assert((base + dois.take(k + 1)).drop_last() =~= base + dois.take(k as int));
                assert((base + dois.take(k + 1)).last() == doi@);
                if !holds_text(&seen, doi) {
                    seen.push(doi.clone());
                    assert(Seq::new(seen@.len(), |i: int| seen@[i]@) =~= before.push(doi@));
                }
                k = k + 1;
            }
            assert(dois.take(dois.len() as int) =~= dois);
            g = g + 1;
        }
        assert(groups.take(groups.len() as int) =~= groups);
        seen.len()
    }

    /// Whether any step group reports a conflict in temperature, duration
    /// or atmosphere.
    pub fn has_any_conflict(&self) -> (r: bool)
        ensures
            r == any_conflict(self.step_groups@),
    {
        let mut g: usize = 0;
        while g < self.step_groups.len()
            invariant
                g <= self.step_groups@.len(),
                forall|i: int|
                    0 <= i < g ==> !(is_conflict(#[trigger] self.step_groups@[i].temperature) || is_conflict(
                        self.step_groups@[i].duration,
                    ) || is_conflict(self.step_groups@[i].atmosphere)),
            decreases self.step_groups@.len() - g,
        {
            let group = &self.step_groups[g];
            let conflict = match &group.temperature {
                CrossDoiFieldStatus::Conflict { .. } => true,
                _ => false,
            } || match &group.duration {
                CrossDoiFieldStatus::Conflict { .. } => true,
                _ => false,
            } || match &group.atmosphere {
                CrossDoiFieldStatus::Conflict { .. } => true,
                _ => false,
            };
            if conflict {
                return true;
            }
            g = g + 1;
        }
        false
    }
}

/// A route's literature evidence with the limitations it carries.
#[derive(Debug, Clone, PartialEq, Eq)]
pub struct LiteratureRouteEvidence {
    pub assessment: RouteObservationAssessment,
    pub limitations: Vec<String>,
}

/// The limitation every corpus-derived assessment carries: base rates only.
pub const BASE_RATES_ONLY: &'static str = "population-level base rates only -- Phase 20D's manual audit (58 DOIs) found this corpus cannot certify any individual observation as correct; this is reference-only evidence, never auto-applied to process conditions or score";

/// The limitation every corpus-derived assessment carries: identities
/// mostly unaudited.
pub const IDENTITY_UNAUDITED: &'static str = "identity-audit status is unknown for the vast majority of DOIs in this corpus -- only 58 of 6,370+ DOIs were manually verified against original papers, and 3 confirmed identity-level errors were found among them";

/// The limitation every corpus-derived assessment carries: free-text
/// atmospheres never count.
pub const FREE_TEXT_ATMOSPHERE: &'static str = "atmosphere agreement/conflict, when present, excludes free-text values -- most raw atmosphere data in this corpus is unstructured and never contributes to a verdict";

/// The limitation of a route reported with different numbers of heating
/// steps.
pub const MULTIPLE_SHAPES: &'static str = "independent literature reports for this exact route describe different numbers of heating steps -- any single operation shape's agreement/conflict reflects only one of several reported process structures for this route, not a single settled procedure";

/// The limitation of a route with a reported disagreement.
pub const REAL_DISAGREEMENT: &'static str = "at least one field shows independent DOIs reporting different values at the same route and operation position -- disclosed as a real disagreement, never resolved or averaged";

/// The limitations of an assessment: the three that always apply, then
/// the one for several operation shapes and the one for a conflict, when
/// they apply.
pub open spec fn limitations_of(a: RouteObservationAssessment) -> Seq<Seq<char>> {
    let base = seq![BASE_RATES_ONLY@, IDENTITY_UNAUDITED@, FREE_TEXT_ATMOSPHERE@];
    let shaped = if a.has_multiple_operation_shapes {
        base.push(MULTIPLE_SHAPES@)
    } else {
        base
    };
    if any_conflict(a.step_groups@) {
        shaped.push(REAL_DISAGREEMENT@)
    } else {
        shaped
    }
}

/// A route assessment reports a conflict exactly when some step group's
/// temperature, duration or atmosphere status is a conflict. Its
/// limitations are then the three general ones, the one for several
/// operation shapes when that applies, and last the real-disagreement
/// disclosure; without a conflict that disclosure is left out.
pub proof fn lemma_conflict_disclosed(a: RouteObservationAssessment)
    ensures
        any_conflict(a.step_groups@) <==> exists|i: int|
            0 <= i < a.step_groups@.len() && ((#[trigger] a.step_groups@[i]).temperature is Conflict
                || a.step_groups@[i].duration is Conflict || a.step_groups@[i].atmosphere is Conflict),
        (exists|i: int|
            0 <= i < a.step_groups@.len() && ((#[trigger] a.step_groups@[i]).temperature is Conflict
                || a.step_groups@[i].duration is Conflict || a.step_groups@[i].atmosphere is Conflict))
            ==> limitations_of(a).len() == (if a.has_multiple_operation_shapes {
            5int
        } else {
            4int
        }) && limitations_of(a).last() == REAL_DISAGREEMENT@,
        !(exists|i: int|
            0 <= i < a.step_groups@.len() && ((#[trigger] a.step_groups@[i]).temperature is Conflict
                || a.step_groups@[i].duration is Conflict || a.step_groups@[i].atmosphere is Conflict))
            ==> limitations_of(a).len() == (if a.has_multiple_operation_shapes {
            4int
        } else {
            3int
        }),
{
}

/// The limitations of an assessment, as [`limitations_of`] lists them.
pub fn literature_evidence_limitations(assessment: &RouteObservationAssessment) -> (r: Vec<String>)
    ensures
        Seq::new(r@.len(), |i: int| r@[i]@) == limitations_of(*assessment),
{
    let mut limitations: Vec<String> = Vec::new();
    limitations.push(String::from_str(BASE_RATES_ONLY));
    limitations.push(String::from_str(IDENTITY_UNAUDITED));
    limitations.push(String::from_str(FREE_TEXT_ATMOSPHERE));
    if assessment.has_multiple_operation_shapes {
        limitations.push(String::from_str(MULTIPLE_SHAPES));
    }
    if assessment.has_any_conflict() {
        limitations.push(String::from_str(REAL_DISAGREEMENT));
    }
    assert(Seq::new(limitations@.len(), |i: int| limitations@[i]@) =~= limitations_of(*assessment));
    limitations
}

} // verus!
