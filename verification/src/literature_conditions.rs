//! A small, hand-checked table of cited firing conditions for a few
//! routes: each record names its target, its precursors and, per heating
//! purpose, the conditions one paper reports, with that paper's DOI.

use crate::composition::{pairs_map, Composition, Element};
use crate::condition_precedents::ConditionPrecedent;
use crate::evidence::{EvidenceKind, EvidenceScope, EvidenceStrength};
use crate::frac::Frac;
use crate::precursor::PrecursorId;
use crate::process::{Atmosphere, DurationRange, HeatingPurpose, TemperatureRange};
use vstd::prelude::*;
use vstd::string::StringExecFns;

verus! {

/// One literature record: the route it applies to and the conditions it
/// reports, each with its own citation.
#[derive(Debug, Clone, PartialEq, Eq)]
pub struct CuratedConditionRecord {
    pub target: Composition,
    pub precursor_ids: Vec<PrecursorId>,
    pub conditions: Vec<ConditionPrecedent>,
}

/// The elements of a listing of pairs are exactly those it names.
proof fn lemma_pairs_map_dom(s: Seq<(Element, Frac)>)
    ensures
        forall|e: Element| #[trigger] pairs_map(s).contains_key(e) <==> exists|i: int| 0 <= i < s.len() && s[i].0 == e,
    decreases s.len(),
{
    if s.len() > 0 {
        lemma_pairs_map_dom(s.drop_last());
        assert forall|e: Element| #[trigger] pairs_map(s).contains_key(e) <==> exists|i: int|
            0 <= i < s.len() && s[i].0 == e by {
            if pairs_map(s.drop_last()).contains_key(e) {
                let i = choose|i: int| 0 <= i < s.drop_last().len() && s.drop_last()[i].0 == e;
                assert(s[i].0 == e);
            }
            if exists|i: int| 0 <= i < s.len() && s[i].0 == e {
                let i = choose|i: int| 0 <= i < s.len() && s[i].0 == e;
                if i < s.len() - 1 {
                    assert(s.drop_last()[i].0 == e);
                }
            }
        }
    }
}

/// In a listing naming each element once, the map holds each pair's amount.
proof fn lemma_pairs_map_value(s: Seq<(Element, Frac)>, i: int)
    requires
        0 <= i < s.len(),
        forall|j: int| 0 <= j < s.len() && j != i ==> s[j].0 != s[i].0,
    ensures
        pairs_map(s).contains_key(s[i].0),
        pairs_map(s)[s[i].0] == s[i].1,
    decreases s.len(),
{
    if i < s.len() - 1 {
        lemma_pairs_map_value(s.drop_last(), i);
        assert(s.last().0 != s[i].0);
    }
}

/// The pairs `vs`, naming the elements at `idx` with amounts `amt`, map
/// exactly as [`map_is`] says.
proof fn lemma_table_map(vs: Seq<(Element, Frac)>, idx: Seq<u8>, amt: Seq<i128>)
    requires
        vs.len() == idx.len(),
        idx.len() == amt.len(),
        forall|k: int| 0 <= k < vs.len() ==> (#[trigger] vs[k]).0.index() == idx[k] && vs[k].1@ == (amt[k] as int, 1int),
        forall|i: int, j: int| 0 <= i < j < idx.len() ==> idx[i] != idx[j],
    ensures
        map_is(pairs_map(vs), idx, amt),
{
    lemma_pairs_map_dom(vs);
    let m = pairs_map(vs);
    assert forall|e: Element| #[trigger] m.contains_key(e) implies exists|i: int| 0 <= i < idx.len() && idx[i] == e.index() by {
        let i = choose|i: int| 0 <= i < vs.len() && vs[i].0 == e;
        assert(idx[i] == e.index());
    }
    assert forall|i: int| 0 <= i < idx.len() implies exists|e: Element| e.index() == #[trigger] idx[i] && m.contains_key(e)
        && m[e]@ == (amt[i] as int, 1int) by {
        assert forall|j: int| 0 <= j < vs.len() && j != i implies vs[j].0 != vs[i].0 by {
            if vs[j].0 == vs[i].0 {
                assert(idx[j] == idx[i]);
            }
        }
        lemma_pairs_map_value(vs, i);
        assert(vs[i].0.index() == idx[i]);
    }
}

/// The composition with `amounts[i]` of the element at table position
/// `indices[i]`: exactly those elements.
fn table_composition(indices: &[u8], amounts: &[i128]) -> (r: Composition)
    requires
        indices@.len() == amounts@.len(),
        indices@.len() > 0,
        forall|i: int| 0 <= i < indices@.len() ==> #[trigger] indices@[i] < 118,
        forall|i: int| 0 <= i < amounts@.len() ==> #[trigger] amounts@[i] > 0,
        forall|i: int, j: int| 0 <= i < j < indices@.len() ==> indices@[i] != indices@[j],
    ensures
        r.wf(),
        target_is(r, indices@, amounts@),
{
    let mut v: Vec<(Element, Frac)> = Vec::new();
    let mut i: usize = 0;
    while i < indices.len()
        invariant
            i <= indices@.len(),
            indices@.len() == amounts@.len(),
            forall|k: int| 0 <= k < indices@.len() ==> #[trigger] indices@[k] < 118,
            forall|k: int| 0 <= k < amounts@.len() ==> #[trigger] amounts@[k] > 0,
            v@.len() == i,
            forall|k: int|
                0 <= k < i ==> (#[trigger] v@[k]).0.index() == indices@[k] && v@[k].1.wf()
                    && v@[k].1@ == (amounts@[k] as int, 1int),
        decreases indices@.len() - i,
    {
        let e = Element::from_index(indices[i]);
        let f = match Frac::new(amounts[i], 1) {
            Ok(f) => f,
            Err(_) => vstd::pervasive::unreached(),
        };
        proof {
            crate::frac::lemma_reduce_whole(amounts@[i as int] as int);
        }
        v.push((e, f));
        i = i + 1;
    }
    let ghost vs = v@;
    proof {
        lemma_table_map(vs, indices@, amounts@);
        reveal(target_is);
    }
    match Composition::new(v) {
        Ok(c) => c,
        Err(_) => vstd::pervasive::unreached(),
    }
}

/// A whole-number range as a temperature range.
fn celsius(lo: i128, hi: i128) -> (r: TemperatureRange)
    requires
        0 < lo <= hi,
    ensures
        r.lo() == (lo as int, 1int) && r.hi() == (hi as int, 1int),
{
    let a = match Frac::new(lo, 1) {
        Ok(f) => f,
        Err(_) => vstd::pervasive::unreached(),
    };
    let b = match Frac::new(hi, 1) {
        Ok(f) => f,
        Err(_) => vstd::pervasive::unreached(),
    };
    proof {
        crate::frac::lemma_reduce_whole(lo as int);
        crate::frac::lemma_reduce_whole(hi as int);
    }
    match TemperatureRange::new(a, b) {
        Ok(t) => t,
        Err(_) => vstd::pervasive::unreached(),
    }
}

/// A whole-number range as a duration range.
fn hours(lo: i128, hi: i128) -> (r: DurationRange)
    requires
        0 < lo <= hi,
    ensures
        r.lo() == (lo as int, 1int) && r.hi() == (hi as int, 1int),
{
    let a = match Frac::new(lo, 1) {
        Ok(f) => f,
        Err(_) => vstd::pervasive::unreached(),
    };
    let b = match Frac::new(hi, 1) {
        Ok(f) => f,
        Err(_) => vstd::pervasive::unreached(),
    };
    proof {
        crate::frac::lemma_reduce_whole(lo as int);
        crate::frac::lemma_reduce_whole(hi as int);
    }
    match DurationRange::new(a, b) {
        Ok(t) => t,
        Err(_) => vstd::pervasive::unreached(),
    }
}

/// The precursor identifiers of a record, as texts.
pub open spec fn id_texts(ids: Seq<PrecursorId>) -> Seq<Seq<char>> {
    ids.map_values(|p: PrecursorId| p.0@)
}

/// What identifies condition `k` of record `r`: its target, its precursor
/// identifiers and the heating purpose.
pub open spec fn condition_key(r: CuratedConditionRecord, k: int) -> (Map<Element, Frac>, Seq<Seq<char>>, HeatingPurpose) {
    (r.target@, id_texts(r.precursor_ids@), r.conditions@[k].purpose)
}

/// Every record cites a literature paper for each of its conditions, for
/// its exact target.
pub open spec fn cited_record(r: CuratedConditionRecord) -> bool {
    &&& r.target.wf()
    &&& r.conditions@.len() > 0
    &&& forall|k: int|
        0 <= k < r.conditions@.len() ==> (#[trigger] r.conditions@[k]).evidence_kind == EvidenceKind::CuratedLiteratureRecord
            && r.conditions@[k].applicable_to == EvidenceScope::ExactTarget && r.conditions@[k].source_id is Some
}

/// Composition `c` holds exactly the elements at table positions `idx`,
/// `amt[i]` of the one at `idx[i]`.
#[verifier::opaque]
pub open spec fn target_is(c: Composition, idx: Seq<u8>, amt: Seq<i128>) -> bool {
    map_is(c@, idx, amt)
}

/// Map `m` holds exactly the elements at table positions `idx`, `amt[i]`
/// of the one at `idx[i]`.
pub open spec fn map_is(m: Map<Element, Frac>, idx: Seq<u8>, amt: Seq<i128>) -> bool {
    &&& forall|e: Element| #[trigger] m.contains_key(e) ==> exists|i: int| 0 <= i < idx.len() && idx[i] == e.index()
    &&& forall|i: int|
        0 <= i < idx.len() ==> exists|e: Element| e.index() == #[trigger] idx[i] && m.contains_key(e) && m[e]@ == (
            amt[i] as int,
            1int,
        )
}

/// Condition `c` is a curated literature condition for `purpose` at
/// temperature `t` (degrees Celsius, whole numbers), duration `d` (hours,
/// when reported), in air when `air`, with the given strength, DOI and
/// statement, for the exact target.
pub open spec fn condition_is(
    c: ConditionPrecedent,
    purpose: HeatingPurpose,
    t: (int, int),
    d: Option<(int, int)>,
    air: bool,
    strength: EvidenceStrength,
    doi: Seq<char>,
    statement: Seq<char>,
) -> bool {
    &&& c.purpose == purpose
    &&& c.temperature matches Some(x) && x.lo() == (t.0, 1int) && x.hi() == (t.1, 1int)
    &&& match d {
        Some(h) => c.duration matches Some(y) && y.lo() == (h.0, 1int) && y.hi() == (h.1, 1int),
        None => c.duration is None,
    }
    &&& (if air { c.atmosphere == Some(Atmosphere::Air) } else { c.atmosphere is None })
    &&& c.ramp is None
    &&& c.evidence_kind == EvidenceKind::CuratedLiteratureRecord
    &&& c.strength == strength
    &&& c.applicable_to == EvidenceScope::ExactTarget
    &&& c.source_id matches Some(src) && src@ == doi
    &&& c.statement@ == statement
}

/// Composition `c` holds the element at table position `m`.
pub open spec fn holds_index(c: Composition, m: u8) -> bool {
    exists|e: Element| e.index() == m && #[trigger] c@.contains_key(e)
}

/// Composition `c` holds no element at table position `m`.
pub open spec fn lacks_index(c: Composition, m: u8) -> bool {
    forall|e: Element| #[trigger] c@.contains_key(e) ==> e.index() != m
}

/// A target given by table positions, whose first position is the marker of
/// record `b` and which names no other record's marker, holds its own marker
/// and lacks every other.
proof fn lemma_marker_facts(c: Composition, idx: Seq<u8>, amt: Seq<i128>, b: int)
    requires
        target_is(c, idx, amt),
        idx.len() > 0,
        idx[0] == marker(b),
        forall|a: int, i: int| 0 <= a < 5 && a != b && 0 <= i < idx.len() ==> #[trigger] idx[i] != #[trigger] marker(a),
    ensures
        holds_index(c, marker(b)),
        forall|a: int| 0 <= a < 5 && a != b ==> lacks_index(c, #[trigger] marker(a)),
{
    reveal(target_is);
    assert(idx[0] == idx[0]);
    assert forall|a: int| 0 <= a < 5 && a != b implies lacks_index(c, #[trigger] marker(a)) by {
        assert forall|e: Element| #[trigger] c@.contains_key(e) implies e.index() != marker(a) by {
            let i = choose|i: int| 0 <= i < idx.len() && idx[i] == e.index();
            assert(idx[i] != marker(a));
        }
    }
}

/// An element only the target of record `a` holds.
spec fn marker(a: int) -> u8 {
    if a == 0 {
        59
    } else if a == 1 {
        16
    } else if a == 2 {
        52
    } else if a == 3 {
        116
    } else {
        9
    }
}

/// Records whose targets each hold an element no other target holds, and
/// whose conditions within a record differ in purpose, have pairwise
/// different condition keys.
proof fn lemma_distinct_keys(s: Seq<CuratedConditionRecord>)
    requires
        s.len() == 5,
        forall|a: int| 0 <= a < 5 ==> holds_index((#[trigger] s[a]).target, marker(a)),
        forall|a: int, b: int| 0 <= a < 5 && 0 <= b < 5 && a != b ==> lacks_index((#[trigger] s[b]).target, #[trigger] marker(a)),
        forall|a: int, ka: int, kb: int|
            0 <= a < 5 && 0 <= ka < kb < s[a].conditions@.len() ==> (#[trigger] s[a].conditions@[ka]).purpose
        != (#[trigger] s[a].conditions@[kb]).purpose,
    ensures
        forall|a: int, ka: int, b: int, kb: int|
            0 <= a < s.len() && 0 <= b < s.len() && 0 <= ka < s[a].conditions@.len() && 0 <= kb
        < s[b].conditions@.len() && (a != b || ka != kb) ==> #[trigger] condition_key(s[a], ka)
        != #[trigger] condition_key(s[b], kb),
{
    assert forall|a: int, ka: int, b: int, kb: int|
        0 <= a < s.len() && 0 <= b < s.len() && 0 <= ka < s[a].conditions@.len() && 0 <= kb
            < s[b].conditions@.len() && (a != b || ka != kb) implies #[trigger] condition_key(s[a], ka)
            != #[trigger] condition_key(s[b], kb) by {
        if a != b {
            assert(holds_index(s[a].target, marker(a)));
            assert(lacks_index(s[b].target, marker(a)));
            let e = choose|e: Element| e.index() == marker(a) && #[trigger] s[a].target@.contains_key(e);
            if condition_key(s[a], ka) == condition_key(s[b], kb) {
                assert(s[b].target@.contains_key(e));
            }
        } else if ka < kb {
            assert(s[a].conditions@[ka].purpose != s[a].conditions@[kb].purpose);
        } else {
            assert(s[a].conditions@[kb].purpose != s[a].conditions@[ka].purpose);
        }
    }
}

/// The five listed records have pairwise different condition keys.
proof fn lemma_table_keys(s: Seq<CuratedConditionRecord>)
    requires
        s.len() == 5,
        target_is(s[0].target, seq![59u8, 2u8, 72u8], seq![1i128, 2i128, 4i128]),
        target_is(s[1].target, seq![16u8, 72u8], seq![1i128, 1i128]),
        target_is(s[2].target, seq![52u8, 2u8, 72u8], seq![1i128, 1i128, 3i128]),
        target_is(s[3].target, seq![116u8, 75u8, 72u8], seq![3i128, 2i128, 8i128]),
        target_is(s[4].target, seq![9u8, 106u8, 72u8], seq![1i128, 1i128, 3i128]),
        s[0].conditions@.len() == 1,
        s[1].conditions@.len() == 1,
        s[2].conditions@.len() == 1,
        s[3].conditions@.len() == 2,
        s[3].conditions@[0].purpose != s[3].conditions@[1].purpose,
        s[4].conditions@.len() == 2,
        s[4].conditions@[0].purpose != s[4].conditions@[1].purpose,
    ensures
        forall|a: int, ka: int, b: int, kb: int|
            0 <= a < s.len() && 0 <= b < s.len() && 0 <= ka < s[a].conditions@.len() && 0 <= kb
        < s[b].conditions@.len() && (a != b || ka != kb) ==> #[trigger] condition_key(s[a], ka)
        != #[trigger] condition_key(s[b], kb),
{
    lemma_marker_facts(s[0].target, seq![59u8, 2u8, 72u8], seq![1i128, 2i128, 4i128], 0);
    lemma_marker_facts(s[1].target, seq![16u8, 72u8], seq![1i128, 1i128], 1);
    lemma_marker_facts(s[2].target, seq![52u8, 2u8, 72u8], seq![1i128, 1i128, 3i128], 2);
    lemma_marker_facts(s[3].target, seq![116u8, 75u8, 72u8], seq![3i128, 2i128, 8i128], 3);
    lemma_marker_facts(s[4].target, seq![9u8, 106u8, 72u8], seq![1i128, 1i128, 3i128], 4);
    assert forall|a: int| 0 <= a < 5 implies holds_index((#[trigger] s[a]).target, marker(a)) by {
        if a == 0 {} else if a == 1 {} else if a == 2 {} else if a == 3 {} else {}
    }
    assert forall|a: int, b: int| 0 <= a < 5 && 0 <= b < 5 && a != b implies lacks_index(
        (#[trigger] s[b]).target,
        #[trigger] marker(a),
    ) by {
        if b == 0 {} else if b == 1 {} else if b == 2 {} else if b == 3 {} else {}
    }
    assert forall|a: int, ka: int, kb: int|
        0 <= a < 5 && 0 <= ka < kb < s[a].conditions@.len() implies (#[trigger] s[a].conditions@[ka]).purpose
        != (#[trigger] s[a].conditions@[kb]).purpose by {
        if a == 3 {} else if a == 4 {}
    }
    lemma_distinct_keys(s);
}

/// The record for MgAl2O4 from MgO and Al2O3, as listed.
#[verifier::opaque]
pub open spec fn spinel_record(r: CuratedConditionRecord) -> bool {
    &&& r.conditions@.len() == 1
    &&& id_texts(r.precursor_ids@) == seq!["MgO"@, "Al2O3"@]
    &&& condition_is(
        r.conditions@[0],
        HeatingPurpose::Sintering,
        (1725int, 1725int),
        Some((6int, 6int)),
        false,
        EvidenceStrength::Moderate,
        "10.1007/s11663-014-0207-8"@,
        "MgAl2O4 spinel reaction-sintered from MgO + Al2O3: pressed and sintered at 1600 C for 24 h, crushed, then re-sintered at 1725 C for 6 h (this record uses the second, completing stage; the first stage's 1600 C/24 h is not separately represented since this route's template has only one Heat step)"@,
    )
    &&& target_is(r.target, seq![59u8, 2u8, 72u8], seq![1i128, 2i128, 4i128])
}

/// The record for MgAl2O4 from MgO and Al2O3.
fn record_spinel() -> (r: CuratedConditionRecord)
    ensures
        r.target.wf(),
        target_is(r.target, seq![59u8, 2u8, 72u8], seq![1i128, 2i128, 4i128]),
        r.conditions@.len() == 1,
        r.conditions@[0].purpose == HeatingPurpose::Sintering,
        cited_record(r),
        spinel_record(r),
{
    let target = table_composition(&[59u8, 2u8, 72u8], &[1i128, 2i128, 4i128]);
    let mut ids: Vec<PrecursorId> = Vec::new();
    ids.push(PrecursorId(String::from_str("MgO")));
    ids.push(PrecursorId(String::from_str("Al2O3")));
    let mut conditions: Vec<ConditionPrecedent> = Vec::new();
    conditions.push(
        ConditionPrecedent {
            purpose: HeatingPurpose::Sintering,
            temperature: Some(celsius(1725, 1725)),
            duration: Some(hours(6, 6)),
            atmosphere: None,
            ramp: None,
            evidence_kind: EvidenceKind::CuratedLiteratureRecord,
            source_id: Some(String::from_str("10.1007/s11663-014-0207-8")),
            statement: String::from_str("MgAl2O4 spinel reaction-sintered from MgO + Al2O3: pressed and sintered at 1600 C for 24 h, crushed, then re-sintered at 1725 C for 6 h (this record uses the second, completing stage; the first stage's 1600 C/24 h is not separately represented since this route's template has only one Heat step)"),
            strength: EvidenceStrength::Moderate,
            applicable_to: EvidenceScope::ExactTarget,
        },
    );
    let r = CuratedConditionRecord { target, precursor_ids: ids, conditions };
    assert(id_texts(r.precursor_ids@) =~= seq!["MgO"@, "Al2O3"@]);
    proof {
        reveal(spinel_record);
    }
    r
}

/// The record for CaO from CaCO3, as listed.
#[verifier::opaque]
pub open spec fn lime_record(r: CuratedConditionRecord) -> bool {
    &&& r.conditions@.len() == 1
    &&& id_texts(r.precursor_ids@) == seq!["CaCO3"@]
    &&& condition_is(
        r.conditions@[0],
        HeatingPurpose::Calcination,
        (900int, 900int),
        Some((1int, 1int)),
        false,
        EvidenceStrength::Strong,
        "10.3390/ma17153875"@,
        "CaCO3 calcined to CaO + CO2 at 900 C for 1 h"@,
    )
    &&& target_is(r.target, seq![16u8, 72u8], seq![1i128, 1i128])
}

/// The record for CaO from CaCO3.
fn record_lime() -> (r: CuratedConditionRecord)
    ensures
        r.target.wf(),
        target_is(r.target, seq![16u8, 72u8], seq![1i128, 1i128]),
        r.conditions@.len() == 1,
        r.conditions@[0].purpose == HeatingPurpose::Calcination,
        cited_record(r),
        lime_record(r),
{
    let target = table_composition(&[16u8, 72u8], &[1i128, 1i128]);
    let mut ids: Vec<PrecursorId> = Vec::new();
    ids.push(PrecursorId(String::from_str("CaCO3")));
    let mut conditions: Vec<ConditionPrecedent> = Vec::new();
    conditions.push(
        ConditionPrecedent {
            purpose: HeatingPurpose::Calcination,
            temperature: Some(celsius(900, 900)),
            duration: Some(hours(1, 1)),
            atmosphere: None,
            ramp: None,
            evidence_kind: EvidenceKind::CuratedLiteratureRecord,
            source_id: Some(String::from_str("10.3390/ma17153875")),
            statement: String::from_str("CaCO3 calcined to CaO + CO2 at 900 C for 1 h"),
            strength: EvidenceStrength::Strong,
            applicable_to: EvidenceScope::ExactTarget,
        },
    );
    let r = CuratedConditionRecord { target, precursor_ids: ids, conditions };
    assert(id_texts(r.precursor_ids@) =~= seq!["CaCO3"@]);
    proof {
        reveal(lime_record);
    }
    r
}

/// The record for LaAlO3 from La2O3 and Al2O3, as listed.
#[verifier::opaque]
pub open spec fn aluminate_record(r: CuratedConditionRecord) -> bool {
    &&& r.conditions@.len() == 1
    &&& id_texts(r.precursor_ids@) == seq!["La2O3"@, "Al2O3"@]
    &&& condition_is(
        r.conditions@[0],
        HeatingPurpose::Sintering,
        (1500int, 1500int),
        Some((5int, 5int)),
        false,
        EvidenceStrength::Moderate,
        "10.1039/d3ra03241h"@,
        "LaAlO3 solid-state reaction from La2O3 + Al2O3 (undoped x=0,y=0 sample), sintered at 1500 C for 5 h in a muffle furnace"@,
    )
    &&& target_is(r.target, seq![52u8, 2u8, 72u8], seq![1i128, 1i128, 3i128])
}

/// The record for LaAlO3 from La2O3 and Al2O3.
fn record_aluminate() -> (r: CuratedConditionRecord)
    ensures
        r.target.wf(),
        target_is(r.target, seq![52u8, 2u8, 72u8], seq![1i128, 1i128, 3i128]),
        r.conditions@.len() == 1,
        r.conditions@[0].purpose == HeatingPurpose::Sintering,
        cited_record(r),
        aluminate_record(r),
{
    let target = table_composition(&[52u8, 2u8, 72u8], &[1i128, 1i128, 3i128]);
    let mut ids: Vec<PrecursorId> = Vec::new();
    ids.push(PrecursorId(String::from_str("La2O3")));
    ids.push(PrecursorId(String::from_str("Al2O3")));
    let mut conditions: Vec<ConditionPrecedent> = Vec::new();
    conditions.push(
        ConditionPrecedent {
            purpose: HeatingPurpose::Sintering,
            temperature: Some(celsius(1500, 1500)),
            duration: Some(hours(5, 5)),
            atmosphere: None,
            ramp: None,
            evidence_kind: EvidenceKind::CuratedLiteratureRecord,
            source_id: Some(String::from_str("10.1039/d3ra03241h")),
            statement: String::from_str("LaAlO3 solid-state reaction from La2O3 + Al2O3 (undoped x=0,y=0 sample), sintered at 1500 C for 5 h in a muffle furnace"),
            strength: EvidenceStrength::Moderate,
            applicable_to: EvidenceScope::ExactTarget,
        },
    );
    let r = CuratedConditionRecord { target, precursor_ids: ids, conditions };
    assert(id_texts(r.precursor_ids@) =~= seq!["La2O3"@, "Al2O3"@]);
    proof {
        reveal(aluminate_record);
    }
    r
}

/// The record for Zn3(PO4)2 from ZnO and (NH4)2HPO4, as listed.
#[verifier::opaque]
pub open spec fn phosphate_record(r: CuratedConditionRecord) -> bool {
    &&& r.conditions@.len() == 2
    &&& id_texts(r.precursor_ids@) == seq!["ZnO"@, "(NH4)2HPO4"@]
    &&& condition_is(
        r.conditions@[0],
        HeatingPurpose::Calcination,
        (500int, 500int),
        Some((3int, 3int)),
        true,
        EvidenceStrength::Weak,
        "10.3390/engproc2024067018"@,
        "Zn3(PO4)2 from ZnO + (NH4)2HPO4 (undoped x=0 host), fired at 500 C for 3 h in air; source is a short conference-proceedings paper with an internally inconsistent reported space group -- weighed accordingly"@,
    )
    &&& condition_is(
        r.conditions@[1],
        HeatingPurpose::Sintering,
        (950int, 950int),
        Some((5int, 5int)),
        true,
        EvidenceStrength::Weak,
        "10.3390/engproc2024067018"@,
        "Zn3(PO4)2 from ZnO + (NH4)2HPO4 (undoped x=0 host), reground and sintered at 950 C for 5 h in air; source is a short conference-proceedings paper with an internally inconsistent reported space group -- weighed accordingly"@,
    )
    &&& target_is(r.target, seq![116u8, 75u8, 72u8], seq![3i128, 2i128, 8i128])
}

/// The record for Zn3(PO4)2 from ZnO and (NH4)2HPO4.
fn record_phosphate() -> (r: CuratedConditionRecord)
    ensures
        r.target.wf(),
        target_is(r.target, seq![116u8, 75u8, 72u8], seq![3i128, 2i128, 8i128]),
        r.conditions@.len() == 2,
        r.conditions@[0].purpose == HeatingPurpose::Calcination,
        r.conditions@[1].purpose == HeatingPurpose::Sintering,
        cited_record(r),
        phosphate_record(r),
{
    let target = table_composition(&[116u8, 75u8, 72u8], &[3i128, 2i128, 8i128]);
    let mut ids: Vec<PrecursorId> = Vec::new();
    ids.push(PrecursorId(String::from_str("ZnO")));
    ids.push(PrecursorId(String::from_str("(NH4)2HPO4")));
    let mut conditions: Vec<ConditionPrecedent> = Vec::new();
    conditions.push(
        ConditionPrecedent {
            purpose: HeatingPurpose::Calcination,
            temperature: Some(celsius(500, 500)),
            duration: Some(hours(3, 3)),
            atmosphere: Some(Atmosphere::Air),
            ramp: None,
            evidence_kind: EvidenceKind::CuratedLiteratureRecord,
            source_id: Some(String::from_str("10.3390/engproc2024067018")),
            statement: String::from_str("Zn3(PO4)2 from ZnO + (NH4)2HPO4 (undoped x=0 host), fired at 500 C for 3 h in air; source is a short conference-proceedings paper with an internally inconsistent reported space group -- weighed accordingly"),
            strength: EvidenceStrength::Weak,
            applicable_to: EvidenceScope::ExactTarget,
        },
    );
    conditions.push(
        ConditionPrecedent {
            purpose: HeatingPurpose::Sintering,
            temperature: Some(celsius(950, 950)),
            duration: Some(hours(5, 5)),
            atmosphere: Some(Atmosphere::Air),
            ramp: None,
            evidence_kind: EvidenceKind::CuratedLiteratureRecord,
            source_id: Some(String::from_str("10.3390/engproc2024067018")),
            statement: String::from_str("Zn3(PO4)2 from ZnO + (NH4)2HPO4 (undoped x=0 host), reground and sintered at 950 C for 5 h in air; source is a short conference-proceedings paper with an internally inconsistent reported space group -- weighed accordingly"),
            strength: EvidenceStrength::Weak,
            applicable_to: EvidenceScope::ExactTarget,
        },
    );
    let r = CuratedConditionRecord { target, precursor_ids: ids, conditions };
    assert(id_texts(r.precursor_ids@) =~= seq!["ZnO"@, "(NH4)2HPO4"@]);
    proof {
        reveal(phosphate_record);
    }
    r
}

/// The record for BaTiO3 from BaCO3 and TiO2, as listed.
#[verifier::opaque]
pub open spec fn titanate_record(r: CuratedConditionRecord) -> bool {
    &&& r.conditions@.len() == 2
    &&& id_texts(r.precursor_ids@) == seq!["BaCO3"@, "TiO2"@]
    &&& condition_is(
        r.conditions@[0],
        HeatingPurpose::Calcination,
        (1000int, 1000int),
        Some((2int, 2int)),
        false,
        EvidenceStrength::Moderate,
        "10.3390/cryst14040304"@,
        "BaCO3 + TiO2 (1:1 molar) calcined at 1000 C for 2 h in a muffle furnace"@,
    )
    &&& condition_is(
        r.conditions@[1],
        HeatingPurpose::Sintering,
        (1200int, 1350int),
        None,
        false,
        EvidenceStrength::Moderate,
        "10.3390/cryst14040304"@,
        "reaction product pressed into ceramic sputtering targets and sintered at 1200-1350 C (two parallel samples of different target density; duration not stated in source)"@,
    )
    &&& target_is(r.target, seq![9u8, 106u8, 72u8], seq![1i128, 1i128, 3i128])
}

/// The record for BaTiO3 from BaCO3 and TiO2.
fn record_titanate() -> (r: CuratedConditionRecord)
    ensures
        r.target.wf(),
        target_is(r.target, seq![9u8, 106u8, 72u8], seq![1i128, 1i128, 3i128]),
        r.conditions@.len() == 2,
        r.conditions@[0].purpose == HeatingPurpose::Calcination,
        r.conditions@[1].purpose == HeatingPurpose::Sintering,
        cited_record(r),
        titanate_record(r),
{
    let target = table_composition(&[9u8, 106u8, 72u8], &[1i128, 1i128, 3i128]);
    let mut ids: Vec<PrecursorId> = Vec::new();
    ids.push(PrecursorId(String::from_str("BaCO3")));
    ids.push(PrecursorId(String::from_str("TiO2")));
    let mut conditions: Vec<ConditionPrecedent> = Vec::new();
    conditions.push(
        ConditionPrecedent {
            purpose: HeatingPurpose::Calcination,
            temperature: Some(celsius(1000, 1000)),
            duration: Some(hours(2, 2)),
            atmosphere: None,
            ramp: None,
            evidence_kind: EvidenceKind::CuratedLiteratureRecord,
            source_id: Some(String::from_str("10.3390/cryst14040304")),
            statement: String::from_str("BaCO3 + TiO2 (1:1 molar) calcined at 1000 C for 2 h in a muffle furnace"),
            strength: EvidenceStrength::Moderate,
            applicable_to: EvidenceScope::ExactTarget,
        },
    );
    conditions.push(
        ConditionPrecedent {
            purpose: HeatingPurpose::Sintering,
            temperature: Some(celsius(1200, 1350)),
            duration: None,
            atmosphere: None,
            ramp: None,
            evidence_kind: EvidenceKind::CuratedLiteratureRecord,
            source_id: Some(String::from_str("10.3390/cryst14040304")),
            statement: String::from_str("reaction product pressed into ceramic sputtering targets and sintered at 1200-1350 C (two parallel samples of different target density; duration not stated in source)"),
            strength: EvidenceStrength::Moderate,
            applicable_to: EvidenceScope::ExactTarget,
        },
    );
    let r = CuratedConditionRecord { target, precursor_ids: ids, conditions };
    assert(id_texts(r.precursor_ids@) =~= seq!["BaCO3"@, "TiO2"@]);
    proof {
        reveal(titanate_record);
    }
    r
}

/// The curated records: five routes (MgAl2O4, CaO, LaAlO3, Zn3(PO4)2,
/// BaTiO3) with seven cited conditions, exactly as listed. Every condition
/// cites its paper for the exact target, and no two conditions share a
/// target, a precursor list and a heating purpose.
pub fn curated_records() -> (r: Vec<CuratedConditionRecord>)
    ensures
        r@.len() == 5,
        forall|a: int| 0 <= a < r@.len() ==> cited_record(#[trigger] r@[a]),
        spinel_record(r@[0]),
        lime_record(r@[1]),
        aluminate_record(r@[2]),
        phosphate_record(r@[3]),
        titanate_record(r@[4]),
        forall|a: int, ka: int, b: int, kb: int|
            0 <= a < r@.len() && 0 <= b < r@.len() && 0 <= ka < r@[a].conditions@.len() && 0 <= kb
        < r@[b].conditions@.len() && (a != b || ka != kb) ==> #[trigger] condition_key(r@[a], ka)
        != #[trigger] condition_key(r@[b], kb),
{
    let r0 = record_spinel();
    let r1 = record_lime();
    let r2 = record_aluminate();
    let r3 = record_phosphate();
    let r4 = record_titanate();
    proof {
        lemma_table_keys(seq![r0, r1, r2, r3, r4]);
    }
    let mut out: Vec<CuratedConditionRecord> = Vec::new();
    out.push(r0);
    out.push(r1);
    out.push(r2);
    out.push(r3);
    out.push(r4);
    assert(out@ =~= seq![r0, r1, r2, r3, r4]);
    out
}

} // verus!
