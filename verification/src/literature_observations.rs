//! A deduplicated, deterministically ordered snapshot of literature
//! heating observations, queryable by exact target and precursor set.
//!
//! Every observation is identified by a content key: an integer sequence
//! that encodes every field but the corpus record index. Two observations
//! have the same key exactly when they report the same thing, so the
//! corpus keeps one observation per key, ordered by key.

use crate::commercial_catalog::ranking::opt_text_eq;
use crate::composition::{Composition, Element};
use crate::frac::Frac;
use crate::keyed::{
    key_lt, key_same, key_views, keys_sorted, lemma_insert_sorted, lemma_key_lt_asym, lemma_sorted_unique,
    locate_key,
};
use crate::error::ProviderError;
use crate::text::{append_decimal, chars_eq, chars_of, decimal};
use vstd::string::StringExecFns;
use crate::process::{Atmosphere, DurationRange, HeatingPurpose, RouteFamily, TemperatureRange};
use vstd::prelude::*;

verus! {

/// Where a corpus snapshot came from and what it holds.
#[derive(Debug, Clone, PartialEq, Eq)]
pub struct CorpusManifest {
    pub source: String,
    pub release: String,
    pub schema_version: String,
    pub checksum: String,
    pub record_count: usize,
}

#[derive(Debug, Clone, Copy, PartialEq, Eq)]
pub enum LoadMode {
    Strict,
    Lenient,
}

/// An observation the loader refused, by position, with the reason.
#[derive(Debug, Clone, PartialEq, Eq)]
pub struct RejectedObservation {
    pub position: usize,
    pub reason: String,
}

/// Counts of what a corpus load accepted, collapsed and rejected.
#[derive(Debug, Clone, PartialEq, Eq)]
pub struct LoadReport {
    pub accepted: usize,
    pub duplicates_collapsed: usize,
    pub rejected: Vec<RejectedObservation>,
}


/// The schema identifier a snapshot's manifest must carry.
pub const CORPUS_SNAPSHOT_SCHEMA_VERSION: &'static str = "gugen-literature-observation-snapshot-v1";

/// One reported heating operation: a target, the set of precursors used to
/// reach it, and the conditions the report gave, each `None` where it gave
/// none. `precursors` is held as a set: each composition once, in key
/// order. `corpus_record_index` is where in the source corpus the report
/// came from; it is provenance, not content.
#[derive(Debug, Clone, PartialEq)]
pub struct CorpusHeatingObservation {
    pub target: Composition,
    pub precursors: Vec<Composition>,
    pub route_family: RouteFamily,
    pub heating_purpose: Option<HeatingPurpose>,
    pub operation_index: usize,
    pub temperature: Option<TemperatureRange>,
    pub duration: Option<DurationRange>,
    pub atmosphere: Option<Atmosphere>,
    pub doi: Option<String>,
    pub corpus_record_index: usize,
}

/// The key value of a character.
pub open spec fn char_code(c: char) -> i128 {
    (c as u32) as i128
}

/// A text as a key piece: its character values, then `-1`.
pub open spec fn text_key(t: Seq<char>) -> Seq<i128> {
    t.map_values(|c: char| char_code(c)) + seq![-1i128]
}

/// A composition entry as three key values: element index, numerator,
/// denominator.
pub open spec fn entry_key(e: (Element, Frac)) -> Seq<i128> {
    seq![e.0.index() as i128, e.1@.0 as i128, e.1@.1 as i128]
}

/// The entries of a listing, in order.
pub open spec fn listing_code(l: Seq<(Element, Frac)>) -> Seq<i128>
    decreases l.len(),
{
    if l.len() == 0 {
        Seq::empty()
    } else {
        listing_code(l.drop_last()) + entry_key(l.last())
    }
}

/// A composition as a key piece: its entries, then `-1`.
pub open spec fn composition_key(c: Composition) -> Seq<i128> {
    listing_code(c.listing()) + seq![-1i128]
}

/// The key of each composition of a list.
pub open spec fn composition_keys(s: Seq<Composition>) -> Seq<Seq<i128>> {
    s.map_values(|c: Composition| composition_key(c))
}

/// Keys one after another, each preceded by `1`.
pub open spec fn key_list_code(s: Seq<Seq<i128>>) -> Seq<i128>
    decreases s.len(),
{
    if s.len() == 0 {
        Seq::empty()
    } else {
        key_list_code(s.drop_last()) + (seq![1i128] + s.last())
    }
}

/// A list of compositions as a key piece: their keys, then `0`.
pub open spec fn precursors_key(s: Seq<Composition>) -> Seq<i128> {
    key_list_code(composition_keys(s)) + seq![0i128]
}

/// An optional text as a key piece.
pub open spec fn doi_key(d: Option<String>) -> Seq<i128> {
    match d {
        None => seq![0i128],
        Some(t) => seq![1i128] + text_key(t@),
    }
}

/// Range bounds as a key piece.
pub open spec fn bounds_key(lo: (int, int), hi: (int, int)) -> Seq<i128> {
    seq![1i128, lo.0 as i128, lo.1 as i128, hi.0 as i128, hi.1 as i128]
}

/// An optional temperature range as a key piece.
pub open spec fn temperature_key(t: Option<TemperatureRange>) -> Seq<i128> {
    match t {
        None => seq![0i128],
        Some(x) => bounds_key(x.lo(), x.hi()),
    }
}

/// An optional duration range as a key piece.
pub open spec fn duration_key(t: Option<DurationRange>) -> Seq<i128> {
    match t {
        None => seq![0i128],
        Some(x) => bounds_key(x.lo(), x.hi()),
    }
}

/// An optional atmosphere as a key piece.
pub open spec fn atmosphere_key(a: Option<Atmosphere>) -> Seq<i128> {
    match a {
        None => seq![0i128],
        Some(Atmosphere::Air) => seq![1i128],
        Some(Atmosphere::Controlled { description }) => seq![2i128] + text_key(description@),
    }
}

/// The key value of a route family.
pub open spec fn route_code(r: RouteFamily) -> i128 {
    match r {
        RouteFamily::ConventionalSolidState => 0,
        RouteFamily::Mechanochemical => 1,
    }
}

/// The content key of an observation: every field but the corpus record
/// index and the heating purpose.
pub open spec fn observation_key(o: CorpusHeatingObservation) -> Seq<i128> {
    composition_key(o.target) + (precursors_key(o.precursors@) + (doi_key(o.doi) + (seq![
        o.operation_index as i128,
    ] + (temperature_key(o.temperature) + (duration_key(o.duration) + (atmosphere_key(
        o.atmosphere,
    ) + seq![route_code(o.route_family)]))))))
}

/// The listings of a list of compositions, as a set.
pub open spec fn listing_set(s: Seq<Composition>) -> Set<Seq<(Element, Frac)>> {
    Set::new(|l: Seq<(Element, Frac)>| exists|i: int| 0 <= i < s.len() && s[i].listing() == l)
}

/// Two optional atmospheres are the same.
pub open spec fn same_atmosphere(a: Option<Atmosphere>, b: Option<Atmosphere>) -> bool {
    match (a, b) {
        (None, None) => true,
        (Some(Atmosphere::Air), Some(Atmosphere::Air)) => true,
        (
            Some(Atmosphere::Controlled { description: x }),
            Some(Atmosphere::Controlled { description: y }),
        ) => x@ == y@,
        _ => false,
    }
}

/// Two observations report the same thing: they agree on every field but
/// the corpus record index (and the heating purpose, which no loaded
/// observation carries).
#[verifier::opaque]
pub open spec fn same_content(a: CorpusHeatingObservation, b: CorpusHeatingObservation) -> bool {
    &&& a.target.listing() == b.target.listing()
    &&& listing_set(a.precursors@) == listing_set(b.precursors@)
    &&& a.route_family == b.route_family
    &&& a.operation_index == b.operation_index
    &&& a.temperature == b.temperature
    &&& a.duration == b.duration
    &&& same_atmosphere(a.atmosphere, b.atmosphere)
    &&& opt_text_eq(a.doi, b.doi)
}

/// A list of compositions held as a set: each well formed, and strictly
/// ordered by key.
pub open spec fn canonical_precursors(s: Seq<Composition>) -> bool {
    &&& forall|i: int| 0 <= i < s.len() ==> (#[trigger] s[i]).wf()
    &&& keys_sorted(composition_keys(s))
}

impl CorpusHeatingObservation {
    /// Well formed: the target is, and the precursors are held as a set.
    pub open spec fn wf(self) -> bool {
        &&& self.target.wf()
        &&& canonical_precursors(self.precursors@)
    }
}

/// Splitting two equal concatenations at the same length.
proof fn lemma_split(s1: Seq<i128>, r1: Seq<i128>, s2: Seq<i128>, r2: Seq<i128>)
    requires
        s1 + r1 == s2 + r2,
        s1.len() == s2.len(),
    ensures
        s1 == s2,
        r1 == r2,
{
    assert(s1 =~= (s1 + r1).subrange(0, s1.len() as int));
    assert(s2 =~= (s2 + r2).subrange(0, s2.len() as int));
    assert(r1 =~= (s1 + r1).subrange(s1.len() as int, (s1 + r1).len() as int));
    assert(r2 =~= (s2 + r2).subrange(s2.len() as int, (s2 + r2).len() as int));
}

/// A text key determines the text, and where it ends.
proof fn lemma_text_key_injective(a: Seq<char>, b: Seq<char>, r1: Seq<i128>, r2: Seq<i128>)
    requires
        text_key(a) + r1 == text_key(b) + r2,
    ensures
        a == b,
        r1 == r2,
{
    let x = text_key(a) + r1;
    let y = text_key(b) + r2;
    if a.len() < b.len() {
        assert(x[a.len() as int] == -1i128);
        assert(y[a.len() as int] == char_code(b[a.len() as int]));
    } else if b.len() < a.len() {
        assert(y[b.len() as int] == -1i128);
        assert(x[b.len() as int] == char_code(a[b.len() as int]));
    } else {
        assert forall|i: int| 0 <= i < a.len() implies a[i] == b[i] by {
            assert(x[i] == char_code(a[i]));
            assert(y[i] == char_code(b[i]));
            assert((a[i] as u32) == (b[i] as u32));
            vstd::utf8::char_u32_cast(a[i], a[i] as u32);
            vstd::utf8::char_u32_cast(b[i], b[i] as u32);
        }
        assert(a =~= b);
        lemma_split(text_key(a), r1, text_key(b), r2);
    }
}

/// The listing code read from its first entry.
proof fn lemma_listing_code_front(l: Seq<(Element, Frac)>)
    requires
        l.len() > 0,
    ensures
        listing_code(l) == entry_key(l[0]) + listing_code(l.drop_first()),
    decreases l.len(),
{
    if l.len() > 1 {
        lemma_listing_code_front(l.drop_last());
        assert(l.drop_last().drop_first() =~= l.drop_first().drop_last());
        assert(l.drop_last()[0] == l[0]);
        assert(l.drop_first().last() == l.last());
    } else {
        assert(l.drop_last() =~= Seq::<(Element, Frac)>::empty());
        assert(l.drop_first() =~= Seq::<(Element, Frac)>::empty());
    }
    assert(listing_code(l) =~= entry_key(l[0]) + listing_code(l.drop_first()));
}

/// A composition key determines the listing, and where it ends.
proof fn lemma_listing_key_injective(
    a: Seq<(Element, Frac)>,
    b: Seq<(Element, Frac)>,
    r1: Seq<i128>,
    r2: Seq<i128>,
)
    requires
        listing_code(a) + (seq![-1i128] + r1) == listing_code(b) + (seq![-1i128] + r2),
    ensures
        a == b,
        r1 == r2,
    decreases a.len(),
{
    let x = listing_code(a) + (seq![-1i128] + r1);
    if a.len() == 0 {
        assert(x[0] == -1i128);
        if b.len() > 0 {
            lemma_listing_code_front(b);
            assert(x[0] == b[0].0.index() as i128);
        }
        assert(a =~= b);
        lemma_split(seq![-1i128], r1, seq![-1i128], r2);
    } else if b.len() == 0 {
        lemma_listing_code_front(a);
        assert(x[0] == a[0].0.index() as i128);
    } else {
        lemma_listing_code_front(a);
        lemma_listing_code_front(b);
        let ra = listing_code(a.drop_first()) + (seq![-1i128] + r1);
        let rb = listing_code(b.drop_first()) + (seq![-1i128] + r2);
        assert(x =~= entry_key(a[0]) + ra);
        assert(listing_code(b) + (seq![-1i128] + r2) =~= entry_key(b[0]) + rb);
        lemma_split(entry_key(a[0]), ra, entry_key(b[0]), rb);
        lemma_listing_key_injective(a.drop_first(), b.drop_first(), r1, r2);
        a[0].1.lemma_view_bounds();
        b[0].1.lemma_view_bounds();
        assert(entry_key(a[0])[0] == entry_key(b[0])[0]);
        assert(entry_key(a[0])[1] == entry_key(b[0])[1]);
        assert(entry_key(a[0])[2] == entry_key(b[0])[2]);
        Element::lemma_index_injective(a[0].0, b[0].0);
        Frac::lemma_view_injective(a[0].1, b[0].1);
        assert(a =~= seq![a[0]] + a.drop_first());
        assert(b =~= seq![b[0]] + b.drop_first());
    }
}

/// The key list code read from its first key.
proof fn lemma_key_list_front(s: Seq<Seq<i128>>)
    requires
        s.len() > 0,
    ensures
        key_list_code(s) == (seq![1i128] + s[0]) + key_list_code(s.drop_first()),
    decreases s.len(),
{
    if s.len() > 1 {
        lemma_key_list_front(s.drop_last());
        assert(s.drop_last().drop_first() =~= s.drop_first().drop_last());
        assert(s.drop_last()[0] == s[0]);
        assert(s.drop_first().last() == s.last());
    } else {
        assert(s.drop_last() =~= Seq::<Seq<i128>>::empty());
        assert(s.drop_first() =~= Seq::<Seq<i128>>::empty());
    }
    assert(key_list_code(s) =~= (seq![1i128] + s[0]) + key_list_code(s.drop_first()));
}

/// A precursor key determines the precursors' keys, and where it ends.
proof fn lemma_precursors_key_injective(
    a: Seq<Composition>,
    b: Seq<Composition>,
    r1: Seq<i128>,
    r2: Seq<i128>,
)
    requires
        precursors_key(a) + r1 == precursors_key(b) + r2,
    ensures
        composition_keys(a) == composition_keys(b),
        r1 == r2,
    decreases a.len(),
{
    let ka = composition_keys(a);
    let kb = composition_keys(b);
    let x = precursors_key(a) + r1;
    if a.len() == 0 {
        assert(ka =~= Seq::<Seq<i128>>::empty());
        assert(x[0] == 0i128);
        if b.len() > 0 {
            lemma_key_list_front(kb);
            assert(x[0] == 1i128);
        }
        assert(kb =~= Seq::<Seq<i128>>::empty());
        lemma_split(seq![0i128], r1, seq![0i128], r2);
    } else if b.len() == 0 {
        assert(kb =~= Seq::<Seq<i128>>::empty());
        lemma_key_list_front(ka);
        assert(x[0] == 1i128);
        assert((precursors_key(b) + r2)[0] == 0i128);
    } else {
        lemma_key_list_front(ka);
        lemma_key_list_front(kb);
        assert(ka.drop_first() =~= composition_keys(a.drop_first()));
        assert(kb.drop_first() =~= composition_keys(b.drop_first()));
        let ra = precursors_key(a.drop_first()) + r1;
        let rb = precursors_key(b.drop_first()) + r2;
        let la = a[0].listing();
        let lb = b[0].listing();
        assert(x =~= seq![1i128] + (listing_code(la) + (seq![-1i128] + ra)));
        assert(precursors_key(b) + r2 =~= seq![1i128] + (listing_code(lb) + (seq![-1i128] + rb)));
        lemma_split(
            seq![1i128],
            listing_code(la) + (seq![-1i128] + ra),
            seq![1i128],
            listing_code(lb) + (seq![-1i128] + rb),
        );
        lemma_listing_key_injective(la, lb, ra, rb);
        lemma_precursors_key_injective(a.drop_first(), b.drop_first(), r1, r2);
        assert(ka =~= seq![ka[0]] + ka.drop_first());
        assert(kb =~= seq![kb[0]] + kb.drop_first());
    }
}


/// Equal composition keys mean equal listings.
proof fn lemma_composition_key_injective(a: Composition, b: Composition)
    requires
        composition_key(a) == composition_key(b),
    ensures
        a.listing() == b.listing(),
{
    let e = Seq::<i128>::empty();
    assert(listing_code(a.listing()) + (seq![-1i128] + e) =~= composition_key(a));
    assert(listing_code(b.listing()) + (seq![-1i128] + e) =~= composition_key(b));
    lemma_listing_key_injective(a.listing(), b.listing(), e, e);
}

/// Two lists of compositions held as sets have the same keys exactly when
/// they hold the same listings.
proof fn lemma_precursor_sets(a: Seq<Composition>, b: Seq<Composition>)
    requires
        canonical_precursors(a),
        canonical_precursors(b),
    ensures
        composition_keys(a) == composition_keys(b) <==> listing_set(a) == listing_set(b),
{
    let ka = composition_keys(a);
    let kb = composition_keys(b);
    if ka == kb {
        assert forall|i: int| 0 <= i < a.len() implies a[i].listing() == b[i].listing() by {
            assert(ka[i] == kb[i]);
            lemma_composition_key_injective(a[i], b[i]);
        }
        assert forall|l: Seq<(Element, Frac)>| listing_set(a).contains(l) <==> listing_set(b).contains(l) by {
            if listing_set(a).contains(l) {
                let i = choose|i: int| 0 <= i < a.len() && a[i].listing() == l;
                assert(b[i].listing() == l);
            }
            if listing_set(b).contains(l) {
                let i = choose|i: int| 0 <= i < b.len() && b[i].listing() == l;
                assert(a[i].listing() == l);
            }
        }
        assert(listing_set(a) =~= listing_set(b));
    }
    if listing_set(a) == listing_set(b) {
        assert forall|k: Seq<i128>| ka.contains(k) <==> kb.contains(k) by {
            if ka.contains(k) {
                let i = choose|i: int| 0 <= i < ka.len() && ka[i] == k;
                assert(listing_set(a).contains(a[i].listing()));
                let j = choose|j: int| 0 <= j < b.len() && b[j].listing() == a[i].listing();
                assert(kb[j] == k);
            }
            if kb.contains(k) {
                let i = choose|i: int| 0 <= i < kb.len() && kb[i] == k;
                assert(listing_set(b).contains(b[i].listing()));
                let j = choose|j: int| 0 <= j < a.len() && a[j].listing() == b[i].listing();
                assert(ka[j] == k);
            }
        }
        lemma_sorted_unique(ka, kb);
    }
}

/// An optional text key determines the text, and where it ends.
proof fn lemma_doi_key_injective(a: Option<String>, b: Option<String>, r1: Seq<i128>, r2: Seq<i128>)
    requires
        doi_key(a) + r1 == doi_key(b) + r2,
    ensures
        opt_text_eq(a, b),
        r1 == r2,
{
    let x = doi_key(a) + r1;
    let y = doi_key(b) + r2;
    assert(x[0] == y[0]);
    assert(x[0] == doi_key(a)[0] && y[0] == doi_key(b)[0]);
    match (a, b) {
        (Some(s), Some(t)) => {
            assert(x =~= seq![1i128] + (text_key(s@) + r1));
            assert(y =~= seq![1i128] + (text_key(t@) + r2));
            lemma_split(seq![1i128], text_key(s@) + r1, seq![1i128], text_key(t@) + r2);
            lemma_text_key_injective(s@, t@, r1, r2);
        },
        (None, None) => {
            lemma_split(seq![0i128], r1, seq![0i128], r2);
        },
        _ => {
            match a {
                Some(t) => assert(doi_key(a) =~= seq![1i128] + text_key(t@)),
                None => {},
            }
            match b {
                Some(t) => assert(doi_key(b) =~= seq![1i128] + text_key(t@)),
                None => {},
            }
            assert(doi_key(a)[0] != doi_key(b)[0]);
        },
    }
}

/// An optional atmosphere key determines the atmosphere, and where it ends.
proof fn lemma_atmosphere_key_injective(
    a: Option<Atmosphere>,
    b: Option<Atmosphere>,
    r1: Seq<i128>,
    r2: Seq<i128>,
)
    requires
        atmosphere_key(a) + r1 == atmosphere_key(b) + r2,
    ensures
        same_atmosphere(a, b),
        r1 == r2,
{
    let x = atmosphere_key(a) + r1;
    let y = atmosphere_key(b) + r2;
    assert(x[0] == y[0]);
    assert(x[0] == atmosphere_key(a)[0] && y[0] == atmosphere_key(b)[0]);
    match (a, b) {
        (
            Some(Atmosphere::Controlled { description: s }),
            Some(Atmosphere::Controlled { description: t }),
        ) => {
            assert(x =~= seq![2i128] + (text_key(s@) + r1));
            assert(y =~= seq![2i128] + (text_key(t@) + r2));
            lemma_split(seq![2i128], text_key(s@) + r1, seq![2i128], text_key(t@) + r2);
            lemma_text_key_injective(s@, t@, r1, r2);
        },
        (None, None) => {
            lemma_split(seq![0i128], r1, seq![0i128], r2);
        },
        (Some(Atmosphere::Air), Some(Atmosphere::Air)) => {
            lemma_split(seq![1i128], r1, seq![1i128], r2);
        },
        _ => {
            match a {
                Some(Atmosphere::Controlled { description: t }) => assert(atmosphere_key(a) =~= seq![2i128] + text_key(t@)),
                _ => {},
            }
            match b {
                Some(Atmosphere::Controlled { description: t }) => assert(atmosphere_key(b) =~= seq![2i128] + text_key(t@)),
                _ => {},
            }
            assert(atmosphere_key(a)[0] != atmosphere_key(b)[0]);
        },
    }
}

/// An optional temperature range key determines the range, and where it
/// ends.
proof fn lemma_temperature_key_injective(
    a: Option<TemperatureRange>,
    b: Option<TemperatureRange>,
    r1: Seq<i128>,
    r2: Seq<i128>,
)
    requires
        temperature_key(a) + r1 == temperature_key(b) + r2,
    ensures
        a == b,
        r1 == r2,
{
    let x = temperature_key(a) + r1;
    let y = temperature_key(b) + r2;
    assert(x[0] == y[0]);
    assert(x[0] == temperature_key(a)[0] && y[0] == temperature_key(b)[0]);
    match (a, b) {
        (Some(s), Some(t)) => {
            lemma_split(temperature_key(a), r1, temperature_key(b), r2);
            s.lemma_bounds(t);
            t.lemma_bounds(s);
            assert(temperature_key(a)[1] == temperature_key(b)[1]);
            assert(temperature_key(a)[2] == temperature_key(b)[2]);
            assert(temperature_key(a)[3] == temperature_key(b)[3]);
            assert(temperature_key(a)[4] == temperature_key(b)[4]);
        },
        (None, None) => {
            lemma_split(seq![0i128], r1, seq![0i128], r2);
        },
        _ => {},
    }
}

/// An optional duration range key determines the range, and where it ends.
proof fn lemma_duration_key_injective(
    a: Option<DurationRange>,
    b: Option<DurationRange>,
    r1: Seq<i128>,
    r2: Seq<i128>,
)
    requires
        duration_key(a) + r1 == duration_key(b) + r2,
    ensures
        a == b,
        r1 == r2,
{
    let x = duration_key(a) + r1;
    let y = duration_key(b) + r2;
    assert(x[0] == y[0]);
    assert(x[0] == duration_key(a)[0] && y[0] == duration_key(b)[0]);
    match (a, b) {
        (Some(s), Some(t)) => {
            lemma_split(duration_key(a), r1, duration_key(b), r2);
            s.lemma_bounds(t);
            t.lemma_bounds(s);
            assert(duration_key(a)[1] == duration_key(b)[1]);
            assert(duration_key(a)[2] == duration_key(b)[2]);
            assert(duration_key(a)[3] == duration_key(b)[3]);
            assert(duration_key(a)[4] == duration_key(b)[4]);
        },
        (None, None) => {
            lemma_split(seq![0i128], r1, seq![0i128], r2);
        },
        _ => {},
    }
}

/// Two well-formed observations have the same content key exactly when
/// they report the same thing: every field but the corpus record index
/// agrees, the precursors as sets.
pub proof fn lemma_key_identifies_content(a: CorpusHeatingObservation, b: CorpusHeatingObservation)
    requires
        a.wf(),
        b.wf(),
    ensures
        observation_key(a) == observation_key(b) <==> same_content(a, b),
{
    reveal(same_content);
    lemma_precursor_sets(a.precursors@, b.precursors@);
    let t7a = atmosphere_key(a.atmosphere) + seq![route_code(a.route_family)];
    let t7b = atmosphere_key(b.atmosphere) + seq![route_code(b.route_family)];
    let t6a = duration_key(a.duration) + t7a;
    let t6b = duration_key(b.duration) + t7b;
    let t5a = temperature_key(a.temperature) + t6a;
    let t5b = temperature_key(b.temperature) + t6b;
    let t4a = seq![a.operation_index as i128] + t5a;
    let t4b = seq![b.operation_index as i128] + t5b;
    let t3a = doi_key(a.doi) + t4a;
    let t3b = doi_key(b.doi) + t4b;
    let t2a = precursors_key(a.precursors@) + t3a;
    let t2b = precursors_key(b.precursors@) + t3b;
    if observation_key(a) == observation_key(b) {
        assert(observation_key(a) =~= listing_code(a.target.listing()) + (seq![-1i128] + t2a));
        assert(observation_key(b) =~= listing_code(b.target.listing()) + (seq![-1i128] + t2b));
        lemma_listing_key_injective(a.target.listing(), b.target.listing(), t2a, t2b);
        lemma_precursors_key_injective(a.precursors@, b.precursors@, t3a, t3b);
        lemma_doi_key_injective(a.doi, b.doi, t4a, t4b);
        lemma_split(seq![a.operation_index as i128], t5a, seq![b.operation_index as i128], t5b);
        assert(seq![a.operation_index as i128][0] == seq![b.operation_index as i128][0]);
        lemma_temperature_key_injective(a.temperature, b.temperature, t6a, t6b);
        lemma_duration_key_injective(a.duration, b.duration, t7a, t7b);
        lemma_atmosphere_key_injective(
            a.atmosphere,
            b.atmosphere,
            seq![route_code(a.route_family)],
            seq![route_code(b.route_family)],
        );
        assert(seq![route_code(a.route_family)][0] == seq![route_code(b.route_family)][0]);
    }
    if same_content(a, b) {
        assert(doi_key(a.doi) == doi_key(b.doi));
        assert(atmosphere_key(a.atmosphere) == atmosphere_key(b.atmosphere));
    }
}


/// Appends the key of a text.
fn push_text(out: &mut Vec<i128>, s: &str)
    ensures
        final(out)@ == old(out)@ + text_key(s@),
{
    let v = chars_of(s);
    let ghost start = out@;
    let mut i: usize = 0;
    while i < v.len()
        invariant
            i <= v@.len(),
            out@ == start + v@.take(i as int).map_values(|c: char| char_code(c)),
        decreases v@.len() - i,
    {
        out.push((v[i] as u32) as i128);
        assert(v@.take(i + 1).map_values(|c: char| char_code(c)) =~= v@.take(i as int).map_values(
            |c: char| char_code(c),
        ).push(char_code(v@[i as int])));
        i = i + 1;
    }
    out.push(-1i128);
    assert(v@.take(i as int) =~= s@);
    assert(out@ =~= start + text_key(s@));
}

/// Appends the key of a composition.
fn push_composition(out: &mut Vec<i128>, c: &Composition)
    requires
        c.wf(),
    ensures
        final(out)@ == old(out)@ + composition_key(*c),
{
    let pairs = c.pairs();
    let ghost l = c.listing();
    let ghost start = out@;
    let mut i: usize = 0;
    while i < pairs.len()
        invariant
            pairs@ == l,
            i <= l.len(),
            out@ == start + listing_code(l.take(i as int)),
        decreases l.len() - i,
    {
        let (e, f) = pairs[i];
        out.push(e.index_u8() as i128);
        out.push(f.numerator());
        out.push(f.denominator());
        assert(l.take(i + 1).drop_last() =~= l.take(i as int));
        assert(l.take(i + 1).last() == l[i as int]);
        assert(out@ =~= start + listing_code(l.take(i + 1)));
        i = i + 1;
    }
    out.push(-1i128);
    assert(l.take(i as int) =~= l);
    assert(out@ =~= start + composition_key(*c));
}

/// The key of a composition.
fn composition_key_of(c: &Composition) -> (r: Vec<i128>)
    requires
        c.wf(),
    ensures
        r@ == composition_key(*c),
{
    let mut out: Vec<i128> = Vec::new();
    push_composition(&mut out, c);
    assert(out@ =~= composition_key(*c));
    out
}

/// Appends the key of a list of compositions.
fn push_precursors(out: &mut Vec<i128>, ps: &Vec<Composition>)
    requires
        forall|i: int| 0 <= i < ps@.len() ==> (#[trigger] ps@[i]).wf(),
    ensures
        final(out)@ == old(out)@ + precursors_key(ps@),
{
    let ghost start = out@;
    let ghost ks = composition_keys(ps@);
    let mut i: usize = 0;
    while i < ps.len()
        invariant
            forall|j: int| 0 <= j < ps@.len() ==> (#[trigger] ps@[j]).wf(),
            ks == composition_keys(ps@),
            i <= ps@.len(),
            out@ == start + key_list_code(ks.take(i as int)),
        decreases ps@.len() - i,
    {
        out.push(1i128);
        push_composition(out, &ps[i]);
        assert(ks.take(i + 1).drop_last() =~= ks.take(i as int));
        assert(ks.take(i + 1).last() == ks[i as int]);
        assert(out@ =~= start + key_list_code(ks.take(i + 1)));
        i = i + 1;
    }
    out.push(0i128);
    assert(ks.take(i as int) =~= ks);
    assert(out@ =~= start + precursors_key(ps@));
}

/// Appends the key of an optional text.
fn push_doi(out: &mut Vec<i128>, d: &Option<String>)
    ensures
        final(out)@ == old(out)@ + doi_key(*d),
{
    let ghost start = out@;
    match d {
        None => out.push(0i128),
        Some(t) => {
            out.push(1i128);
            push_text(out, t.as_str());
        },
    }
    assert(out@ =~= start + doi_key(*d));
}

/// Appends range bounds given as numerator/denominator pairs.
fn push_bounds(out: &mut Vec<i128>, lo: Frac, hi: Frac)
    ensures
        final(out)@ == old(out)@ + bounds_key(lo@, hi@),
{
    let ghost start = out@;
    out.push(1i128);
    out.push(lo.numerator());
    out.push(lo.denominator());
    out.push(hi.numerator());
    out.push(hi.denominator());
    assert(out@ =~= start + bounds_key(lo@, hi@));
}

/// Appends the key of an optional temperature range.
fn push_temperature(out: &mut Vec<i128>, t: &Option<TemperatureRange>)
    ensures
        final(out)@ == old(out)@ + temperature_key(*t),
{
    let ghost start = out@;
    match t {
        None => out.push(0i128),
        Some(x) => push_bounds(out, x.min_celsius(), x.max_celsius()),
    }
    assert(out@ =~= start + temperature_key(*t));
}

/// Appends the key of an optional duration range.
fn push_duration(out: &mut Vec<i128>, t: &Option<DurationRange>)
    ensures
        final(out)@ == old(out)@ + duration_key(*t),
{
    let ghost start = out@;
    match t {
        None => out.push(0i128),
        Some(x) => push_bounds(out, x.min_hours(), x.max_hours()),
    }
    assert(out@ =~= start + duration_key(*t));
}

/// Appends the key of an optional atmosphere.
fn push_atmosphere(out: &mut Vec<i128>, a: &Option<Atmosphere>)
    ensures
        final(out)@ == old(out)@ + atmosphere_key(*a),
{
    let ghost start = out@;
    match a {
        None => out.push(0i128),
        Some(Atmosphere::Air) => out.push(1i128),
        Some(Atmosphere::Controlled { description }) => {
            out.push(2i128);
            push_text(out, description.as_str());
        },
    }
    assert(out@ =~= start + atmosphere_key(*a));
}

/// Concatenation read from the left is concatenation read from the right.
proof fn lemma_regroup(
    a: Seq<i128>,
    b: Seq<i128>,
    c: Seq<i128>,
    d: Seq<i128>,
    e: Seq<i128>,
    f: Seq<i128>,
    g: Seq<i128>,
    h: Seq<i128>,
)
    ensures
        a + b + c + d + e + f + g + h == a + (b + (c + (d + (e + (f + (g + h)))))),
{
    assert(a + b + c + d + e + f + g + h =~= a + b + c + d + e + f + (g + h));
    assert(a + b + c + d + e + f + (g + h) =~= a + b + c + d + e + (f + (g + h)));
    assert(a + b + c + d + e + (f + (g + h)) =~= a + b + c + d + (e + (f + (g + h))));
    assert(a + b + c + d + (e + (f + (g + h))) =~= a + b + c + (d + (e + (f + (g + h)))));
    assert(a + b + c + (d + (e + (f + (g + h)))) =~= a + b + (c + (d + (e + (f + (g + h))))));
    assert(a + b + (c + (d + (e + (f + (g + h))))) =~= a + (b + (c + (d + (e + (f + (g + h)))))));
}

/// The content key of an observation.
pub fn observation_key_of(o: &CorpusHeatingObservation) -> (r: Vec<i128>)
    requires
        o.wf(),
    ensures
        r@ == observation_key(*o),
{
    let mut out: Vec<i128> = Vec::new();
    push_composition(&mut out, &o.target);
    push_precursors(&mut out, &o.precursors);
    push_doi(&mut out, &o.doi);
    out.push(o.operation_index as i128);
    push_temperature(&mut out, &o.temperature);
    push_duration(&mut out, &o.duration);
    push_atmosphere(&mut out, &o.atmosphere);
    let code: i128 = match o.route_family {
        RouteFamily::ConventionalSolidState => 0,
        RouteFamily::Mechanochemical => 1,
    };
    out.push(code);
    proof {
        lemma_regroup(
            composition_key(o.target),
            precursors_key(o.precursors@),
            doi_key(o.doi),
            seq![o.operation_index as i128],
            temperature_key(o.temperature),
            duration_key(o.duration),
            atmosphere_key(o.atmosphere),
            seq![route_code(o.route_family)],
        );
        assert(Seq::<i128>::empty() + composition_key(o.target) =~= composition_key(o.target));
    }
    out
}

/// The precursors held as a set: each listing once, strictly ordered by
/// key.
pub fn precursor_set(ps: &[Composition]) -> (r: Vec<Composition>)
    requires
        forall|i: int| 0 <= i < ps@.len() ==> (#[trigger] ps@[i]).wf(),
    ensures
        canonical_precursors(r@),
        listing_set(r@) == listing_set(ps@),
{
    let mut out: Vec<Composition> = Vec::new();
    let mut keys: Vec<Vec<i128>> = Vec::new();
    let mut i: usize = 0;
    assert(listing_set(out@) =~= listing_set(ps@.take(0)));
    while i < ps.len()
        invariant
            forall|j: int| 0 <= j < ps@.len() ==> (#[trigger] ps@[j]).wf(),
            i <= ps@.len(),
            canonical_precursors(out@),
            key_views(keys@) == composition_keys(out@),
            listing_set(out@) == listing_set(ps@.take(i as int)),
        decreases ps@.len() - i,
    {
        let k = composition_key_of(&ps[i]);
        let (p, found) = locate_key(&keys, &k);
        let ghost before = out@;
        let ghost l = ps@[i as int].listing();
        if found {
            proof {
                assert(keys@[p as int]@ == k@);
                assert(key_views(keys@).len() == keys@.len());
                assert(composition_keys(before).len() == before.len());
                assert(key_views(keys@)[p as int] == keys@[p as int]@);
                assert(composition_keys(before)[p as int] == composition_key(before[p as int]));
                assert(key_views(keys@)[p as int] == composition_key(before[p as int]));
                lemma_composition_key_injective(before[p as int], ps@[i as int]);
            }
        } else {
            let c = ps[i].duplicate();
            let ghost kv = key_views(keys@);
            proof {
                lemma_insert_sorted(key_views(keys@), p as int, k@);
                assert(composition_key(c) == k@);
            }
            keys.insert(p, k);
            out.insert(p, c);
            proof {
                assert(key_views(keys@) =~= kv.insert(p as int, k@));
                assert(composition_keys(out@) =~= composition_keys(before).insert(p as int, composition_key(c)));
                assert(key_views(keys@) =~= composition_keys(out@));
                assert forall|j: int| 0 <= j < out@.len() implies (#[trigger] out@[j]).wf() by {
                    if j < p {
                        assert(out@[j] == before[j]);
                    } else if j > p {
                        assert(out@[j] == before[j - 1]);
                    }
                }
            }
        }
        proof {
            let t0 = ps@.take(i as int);
            let t1 = ps@.take(i + 1);
            let now = listing_set(out@);
            let want = listing_set(t1);
            assert forall|m: Seq<(Element, Frac)>| now.contains(m) <==> want.contains(m) by {
                if now.contains(m) {
                    let j = choose|j: int| 0 <= j < out@.len() && out@[j].listing() == m;
                    if !found && j == p {
                        assert(t1[i as int].listing() == m);
                    } else {
                        let j0 = if !found && j > p { j - 1 } else { j };
                        assert(before[j0].listing() == m);
                        assert(listing_set(before).contains(m));
                        let q = choose|q: int| 0 <= q < i && t0[q].listing() == m;
                        assert(t1[q].listing() == m);
                    }
                }
                if want.contains(m) {
                    let q = choose|q: int| 0 <= q < i + 1 && t1[q].listing() == m;
                    if q == i {
                        if found {
                            assert(out@[p as int].listing() == m);
                        } else {
                            assert(out@[p as int].listing() == m);
                        }
                    } else {
                        assert(t0[q].listing() == m);
                        assert(listing_set(before).contains(m));
                        let j = choose|j: int| 0 <= j < before.len() && before[j].listing() == m;
                        if !found && j >= p {
                            assert(out@[j + 1].listing() == m);
                        } else {
                            assert(out@[j].listing() == m);
                        }
                    }
                }
            }
            assert(now =~= want);
        }
        i = i + 1;
    }
    assert(ps@.take(i as int) =~= ps@);
    out
}


/// Why a route family other than conventional solid state is refused.
pub const ROUTE_REFUSED: &'static str = "literature observation snapshots (schema gugen-literature-observation-snapshot-v1) may only contain ConventionalSolidState observations, got Mechanochemical";

/// Why an entry is refused, if it is: it did not parse, or it reports a
/// route family other than conventional solid state.
pub open spec fn entry_rejection(e: Result<CorpusHeatingObservation, String>) -> Option<Seq<char>> {
    match e {
        Err(m) => Some(m@),
        Ok(o) => if o.route_family == RouteFamily::ConventionalSolidState {
            None
        } else {
            Some(ROUTE_REFUSED@)
        },
    }
}

/// The entry is kept.
pub open spec fn entry_accepted(e: Result<CorpusHeatingObservation, String>) -> bool {
    e is Ok && entry_rejection(e) is None
}

/// The refused entries, by position and reason, in order.
pub open spec fn rejections(es: Seq<Result<CorpusHeatingObservation, String>>) -> Seq<(int, Seq<char>)>
    decreases es.len(),
{
    if es.len() == 0 {
        Seq::empty()
    } else {
        let rest = rejections(es.drop_last());
        match entry_rejection(es.last()) {
            Some(m) => rest.push((es.len() - 1, m)),
            None => rest,
        }
    }
}

/// The message for a manifest of another schema.
pub open spec fn schema_message(v: Seq<char>) -> Seq<char> {
    "manifest schema_version \""@ + v
        + "\" is not supported by this gugen version (expects \"gugen-literature-observation-snapshot-v1\")"@
}

/// The message for a manifest whose record count is not the entry count.
pub open spec fn count_message(declared: nat, actual: nat) -> Seq<char> {
    "manifest declares record_count="@ + decimal(declared) + " but the snapshot contains "@
        + decimal(actual) + " observation entries"@
}

/// The strict-mode message for a refused entry.
pub open spec fn position_message(p: nat, reason: Seq<char>) -> Seq<char> {
    "observation at position "@ + decimal(p) + ": "@ + reason
}

/// The content keys of a list of observations.
pub open spec fn observation_keys(s: Seq<CorpusHeatingObservation>) -> Seq<Seq<i128>> {
    s.map_values(|o: CorpusHeatingObservation| observation_key(o))
}

/// Observations as a corpus holds them: each well formed, without a
/// heating purpose, strictly ordered by content key.
pub open spec fn corpus_ordered(s: Seq<CorpusHeatingObservation>) -> bool {
    &&& forall|k: int| 0 <= k < s.len() ==> (#[trigger] s[k]).wf() && s[k].heating_purpose is None
    &&& keys_sorted(observation_keys(s))
}

/// Some observation of `s` reports what `e` reports, from a record no later
/// than `e`'s.
pub open spec fn represented(s: Seq<CorpusHeatingObservation>, e: CorpusHeatingObservation) -> bool {
    exists|k: int|
        0 <= k < s.len() && same_content(#[trigger] s[k], e) && s[k].corpus_record_index
            <= e.corpus_record_index
}

/// `o` is what one of the first `n` entries reports, from that entry's
/// record.
pub open spec fn drawn_from(
    o: CorpusHeatingObservation,
    es: Seq<Result<CorpusHeatingObservation, String>>,
    n: int,
) -> bool {
    exists|j: int|
        0 <= j < n && entry_accepted(#[trigger] es[j]) && same_content(o, es[j]->Ok_0)
            && o.corpus_record_index == es[j]->Ok_0.corpus_record_index
}

/// Reporting the same thing is symmetric and transitive.
proof fn lemma_same_content_trans(
    a: CorpusHeatingObservation,
    b: CorpusHeatingObservation,
    c: CorpusHeatingObservation,
)
    ensures
        same_content(a, b) ==> same_content(b, a),
        same_content(a, b) && same_content(b, c) ==> same_content(a, c),
{
    reveal(same_content);
}

/// The refusals of a prefix of the entries are the first refusals of all
/// of them.
proof fn lemma_rejections_prefix(es: Seq<Result<CorpusHeatingObservation, String>>, n: int)
    requires
        0 <= n <= es.len(),
    ensures
        rejections(es.take(n)).len() <= rejections(es).len(),
        forall|k: int|
            0 <= k < rejections(es.take(n)).len() ==> #[trigger] rejections(es.take(n))[k]
                == rejections(es)[k],
    decreases es.len(),
{
    if n == es.len() {
        assert(es.take(n) =~= es);
    } else {
        let d = es.drop_last();
        lemma_rejections_prefix(d, n);
        assert(d.take(n) =~= es.take(n));
    }
}

/// When the first refused entry is at `i`, the refusals start with it.
proof fn lemma_first_rejection(es: Seq<Result<CorpusHeatingObservation, String>>, i: int)
    requires
        0 <= i < es.len(),
        rejections(es.take(i)).len() == 0,
        es.take(i + 1).drop_last() == es.take(i),
        es.take(i + 1).last() == es[i],
        entry_rejection(es[i]) is Some,
    ensures
        rejections(es).len() > 0,
        rejections(es)[0] == (i, entry_rejection(es[i])->Some_0),
{
    lemma_rejections_prefix(es, i + 1);
    assert(rejections(es.take(i + 1))[0] == (i, entry_rejection(es[i])->Some_0));
}

/// Replacing an observation by one that reports the same thing from an
/// earlier record keeps every entry represented and every observation
/// drawn from an entry.
proof fn lemma_replace_keeps(
    before: Seq<CorpusHeatingObservation>,
    after: Seq<CorpusHeatingObservation>,
    p: int,
    fresh: CorpusHeatingObservation,
    es: Seq<Result<CorpusHeatingObservation, String>>,
    n: int,
)
    requires
        0 <= p < before.len(),
        after == before.update(p, fresh),
        same_content(before[p], fresh),
        fresh.corpus_record_index < before[p].corpus_record_index,
        drawn_from(fresh, es, n + 1),
        forall|k: int| 0 <= k < before.len() ==> drawn_from(#[trigger] before[k], es, n),
        forall|q: int|
            0 <= q < n && entry_accepted(#[trigger] es[q]) ==> represented(before, es[q]->Ok_0),
    ensures
        forall|k: int| 0 <= k < after.len() ==> drawn_from(#[trigger] after[k], es, n + 1),
        forall|q: int|
            0 <= q < n && entry_accepted(#[trigger] es[q]) ==> represented(after, es[q]->Ok_0),
{
    assert forall|k: int| 0 <= k < after.len() implies drawn_from(#[trigger] after[k], es, n + 1) by {
        if k != p {
            assert(after[k] == before[k]);
            assert(drawn_from(before[k], es, n));
            let j = choose|j: int|
                0 <= j < n && entry_accepted(#[trigger] es[j]) && same_content(before[k], es[j]->Ok_0)
                    && before[k].corpus_record_index == es[j]->Ok_0.corpus_record_index;
            assert(entry_accepted(es[j]));
        }
    }
    assert forall|q: int| 0 <= q < n && entry_accepted(#[trigger] es[q]) implies represented(
        after,
        es[q]->Ok_0,
    ) by {
        let e = es[q]->Ok_0;
        assert(represented(before, e));
        let k = choose|k: int|
            0 <= k < before.len() && same_content(#[trigger] before[k], e)
                && before[k].corpus_record_index <= e.corpus_record_index;
        if k == p {
            lemma_same_content_trans(fresh, before[p], e);
            lemma_same_content_trans(before[p], fresh, e);
            assert(same_content(after[p], e));
        } else {
            assert(after[k] == before[k]);
        }
    }
}

/// Inserting a new observation keeps every entry represented and every
/// observation drawn from an entry.
proof fn lemma_insert_keeps(
    before: Seq<CorpusHeatingObservation>,
    after: Seq<CorpusHeatingObservation>,
    p: int,
    fresh: CorpusHeatingObservation,
    es: Seq<Result<CorpusHeatingObservation, String>>,
    n: int,
)
    requires
        0 <= p <= before.len(),
        after == before.insert(p, fresh),
        drawn_from(fresh, es, n + 1),
        forall|k: int| 0 <= k < before.len() ==> drawn_from(#[trigger] before[k], es, n),
        forall|q: int|
            0 <= q < n && entry_accepted(#[trigger] es[q]) ==> represented(before, es[q]->Ok_0),
    ensures
        forall|k: int| 0 <= k < after.len() ==> drawn_from(#[trigger] after[k], es, n + 1),
        forall|q: int|
            0 <= q < n && entry_accepted(#[trigger] es[q]) ==> represented(after, es[q]->Ok_0),
        after[p] == fresh,
{
    assert forall|k: int| 0 <= k < after.len() implies drawn_from(#[trigger] after[k], es, n + 1) by {
        if k != p {
            let k0 = if k < p { k } else { k - 1 };
            assert(after[k] == before[k0]);
            assert(drawn_from(before[k0], es, n));
            let j = choose|j: int|
                0 <= j < n && entry_accepted(#[trigger] es[j]) && same_content(before[k0], es[j]->Ok_0)
                    && before[k0].corpus_record_index == es[j]->Ok_0.corpus_record_index;
            assert(entry_accepted(es[j]));
        }
    }
    assert forall|q: int| 0 <= q < n && entry_accepted(#[trigger] es[q]) implies represented(
        after,
        es[q]->Ok_0,
    ) by {
        let e = es[q]->Ok_0;
        assert(represented(before, e));
        let k = choose|k: int|
            0 <= k < before.len() && same_content(#[trigger] before[k], e)
                && before[k].corpus_record_index <= e.corpus_record_index;
        let k1 = if k < p { k } else { k + 1 };
        assert(after[k1] == before[k]);
    }
}

/// A copy of an optional text.
fn copy_text(d: &Option<String>) -> (r: Option<String>)
    ensures
        opt_text_eq(r, *d),
{
    match d {
        None => None,
        Some(t) => Some(t.clone()),
    }
}

/// A copy of an optional atmosphere.
fn copy_atmosphere(a: &Option<Atmosphere>) -> (r: Option<Atmosphere>)
    ensures
        same_atmosphere(r, *a),
{
    match a {
        None => None,
        Some(Atmosphere::Air) => Some(Atmosphere::Air),
        Some(Atmosphere::Controlled { description }) => Some(
            Atmosphere::Controlled { description: description.clone() },
        ),
    }
}

/// What an entry reports, as a corpus holds it: the precursors as a set,
/// no heating purpose.
fn copy_observation(o: &CorpusHeatingObservation) -> (r: CorpusHeatingObservation)
    requires
        o.target.wf(),
        forall|j: int| 0 <= j < o.precursors@.len() ==> (#[trigger] o.precursors@[j]).wf(),
    ensures
        r.wf(),
        r.heating_purpose is None,
        same_content(r, *o),
        r.corpus_record_index == o.corpus_record_index,
{
    let r = CorpusHeatingObservation {
        target: o.target.duplicate(),
        precursors: precursor_set(o.precursors.as_slice()),
        route_family: o.route_family,
        heating_purpose: None,
        operation_index: o.operation_index,
        temperature: o.temperature,
        duration: o.duration,
        atmosphere: copy_atmosphere(&o.atmosphere),
        doi: copy_text(&o.doi),
        corpus_record_index: o.corpus_record_index,
    };
    proof {
        reveal(same_content);
    }
    r
}

/// Adds an accepted observation to a corpus in the making: a new content
/// is inserted in key order; a known one keeps the observation from the
/// lower record index.
#[verifier::spinoff_prover]
#[verifier::rlimit(60)]
fn absorb(
    obs: &mut Vec<CorpusHeatingObservation>,
    keys: &mut Vec<Vec<i128>>,
    fresh: CorpusHeatingObservation,
    Ghost(e): Ghost<CorpusHeatingObservation>,
    Ghost(es): Ghost<Seq<Result<CorpusHeatingObservation, String>>>,
    Ghost(n): Ghost<int>,
)
    requires
        corpus_ordered(old(obs)@),
        key_views(old(keys)@) == observation_keys(old(obs)@),
        fresh.wf(),
        fresh.heating_purpose is None,
        same_content(fresh, e),
        fresh.corpus_record_index == e.corpus_record_index,
        drawn_from(fresh, es, n + 1),
        forall|k: int| 0 <= k < old(obs)@.len() ==> drawn_from(#[trigger] old(obs)@[k], es, n),
        forall|q: int|
            0 <= q < n && entry_accepted(#[trigger] es[q]) ==> represented(old(obs)@, es[q]->Ok_0),
    ensures
        corpus_ordered(final(obs)@),
        key_views(final(keys)@) == observation_keys(final(obs)@),
        final(obs)@.len() <= old(obs)@.len() + 1,
        forall|k: int| 0 <= k < final(obs)@.len() ==> drawn_from(#[trigger] final(obs)@[k], es, n + 1),
        forall|q: int|
            0 <= q < n && entry_accepted(#[trigger] es[q]) ==> represented(final(obs)@, es[q]->Ok_0),
        represented(final(obs)@, e),
{
    let key = observation_key_of(&fresh);
    let (p, found) = locate_key(keys, &key);
    let ghost before = obs@;
    proof {
        assert(key_views(keys@).len() == keys@.len());
        assert(observation_keys(before).len() == before.len());
    }
    if found {
        proof {
            assert(keys@[p as int]@ == key@);
            assert(key_views(keys@)[p as int] == keys@[p as int]@);
            assert(observation_keys(before)[p as int] == observation_key(before[p as int]));
            lemma_key_identifies_content(before[p as int], fresh);
        }
        if fresh.corpus_record_index < obs[p].corpus_record_index {
            obs.set(p, fresh);
            proof {
                assert(observation_keys(obs@) =~= observation_keys(before));
                lemma_replace_keeps(before, obs@, p as int, fresh, es, n);
                assert forall|k: int| 0 <= k < obs@.len() implies (#[trigger] obs@[k]).wf()
                    && obs@[k].heating_purpose is None by {
                    if k != p {
                        assert(obs@[k] == before[k]);
                    }
                }
            }
        }
        proof {
            lemma_same_content_trans(obs@[p as int], fresh, e);
            assert(same_content(obs@[p as int], e));
            assert(obs@[p as int].corpus_record_index <= e.corpus_record_index);
        }
    } else {
        let ghost kv = key_views(keys@);
        proof {
            lemma_insert_sorted(kv, p as int, key@);
        }
        keys.insert(p, key);
        obs.insert(p, fresh);
        proof {
            assert(key_views(keys@) =~= kv.insert(p as int, key@));
            assert(observation_keys(obs@) =~= observation_keys(before).insert(p as int, observation_key(fresh)));
            lemma_insert_keeps(before, obs@, p as int, fresh, es, n);
            assert(same_content(obs@[p as int], e));
            assert forall|k: int| 0 <= k < obs@.len() implies (#[trigger] obs@[k]).wf()
                && obs@[k].heating_purpose is None by {
                if k < p {
                    assert(obs@[k] == before[k]);
                } else if k > p {
                    assert(obs@[k] == before[k - 1]);
                }
            }
        }
    }
}

/// What a successful load holds: the manifest; the counts and the
/// refusals in order; one observation per reported content, each drawn from
/// an accepted entry, every accepted entry represented from a record no
/// later than its own; content-key order.
#[verifier::opaque]
pub open spec fn loaded(
    c: LiteratureObservationCorpus,
    rep: LoadReport,
    manifest: CorpusManifest,
    es: Seq<Result<CorpusHeatingObservation, String>>,
) -> bool {
    let rs = rejections(es);
    &&& c.manifest_view() == manifest
    &&& rep.accepted == es.len() - rs.len()
    &&& rep.rejected@.len() == rs.len()
    &&& forall|k: int|
        0 <= k < rs.len() ==> (#[trigger] rep.rejected@[k]).position == rs[k].0
            && rep.rejected@[k].reason@ == rs[k].1
    &&& rep.duplicates_collapsed == rep.accepted - c.held().len()
    &&& corpus_ordered(c.held())
    &&& forall|k: int| 0 <= k < c.held().len() ==> drawn_from(#[trigger] c.held()[k], es, es.len() as int)
    &&& forall|i: int|
        0 <= i < es.len() && entry_accepted(#[trigger] es[i]) ==> represented(c.held(), es[i]->Ok_0)
}

/// A loaded snapshot: its manifest and its observations, deduplicated and
/// ordered by content key.
#[derive(Debug)]
pub struct LiteratureObservationCorpus {
    manifest: CorpusManifest,
    observations: Vec<CorpusHeatingObservation>,
}

impl LiteratureObservationCorpus {
    #[verifier::type_invariant]
    spec fn ordered(self) -> bool {
        corpus_ordered(self.observations@)
    }

    /// The manifest the corpus was loaded with.
    pub closed spec fn manifest_view(self) -> CorpusManifest {
        self.manifest
    }

    /// The observations, in content-key order.
    pub closed spec fn held(self) -> Seq<CorpusHeatingObservation> {
        self.observations@
    }

    /// Builds a corpus from a manifest and its observation entries, each
    /// either parsed or refused by the parser with its reason. The manifest
    /// must carry [`CORPUS_SNAPSHOT_SCHEMA_VERSION`] and declare as many
    /// records as there are entries, in either mode. An entry is refused when
    /// it did not parse or reports a route family other than conventional
    /// solid state: in strict mode the first refusal fails the load, in
    /// lenient mode each is recorded. Observations that report the same
    /// thing are collapsed to the one from the lowest corpus record index,
    /// and the result is ordered by content key, whatever the entry order.
    pub fn from_entries(
        manifest: CorpusManifest,
        entries: Vec<Result<CorpusHeatingObservation, String>>,
        mode: LoadMode,
    ) -> (r: Result<(LiteratureObservationCorpus, LoadReport), ProviderError>)
        requires
            forall|i: int|
                0 <= i < entries@.len() && (#[trigger] entries@[i]) is Ok ==> {
                    let o = entries@[i]->Ok_0;
                    &&& o.target.wf()
                    &&& forall|j: int|
                        0 <= j < o.precursors@.len() ==> (#[trigger] o.precursors@[j]).wf()
                },
        ensures
            ({
                let es = entries@;
                let rs = rejections(es);
                if manifest.schema_version@ != CORPUS_SNAPSHOT_SCHEMA_VERSION@ {
                    r matches Err(ProviderError::MalformedRecord(m)) && m@ == schema_message(
                        manifest.schema_version@,
                    )
                } else if manifest.record_count != es.len() {
                    r matches Err(ProviderError::MalformedRecord(m)) && m@ == count_message(
                        manifest.record_count as nat,
                        es.len(),
                    )
                } else if mode == LoadMode::Strict && rs.len() > 0 {
                    r matches Err(ProviderError::MalformedRecord(m)) && m@ == position_message(
                        rs[0].0 as nat,
                        rs[0].1,
                    )
                } else {
                    r matches Ok((c, rep)) && loaded(c, rep, manifest, es)
                }
            }),
    {
        let ghost es = entries@;
        if !chars_eq(&chars_of(manifest.schema_version.as_str()), CORPUS_SNAPSHOT_SCHEMA_VERSION) {
            let mut m = String::from_str("manifest schema_version \"");
            m.append(manifest.schema_version.as_str());
            m.append("\" is not supported by this gugen version (expects \"gugen-literature-observation-snapshot-v1\")");
            return Err(ProviderError::MalformedRecord(m));
        }
        if manifest.record_count != entries.len() {
            let mut m = String::from_str("manifest declares record_count=");
            append_decimal(&mut m, manifest.record_count as u128);
            m.append(" but the snapshot contains ");
            append_decimal(&mut m, entries.len() as u128);
            m.append(" observation entries");
            return Err(ProviderError::MalformedRecord(m));
        }
        let mut obs: Vec<CorpusHeatingObservation> = Vec::new();
        let mut keys: Vec<Vec<i128>> = Vec::new();
        let mut rejected: Vec<RejectedObservation> = Vec::new();
        let mut accepted: usize = 0;
        let mut i: usize = 0;
        while i < entries.len()
            invariant
                es == entries@,
                manifest.schema_version@ == CORPUS_SNAPSHOT_SCHEMA_VERSION@,
                manifest.record_count == es.len(),
                forall|q: int|
                    0 <= q < es.len() && (#[trigger] es[q]) is Ok ==> {
                        let o = es[q]->Ok_0;
                        &&& o.target.wf()
                        &&& forall|j: int|
                            0 <= j < o.precursors@.len() ==> (#[trigger] o.precursors@[j]).wf()
                    },
                i <= es.len(),
                rejected@.len() == rejections(es.take(i as int)).len(),
                forall|k: int|
                    0 <= k < rejected@.len() ==> (#[trigger] rejected@[k]).position
                        == rejections(es.take(i as int))[k].0 && rejected@[k].reason@
                        == rejections(es.take(i as int))[k].1,
                mode == LoadMode::Strict ==> rejected@.len() == 0,
                accepted + rejected@.len() == i,
                obs@.len() <= accepted,
                corpus_ordered(obs@),
                key_views(keys@) == observation_keys(obs@),
                forall|k: int| 0 <= k < obs@.len() ==> drawn_from(#[trigger] obs@[k], es, i as int),
                forall|q: int|
                    0 <= q < i && entry_accepted(#[trigger] es[q]) ==> represented(obs@, es[q]->Ok_0),
            decreases es.len() - i,
        {
            proof {
                assert(es.take(i + 1).drop_last() =~= es.take(i as int));
                assert(es.take(i + 1).last() == es[i as int]);
            }
            let refusal: Option<String> = match &entries[i] {
                Err(m) => Some(m.clone()),
                Ok(o) => match o.route_family {
                    RouteFamily::ConventionalSolidState => None,
                    RouteFamily::Mechanochemical => Some(String::from_str(ROUTE_REFUSED)),
                },
            };
            match refusal {
                Some(reason) => {
                    if let LoadMode::Strict = mode {
                        proof {
                            assert(rejections(es.take(i as int)).len() == 0);
                            assert(rejections(es.take(i + 1))[0] == (i as int, reason@));
                            lemma_first_rejection(es, i as int);
                        }
                        let mut m = String::from_str("observation at position ");
                        append_decimal(&mut m, i as u128);
                        m.append(": ");
                        m.append(reason.as_str());
                        return Err(ProviderError::MalformedRecord(m));
                    }
                    rejected.push(RejectedObservation { position: i, reason });
                },
                None => {
                    let o = match &entries[i] {
                        Ok(o) => o,
                        Err(_) => { proof { assert(false); } return Err(ProviderError::MissingEntry); },
                    };
                    let fresh = copy_observation(o);
                    let ghost e = *o;
                    proof {
                        assert(entry_accepted(es[i as int]));
                        assert(drawn_from(fresh, es, i + 1));
                    }
                    absorb(&mut obs, &mut keys, fresh, Ghost(e), Ghost(es), Ghost(i as int));
                    accepted = accepted + 1;
                },
            }
            i = i + 1;
        }
        proof {
            assert(es.take(i as int) =~= es);
        }
        proof {
            reveal(loaded);
        }
        let corpus = LiteratureObservationCorpus { manifest, observations: obs };
        let report = LoadReport {
            accepted,
            duplicates_collapsed: accepted - corpus.observations.len(),
            rejected,
        };
        Ok((corpus, report))
    }
}


/// The observations of `s` that report exactly `target` from exactly the
/// set of precursors `query`, in order.
pub open spec fn matching_observations(
    s: Seq<CorpusHeatingObservation>,
    target: Composition,
    query: Seq<Composition>,
) -> Seq<CorpusHeatingObservation>
    decreases s.len(),
{
    if s.len() == 0 {
        Seq::empty()
    } else {
        let rest = matching_observations(s.drop_last(), target, query);
        if s.last().target.listing() == target.listing() && listing_set(s.last().precursors@)
            == listing_set(query) {
            rest.push(s.last())
        } else {
            rest
        }
    }
}

/// The observations a query finds are exactly the held ones with the same
/// target and the same set of precursors.
pub proof fn lemma_matching_observations_members(
    s: Seq<CorpusHeatingObservation>,
    target: Composition,
    query: Seq<Composition>,
)
    ensures
        forall|o: CorpusHeatingObservation|
            #[trigger] matching_observations(s, target, query).contains(o) <==> (s.contains(o)
                && o.target.listing() == target.listing() && listing_set(o.precursors@) == listing_set(query)),
    decreases s.len(),
{
    if s.len() > 0 {
        let t = s.drop_last();
        lemma_matching_observations_members(t, target, query);
        assert forall|o: CorpusHeatingObservation|
            #[trigger] matching_observations(s, target, query).contains(o) <==> (s.contains(o)
                && o.target.listing() == target.listing() && listing_set(o.precursors@) == listing_set(query)) by {
            let mt = matching_observations(t, target, query);
            let ms = matching_observations(s, target, query);
            if mt.contains(o) {
                let j = choose|j: int| 0 <= j < mt.len() && mt[j] == o;
                assert(ms[j] == o);
                let i = choose|i: int| 0 <= i < t.len() && t[i] == o;
                assert(s[i] == o);
            }
            if s.contains(o) && o.target.listing() == target.listing() && listing_set(o.precursors@)
                == listing_set(query) {
                let i = choose|i: int| 0 <= i < s.len() && s[i] == o;
                if i < t.len() {
                    assert(t[i] == o);
                    assert(t.contains(o));
                } else {
                    assert(ms[ms.len() - 1] == o);
                }
            }
            if ms.contains(o) && !mt.contains(o) {
                let j = choose|j: int| 0 <= j < ms.len() && ms[j] == o;
                if j < mt.len() {
                    assert(ms[j] == mt[j]);
                }
                assert(s[s.len() - 1] == o);
            }
        }
    }
}

/// The key of each composition of a list.
fn keys_of(ps: &Vec<Composition>) -> (r: Vec<Vec<i128>>)
    requires
        forall|i: int| 0 <= i < ps@.len() ==> (#[trigger] ps@[i]).wf(),
    ensures
        key_views(r@) == composition_keys(ps@),
{
    let mut out: Vec<Vec<i128>> = Vec::new();
    let mut i: usize = 0;
    while i < ps.len()
        invariant
            forall|j: int| 0 <= j < ps@.len() ==> (#[trigger] ps@[j]).wf(),
            i <= ps@.len(),
            key_views(out@) == composition_keys(ps@.take(i as int)),
        decreases ps@.len() - i,
    {
        let k = composition_key_of(&ps[i]);
        let ghost before = out@;
        out.push(k);
        assert(key_views(out@) =~= key_views(before).push(k@));
        assert(composition_keys(ps@.take(i + 1)) =~= composition_keys(ps@.take(i as int)).push(
            composition_key(ps@[i as int]),
        ));
        i = i + 1;
    }
    assert(ps@.take(i as int) =~= ps@);
    out
}

/// Whether two lists of keys are equal.
fn key_lists_same(a: &Vec<Vec<i128>>, b: &Vec<Vec<i128>>) -> (r: bool)
    ensures
        r == (key_views(a@) == key_views(b@)),
{
    if a.len() != b.len() {
        assert(key_views(a@).len() != key_views(b@).len());
        return false;
    }
    let mut i: usize = 0;
    while i < a.len()
        invariant
            a@.len() == b@.len(),
            i <= a@.len(),
            forall|k: int| 0 <= k < i ==> a@[k]@ == b@[k]@,
        decreases a@.len() - i,
    {
        if !key_same(&a[i], &b[i]) {
            assert(key_views(a@)[i as int] != key_views(b@)[i as int]);
            return false;
        }
        i = i + 1;
    }
    assert(key_views(a@) =~= key_views(b@));
    true
}

impl LiteratureObservationCorpus {
    /// The manifest the corpus was loaded with.
    pub fn manifest(&self) -> (r: &CorpusManifest)
        ensures
            *r == self.manifest_view(),
    {
        &self.manifest
    }

    /// Every observation, in content-key order.
    pub fn observations(&self) -> (r: &[CorpusHeatingObservation])
        ensures
            r@ == self.held(),
    {
        self.observations.as_slice()
    }

    /// The number of observations.
    pub fn len(&self) -> (r: usize)
        ensures
            r == self.held().len(),
    {
        self.observations.len()
    }

    /// Whether the corpus holds no observation.
    pub fn is_empty(&self) -> (r: bool)
        ensures
            r == (self.held().len() == 0),
    {
        self.observations.len() == 0
    }

    /// Every observation reporting exactly `target` from exactly the set of
    /// `precursors` (in any order, each counted once), in corpus order. The
    /// corpus holds conventional solid-state reports only, so any other
    /// route family finds nothing.
    pub fn find_exact(
        &self,
        route_family: RouteFamily,
        target: &Composition,
        precursors: &[Composition],
    ) -> (r: Vec<&CorpusHeatingObservation>)
        requires
            target.wf(),
            forall|i: int| 0 <= i < precursors@.len() ==> (#[trigger] precursors@[i]).wf(),
        ensures
            route_family != RouteFamily::ConventionalSolidState ==> r@.len() == 0,
            route_family == RouteFamily::ConventionalSolidState ==> {
                let m = matching_observations(self.held(), *target, precursors@);
                &&& r@.len() == m.len()
                &&& forall|i: int| 0 <= i < r@.len() ==> *r@[i] == m[i]
            },
    {
        let mut out: Vec<&CorpusHeatingObservation> = Vec::new();
        if let RouteFamily::Mechanochemical = route_family {
            return out;
        }
        proof {
            use_type_invariant(self);
        }
        let set = precursor_set(precursors);
        let query = keys_of(&set);
        let held = &self.observations;
        let mut i: usize = 0;
        while i < held.len()
            invariant
                i <= held@.len(),
                held@ == self.held(),
                corpus_ordered(held@),
                target.wf(),
                canonical_precursors(set@),
                listing_set(set@) == listing_set(precursors@),
                key_views(query@) == composition_keys(set@),
                out@.len() == matching_observations(held@.take(i as int), *target, precursors@).len(),
                forall|j: int|
                    0 <= j < out@.len() ==> *out@[j] == matching_observations(
                        held@.take(i as int),
                        *target,
                        precursors@,
                    )[j],
            decreases held@.len() - i,
        {
            let o = &held[i];
            assert(o.wf());
            let same_target = o.target.same_as(target);
            let same_set = if same_target {
                let ks = keys_of(&o.precursors);
                key_lists_same(&ks, &query)
            } else {
                false
            };
            proof {
                lemma_precursor_sets(o.precursors@, set@);
                assert(held@.take(i + 1).drop_last() =~= held@.take(i as int));
                assert(held@.take(i + 1).last() == held@[i as int]);
            }
            if same_target && same_set {
                out.push(o);
            }
            i = i + 1;
        }
        proof {
            assert(held@.take(i as int) =~= held@);
        }
        out
    }
}


/// A load holds its observations as a corpus does.
proof fn lemma_loaded_ordered(
    c: LiteratureObservationCorpus,
    rep: LoadReport,
    m: CorpusManifest,
    es: Seq<Result<CorpusHeatingObservation, String>>,
)
    requires
        loaded(c, rep, m, es),
    ensures
        corpus_ordered(c.held()),
{
    reveal(loaded);
}

/// In a corpus, an observation with the same key as another is that one.
proof fn lemma_key_position(s: Seq<CorpusHeatingObservation>, a: int, b: int)
    requires
        corpus_ordered(s),
        0 <= a < s.len(),
        0 <= b < s.len(),
        observation_key(s[a]) == observation_key(s[b]),
    ensures
        a == b,
{
    let ks = observation_keys(s);
    assert(ks[a] == ks[b]);
    lemma_key_lt_asym(ks[a], ks[a]);
    if a < b {
        assert(key_lt(ks[a], ks[b]));
    } else if b < a {
        assert(key_lt(ks[b], ks[a]));
    }
}

/// One direction of [`lemma_load_order_independent`]: every observation of
/// the first load has the same key as one of the second, from a record no
/// earlier.
proof fn lemma_load_covers(
    c1: LiteratureObservationCorpus,
    r1: LoadReport,
    c2: LiteratureObservationCorpus,
    r2: LoadReport,
    m1: CorpusManifest,
    m2: CorpusManifest,
    es1: Seq<Result<CorpusHeatingObservation, String>>,
    es2: Seq<Result<CorpusHeatingObservation, String>>,
    a: int,
) -> (b: int)
    requires
        loaded(c1, r1, m1, es1),
        loaded(c2, r2, m2, es2),
        forall|i: int|
            0 <= i < es1.len() && entry_accepted(#[trigger] es1[i]) ==> exists|j: int|
                0 <= j < es2.len() && #[trigger] es2[j] == es1[i],
        0 <= a < c1.held().len(),
    ensures
        0 <= b < c2.held().len(),
        observation_key(c2.held()[b]) == observation_key(c1.held()[a]),
        c2.held()[b].corpus_record_index <= c1.held()[a].corpus_record_index,
{
    reveal(loaded);
    let h1 = c1.held();
    let h2 = c2.held();
    let o = h1[a];
    assert(drawn_from(o, es1, es1.len() as int));
    let i = choose|i: int|
        0 <= i < es1.len() && entry_accepted(#[trigger] es1[i]) && same_content(o, es1[i]->Ok_0)
            && o.corpus_record_index == es1[i]->Ok_0.corpus_record_index;
    let j = choose|j: int| 0 <= j < es2.len() && #[trigger] es2[j] == es1[i];
    assert(entry_accepted(es2[j]));
    let e = es2[j]->Ok_0;
    assert(represented(h2, e));
    let b = choose|b: int|
        0 <= b < h2.len() && same_content(#[trigger] h2[b], e) && h2[b].corpus_record_index
            <= e.corpus_record_index;
    lemma_same_content_trans(h2[b], e, o);
    lemma_same_content_trans(o, e, h2[b]);
    lemma_key_identifies_content(h2[b], o);
    b
}

/// Loading does not depend on the order of the entries: two loads whose
/// accepted entries are the same entries, in any order, hold observations
/// with the same content keys from the same records, position by position.
pub proof fn lemma_load_order_independent(
    c1: LiteratureObservationCorpus,
    r1: LoadReport,
    c2: LiteratureObservationCorpus,
    r2: LoadReport,
    m1: CorpusManifest,
    m2: CorpusManifest,
    es1: Seq<Result<CorpusHeatingObservation, String>>,
    es2: Seq<Result<CorpusHeatingObservation, String>>,
)
    requires
        loaded(c1, r1, m1, es1),
        loaded(c2, r2, m2, es2),
        forall|i: int|
            0 <= i < es1.len() && entry_accepted(#[trigger] es1[i]) ==> exists|j: int|
                0 <= j < es2.len() && #[trigger] es2[j] == es1[i],
        forall|j: int|
            0 <= j < es2.len() && entry_accepted(#[trigger] es2[j]) ==> exists|i: int|
                0 <= i < es1.len() && #[trigger] es1[i] == es2[j],
    ensures
        observation_keys(c1.held()) == observation_keys(c2.held()),
        forall|k: int|
            0 <= k < c1.held().len() ==> (#[trigger] c1.held()[k]).corpus_record_index
                == c2.held()[k].corpus_record_index,
{
    let h1 = c1.held();
    let h2 = c2.held();
    let k1 = observation_keys(h1);
    let k2 = observation_keys(h2);
    lemma_loaded_ordered(c1, r1, m1, es1);
    lemma_loaded_ordered(c2, r2, m2, es2);
    assert forall|x: Seq<i128>| k1.contains(x) <==> k2.contains(x) by {
        if k1.contains(x) {
            let a = choose|a: int| 0 <= a < k1.len() && k1[a] == x;
            let b = lemma_load_covers(c1, r1, c2, r2, m1, m2, es1, es2, a);
            assert(k2[b] == x);
        }
        if k2.contains(x) {
            let b = choose|b: int| 0 <= b < k2.len() && k2[b] == x;
            let a = lemma_load_covers(c2, r2, c1, r1, m2, m1, es2, es1, b);
            assert(k1[a] == x);
        }
    }
    lemma_sorted_unique(k1, k2);
    assert forall|k: int| 0 <= k < h1.len() implies (#[trigger] h1[k]).corpus_record_index
        == h2[k].corpus_record_index by {
        assert(k1[k] == k2[k]);
        let b = lemma_load_covers(c1, r1, c2, r2, m1, m2, es1, es2, k);
        assert(k2[b] == k1[k]);
        lemma_key_position(h2, b, k);
        let a = lemma_load_covers(c2, r2, c1, r1, m2, m1, es2, es1, k);
        assert(k1[a] == k2[k]);
        lemma_key_position(h1, a, k);
    }
}

} // verus!
