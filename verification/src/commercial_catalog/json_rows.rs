//! Catalog loading from the entries of a JSON catalog file: each entry's
//! fields validated into an offer, duplicate identifiers rejected, and the
//! strict and lenient load modes, funnelling into
//! `CommercialPrecursorCatalog::from_offers`.

use crate::commercial_catalog::fields::{decimal_reading, parse_decimal};
use crate::commercial_catalog::formula::{formula_amounts, parse_formula};
use crate::commercial_catalog::loader::{
    add_tag, assemble, catalog_of, contains_id, first_fault, formula_refused, insert_tag,
    is_strict, lemma_assemble_outs, opt_text, reject, rejection_message, rejection_view,
    rejection_views, validate_particle_size, validate_price, value_text,
};
use crate::commercial_catalog::model::{
    availability_named, cas_valid, compositions_wf, is_currency_code, offer_key, parse_availability,
    parse_source_type, source_type_named, AvailabilityStatus, CasNumber, CommercialCatalogLoadMode,
    CommercialCatalogLoadReport, CommercialOfferId, CommercialPrecursorCatalog,
    CommercialPrecursorOffer, CurrencyCode, Money, OfferProvenance, PackageMass,
    ParticleSizeRangeUm, PurityFraction, RejectedOffer,
};
use crate::commercial_catalog::ranking::texts;
use crate::composition::Element;
use crate::error::ProviderError;
use crate::frac::Frac;
use crate::text::{chars_of, trimmed};
use vstd::prelude::*;
use vstd::string::StringExecFns;

verus! {

/// One offer entry of a JSON catalog, each field as the entry gave it;
/// decimal fields as decimal text, and the whole entry as JSON text.
pub struct RawOffer {
    pub offer_id: String,
    pub manufacturer: String,
    pub product_name: String,
    pub formula: String,
    pub source_type: String,
    pub source_identifier: Option<String>,
    pub catalog_number: Option<String>,
    pub cas_number: Option<String>,
    pub grade: Option<String>,
    pub purity: Option<String>,
    pub package_mass_g: Option<String>,
    pub price_minor_units: Option<u64>,
    pub currency: Option<String>,
    pub availability: Option<String>,
    pub lead_time_days: Option<u32>,
    pub physical_form: Option<String>,
    pub particle_size_min_um: Option<String>,
    pub particle_size_max_um: Option<String>,
    pub country_region: Option<String>,
    pub product_url: Option<String>,
    pub retrieved_at: Option<String>,
    pub tags: Option<Vec<String>>,
    pub notes: Option<String>,
    pub original: String,
}

/// The set of the texts, in increasing order.
pub open spec fn text_set(s: Seq<Seq<char>>) -> Seq<Seq<char>>
    decreases s.len(),
{
    if s.len() == 0 {
        Seq::empty()
    } else {
        insert_tag(text_set(s.drop_last()), s.last())
    }
}

/// The fault of a purity that is no decimal or lies outside `(0, 1]`: the
/// entry as a whole is refused.
pub open spec fn raw_purity_fault(raw: RawOffer) -> Option<(Seq<char>, Seq<char>, Seq<char>)> {
    match raw.purity {
        Some(t) => match decimal_reading(t@) {
            Err(w) => Some(("row"@, w, raw.original@)),
            Ok(q) => if 0 < q.0 <= q.1 {
                None
            } else {
                Some(("row"@, value_text("purity fraction must be > 0 and <= 1, got "@, q), raw.original@))
            },
        },
        None => None,
    }
}

/// The fault of an unrecognized source type.
pub open spec fn raw_source_fault(raw: RawOffer) -> Option<(Seq<char>, Seq<char>, Seq<char>)> {
    let s = raw.source_type@;
    if source_type_named(s) is None {
        Some(("source_type"@, "'"@ + s + "' is not a recognized source type"@, s))
    } else {
        None
    }
}

/// The fault of a malformed currency code.
pub open spec fn raw_currency_fault(raw: RawOffer) -> Option<(Seq<char>, Seq<char>, Seq<char>)> {
    match raw.currency {
        Some(c) => if is_currency_code(c@) {
            None
        } else {
            Some(("currency"@, "\""@ + c@ + "\" is not a 3-letter uppercase ASCII currency code"@, c@))
        },
        None => None,
    }
}

/// The fault of a price without a currency or a currency without a price.
pub open spec fn raw_pairing_fault(raw: RawOffer) -> Option<(Seq<char>, Seq<char>, Seq<char>)> {
    match (raw.price_minor_units, raw.currency) {
        (Some(_), None) => Some(("price_minor_units"@, "price_minor_units present without currency"@, Seq::empty())),
        (None, Some(_)) => Some(("price_minor_units"@, "currency present without price_minor_units"@, Seq::empty())),
        _ => None,
    }
}

/// The fault of an unrecognized availability status.
pub open spec fn raw_availability_fault(raw: RawOffer) -> Option<(Seq<char>, Seq<char>, Seq<char>)> {
    match raw.availability {
        Some(a) => if availability_named(a@) is None {
            Some(("availability"@, "'"@ + a@ + "' is not a recognized availability status"@, a@))
        } else {
            None
        },
        None => None,
    }
}

/// The fault of a decimal field that is no decimal this catalog reads.
pub open spec fn raw_decimal_fault(t: Option<String>, name: Seq<char>) -> Option<(Seq<char>, Seq<char>, Seq<char>)> {
    match t {
        Some(s) => match decimal_reading(s@) {
            Err(w) => Some((name, w, s@)),
            Ok(_) => None,
        },
        None => None,
    }
}

/// The fault of a particle-size range given by one end only, or with a
/// negative or inverted pair of ends.
pub open spec fn raw_range_fault(raw: RawOffer) -> Option<(Seq<char>, Seq<char>, Seq<char>)> {
    let prefix = "particle size range invalid: "@;
    match (raw.particle_size_min_um, raw.particle_size_max_um) {
        (Some(_), None) => Some(("particle_size_min_um"@, prefix + "particle_size_min_um present without particle_size_max_um"@, Seq::empty())),
        (None, Some(_)) => Some(("particle_size_min_um"@, prefix + "particle_size_max_um present without particle_size_min_um"@, Seq::empty())),
        (Some(a), Some(b)) => match (decimal_reading(a@), decimal_reading(b@)) {
            (Ok(qa), Ok(qb)) => if qa.0 < 0 {
                Some(("particle_size_min_um"@, prefix + "min_um must be >= 0"@, Seq::empty()))
            } else if qa.0 * qb.1 > qb.0 * qa.1 {
                Some(("particle_size_min_um"@, prefix + "min_um must be <= max_um"@, Seq::empty()))
            } else {
                None
            },
            _ => None,
        },
        (None, None) => None,
    }
}

/// The fault of a package mass that is no decimal or not positive.
pub open spec fn raw_mass_fault(raw: RawOffer) -> Option<(Seq<char>, Seq<char>, Seq<char>)> {
    match raw.package_mass_g {
        Some(t) => match decimal_reading(t@) {
            Err(w) => Some(("package_mass_g"@, w, t@)),
            Ok(q) => if q.0 > 0 {
                None
            } else {
                Some(("package_mass_g"@, value_text("package mass must be finite and > 0 grams, got "@, q), t@))
            },
        },
        None => None,
    }
}

/// The first fault after the formula, in the order the fields are checked.
pub open spec fn raw_later_fault(raw: RawOffer) -> Option<(Seq<char>, Seq<char>, Seq<char>)> {
    first_fault(raw_source_fault(raw),
    first_fault(raw_currency_fault(raw),
    first_fault(raw_pairing_fault(raw),
    first_fault(raw_availability_fault(raw),
    first_fault(raw_decimal_fault(raw.particle_size_min_um, "particle_size_min_um"@),
    first_fault(raw_decimal_fault(raw.particle_size_max_um, "particle_size_max_um"@),
    first_fault(raw_range_fault(raw), raw_mass_fault(raw))))))))
}

/// `j` rejects entry `row` for `fault`, naming the entry's offer
/// identifier.
pub open spec fn raw_rejects_for(j: RejectedOffer, row: usize, raw: RawOffer, fault: (Seq<char>, Seq<char>, Seq<char>)) -> bool {
    &&& j.row == row
    &&& j.offer_id@ == raw.offer_id@
    &&& j.field@ == fault.0
    &&& j.reason@ == fault.1
    &&& j.original_value@ == fault.2
}

/// `o` is the offer the entry describes.
pub open spec fn offer_of_raw(o: CommercialPrecursorOffer, raw: RawOffer) -> bool {
    &&& o.offer_id.0@ == raw.offer_id@
    &&& o.manufacturer@ == raw.manufacturer@
    &&& o.product_name@ == raw.product_name@
    &&& o.formula@ == raw.formula@
    &&& o.composition.wf()
    &&& (formula_amounts(trimmed(o.formula@)) matches Some(m) && o.composition@.dom() == m.dom()
        && forall|e: Element| #[trigger] o.composition@.contains_key(e) ==> o.composition@[e]@ == m[e])
    &&& Some(o.provenance.source_type) == source_type_named(raw.source_type@)
    &&& o.provenance.source_identifier@ == (match raw.source_identifier {
        Some(s) => s@,
        None => raw.offer_id@,
    })
    &&& opt_text(o.provenance.retrieved_at) == opt_text(raw.retrieved_at)
    &&& o.provenance.supplied_by is None
    &&& o.provenance.license_or_terms is None
    &&& o.provenance.checksum is None
    &&& opt_text(o.catalog_number) == opt_text(raw.catalog_number)
    &&& (o.cas_number is None <==> raw.cas_number is None)
    &&& (o.cas_number matches Some(n) ==> n.raw@ == raw.cas_number->0@ && n.checksum_verified == cas_valid(n.raw@))
    &&& opt_text(o.grade) == opt_text(raw.grade)
    &&& (o.purity is None <==> raw.purity is None)
    &&& (o.purity matches Some(p) ==> decimal_reading(raw.purity->0@) == Ok::<(int, int), Seq<char>>(p.fraction()@))
    &&& (o.package_mass is None <==> raw.package_mass_g is None)
    &&& (o.package_mass matches Some(p) ==> decimal_reading(raw.package_mass_g->0@) == Ok::<(int, int), Seq<char>>(p.in_grams()@))
    &&& (o.unit_price is None <==> raw.price_minor_units is None)
    &&& (o.unit_price matches Some(m) ==> Some(m.units()) == raw.price_minor_units && m.code().letters() == raw.currency->0@)
    &&& (o.availability is None <==> raw.availability is None)
    &&& (o.availability matches Some(a) ==> availability_named(raw.availability->0@) == Some(a))
    &&& o.lead_time_days == raw.lead_time_days
    &&& opt_text(o.physical_form) == opt_text(raw.physical_form)
    &&& (o.particle_size_range_um is None <==> raw.particle_size_min_um is None)
    &&& (o.particle_size_range_um matches Some(r) ==> decimal_reading(raw.particle_size_min_um->0@) == Ok::<(int, int), Seq<char>>(r.low()@)
        && decimal_reading(raw.particle_size_max_um->0@) == Ok::<(int, int), Seq<char>>(r.high()@))
    &&& opt_text(o.country_region) == opt_text(raw.country_region)
    &&& opt_text(o.product_url) == opt_text(raw.product_url)
    &&& texts(o.tags@) == (match raw.tags {
        Some(v) => text_set(texts(v@)),
        None => Seq::empty(),
    })
    &&& opt_text(o.notes) == opt_text(raw.notes)
}

/// What converting entry `row` may give: the rejection of the entry as a
/// whole for its purity; otherwise a rejection of the formula exactly when
/// [`parse_formula`](crate::commercial_catalog::formula::parse_formula)
/// refuses it ([`formula_refused`]); otherwise the rejection for the first
/// later fault, or the offer it describes.
pub open spec fn raw_verdict(r: Result<CommercialPrecursorOffer, RejectedOffer>, row: usize, raw: RawOffer) -> bool {
    let formula_rejected = r matches Err(j) && j.row == row && j.offer_id@ == raw.offer_id@ && j.field@ == "formula"@
        && j.original_value@ == raw.formula@;
    match raw_purity_fault(raw) {
        Some(x) => r matches Err(j) && raw_rejects_for(j, row, raw, x),
        None => if formula_refused(raw.formula@) {
            formula_rejected
        } else {
            match raw_later_fault(raw) {
                Some(x) => r matches Err(j) && raw_rejects_for(j, row, raw, x),
                None => r matches Ok(o) && offer_of_raw(o, raw),
            }
        },
    }
}

/// A decimal field, or the rejection of text that is no decimal this
/// catalog reads.
fn raw_decimal(t: &Option<String>, row: usize, id: &String, name: &str) -> (r: Result<Option<Frac>, RejectedOffer>)
    ensures
        r is Err <==> raw_decimal_fault(*t, name@) is Some,
        r matches Err(j) ==> j.row == row && j.offer_id@ == id@ && (j.field@, j.reason@, j.original_value@) == raw_decimal_fault(*t, name@)->0,
        r matches Ok(None) ==> t is None,
        r matches Ok(Some(f)) ==> t is Some && f.wf() && decimal_reading(t->0@) == Ok::<(int, int), Seq<char>>(f@),
{
    match t {
        None => Ok(None),
        Some(s) => match parse_decimal(&chars_of(s.as_str())) {
            Ok(f) => Ok(Some(f)),
            Err(w) => Err(reject(row, id, name, w, s.clone())),
        },
    }
}

/// The set of a list of texts, in increasing order.
fn text_set_of(v: &Vec<String>) -> (r: Vec<String>)
    ensures
        texts(r@) == text_set(texts(v@)),
{
    let mut out: Vec<String> = Vec::new();
    let mut i: usize = 0;
    assert(texts(v@).take(0) =~= Seq::<Seq<char>>::empty());
    while i < v.len()
        invariant
            i <= v@.len(),
            texts(out@) == text_set(texts(v@).take(i as int)),
        decreases v@.len() - i,
    {
        add_tag(&mut out, v[i].clone());
        assert(texts(v@).take(i + 1).drop_last() =~= texts(v@).take(i as int));
        assert(texts(v@).take(i + 1).last() == v@[i as int]@);
        i = i + 1;
    }
    assert(texts(v@).take(i as int) =~= texts(v@));
    out
}

/// The fields of an entry after its formula and source type, checked in
/// the order [`raw_later_fault`] gives.
struct RawDetails {
    currency: Option<CurrencyCode>,
    unit_price: Option<Money>,
    availability: Option<AvailabilityStatus>,
    particle: Option<ParticleSizeRangeUm>,
    package_mass: Option<PackageMass>,
}

fn raw_details(raw: &RawOffer, row: usize) -> (r: Result<RawDetails, RejectedOffer>)
    requires
        raw_source_fault(*raw) is None,
    ensures
        r is Err <==> raw_later_fault(*raw) is Some,
        r matches Err(j) ==> raw_rejects_for(j, row, *raw, raw_later_fault(*raw)->0),
        r matches Ok(d) ==> {
            &&& (d.unit_price is None <==> raw.price_minor_units is None)
            &&& (d.unit_price matches Some(m) ==> Some(m.units()) == raw.price_minor_units && m.code().letters() == raw.currency->0@)
            &&& (d.availability is None <==> raw.availability is None)
            &&& (d.availability matches Some(a) ==> availability_named(raw.availability->0@) == Some(a))
            &&& (d.particle is None <==> raw.particle_size_min_um is None)
            &&& (d.particle matches Some(p) ==> decimal_reading(raw.particle_size_min_um->0@) == Ok::<(int, int), Seq<char>>(p.low()@)
                && decimal_reading(raw.particle_size_max_um->0@) == Ok::<(int, int), Seq<char>>(p.high()@))
            &&& (d.package_mass is None <==> raw.package_mass_g is None)
            &&& (d.package_mass matches Some(p) ==> decimal_reading(raw.package_mass_g->0@) == Ok::<(int, int), Seq<char>>(p.in_grams()@))
        },
{
    let id = &raw.offer_id;
    let currency = match &raw.currency {
        None => None,
        Some(s) => match CurrencyCode::new(s.as_str()) {
            Ok(c) => Some(c),
            Err(e) => return Err(reject(row, id, "currency", e.message(), s.clone())),
        },
    };
    let unit_price = match validate_price(raw.price_minor_units, currency) {
        Ok(p) => p,
        Err(reason) => return Err(reject(row, id, "price_minor_units", reason, String::new())),
    };
    let availability = match &raw.availability {
        None => None,
        Some(s) => match parse_availability(s.as_str()) {
            Some(a) => Some(a),
            None => {
                let mut reason = String::from_str("'");
                reason.append(s.as_str());
                reason.append("' is not a recognized availability status");
                return Err(reject(row, id, "availability", reason, s.clone()));
            },
        },
    };
    let min_um = match raw_decimal(&raw.particle_size_min_um, row, id, "particle_size_min_um") {
        Ok(x) => x,
        Err(j) => return Err(j),
    };
    let max_um = match raw_decimal(&raw.particle_size_max_um, row, id, "particle_size_max_um") {
        Ok(x) => x,
        Err(j) => return Err(j),
    };
    let particle = match validate_particle_size(min_um, max_um) {
        Ok(p) => p,
        Err(e) => return Err(reject(row, id, "particle_size_min_um", e.message(), String::new())),
    };
    let package_mass = match &raw.package_mass_g {
        None => None,
        Some(s) => match parse_decimal(&chars_of(s.as_str())) {
            Err(w) => return Err(reject(row, id, "package_mass_g", w, s.clone())),
            Ok(f) => match PackageMass::new(f) {
                Ok(p) => Some(p),
                Err(e) => {
                    proof {
                        f.lemma_view_bounds();
                    }
                    return Err(reject(row, id, "package_mass_g", e.message(), s.clone()));
                },
            },
        },
    };
    Ok(RawDetails { currency, unit_price, availability, particle, package_mass })
}

fn optional_copy(o: &Option<String>) -> (r: Option<String>)
    ensures
        opt_text(r) == opt_text(*o),
{
    match o {
        Some(s) => Some(s.clone()),
        None => None,
    }
}

/// Validates one entry (`row`, its position in the catalog's entries)
/// into an offer, or rejects it naming the field at fault, as
/// [`raw_verdict`] says.
pub fn offer_from_raw(raw: &RawOffer, row: usize) -> (r: Result<CommercialPrecursorOffer, RejectedOffer>)
    ensures
        raw_verdict(r, row, *raw),
{
    let id = &raw.offer_id;
    let purity = match &raw.purity {
        None => None,
        Some(s) => match parse_decimal(&chars_of(s.as_str())) {
            Err(w) => return Err(reject(row, id, "row", w, raw.original.clone())),
            Ok(f) => match PurityFraction::new(f) {
                Ok(p) => Some(p),
                Err(e) => {
                    proof {
                        f.lemma_view_bounds();
                    }
                    return Err(reject(row, id, "row", e.message(), raw.original.clone()));
                },
            },
        },
    };
    let composition = match parse_formula(raw.formula.as_str()) {
        Ok(c) => c,
        Err(e) => return Err(reject(row, id, "formula", e.message(), raw.formula.clone())),
    };
    let source_type = match parse_source_type(raw.source_type.as_str()) {
        Some(t) => t,
        None => {
            let mut reason = String::from_str("'");
            reason.append(raw.source_type.as_str());
            reason.append("' is not a recognized source type");
            return Err(reject(row, id, "source_type", reason, raw.source_type.clone()));
        },
    };
    let details = match raw_details(raw, row) {
        Ok(d) => d,
        Err(j) => return Err(j),
    };
    let tags = match &raw.tags {
        Some(v) => text_set_of(v),
        None => Vec::new(),
    };
    let source_identifier = match &raw.source_identifier {
        Some(s) => s.clone(),
        None => raw.offer_id.clone(),
    };
    let cas_number = match &raw.cas_number {
        Some(s) => Some(CasNumber::new(s.as_str())),
        None => None,
    };
    let offer = CommercialPrecursorOffer {
        offer_id: CommercialOfferId(raw.offer_id.clone()),
        manufacturer: raw.manufacturer.clone(),
        product_name: raw.product_name.clone(),
        composition,
        provenance: OfferProvenance {
            source_type,
            source_identifier,
            retrieved_at: optional_copy(&raw.retrieved_at),
            supplied_by: None,
            license_or_terms: None,
            checksum: None,
        },
        formula: raw.formula.clone(),
        catalog_number: optional_copy(&raw.catalog_number),
        cas_number,
        grade: optional_copy(&raw.grade),
        purity,
        package_mass: details.package_mass,
        unit_price: details.unit_price,
        availability: details.availability,
        lead_time_days: raw.lead_time_days,
        physical_form: optional_copy(&raw.physical_form),
        particle_size_range_um: details.particle,
        country_region: optional_copy(&raw.country_region),
        product_url: optional_copy(&raw.product_url),
        tags,
        notes: optional_copy(&raw.notes),
    };
    assert(!formula_refused(raw.formula@));
    assert(raw_later_fault(*raw) is None);
    assert(offer.composition.wf());
    assert(formula_amounts(trimmed(offer.formula@)) matches Some(m) && offer.composition@.dom() == m.dom()
        && forall|e: Element| #[trigger] offer.composition@.contains_key(e) ==> offer.composition@[e]@ == m[e]);
    assert(offer.provenance.source_identifier@ == (match raw.source_identifier {
        Some(s) => s@,
        None => raw.offer_id@,
    }));
    assert(offer.purity matches Some(p) ==> decimal_reading(raw.purity->0@) == Ok::<(int, int), Seq<char>>(p.fraction()@));
    assert(texts(offer.tags@) == (match raw.tags {
        Some(v) => text_set(texts(v@)),
        None => Seq::empty(),
    }));
    assert(offer_of_raw(offer, *raw));
    Ok(offer)
}

/// `n` records, each read (a JSON load refuses no record itself: an
/// entry that does not deserialize comes as its rejection).
pub open spec fn entry_records(n: int) -> Seq<Result<Seq<Seq<char>>, Seq<char>>> {
    Seq::new(n as nat, |i: int| Ok(Seq::empty()))
}

/// `out` is what entry `i` may give: an entry that did not deserialize is
/// its rejection; any other, one [`raw_verdict`] allows.
pub open spec fn entry_outcome(entry: Result<RawOffer, RejectedOffer>, i: int, out: Result<CommercialPrecursorOffer, RejectedOffer>) -> bool {
    match entry {
        Ok(raw) => raw_verdict(out, i as usize, raw),
        Err(j) => out == Err::<CommercialPrecursorOffer, RejectedOffer>(j),
    }
}

/// `r` is the load of the entries with the outcomes `outs` of as many
/// entries as were read before the load stopped (each one
/// [`entry_outcome`] allows), applied as [`assemble`] says; the load
/// failed if it stopped early.
pub open spec fn entries_load_matches(
    r: Result<(CommercialPrecursorCatalog, CommercialCatalogLoadReport), ProviderError>,
    entries: Seq<Result<RawOffer, RejectedOffer>>,
    outs: Seq<Result<CommercialPrecursorOffer, RejectedOffer>>,
    strict: bool,
) -> bool {
    &&& outs.len() <= entries.len()
    &&& forall|i: int| 0 <= i < outs.len() ==> entry_outcome(#[trigger] entries[i], i, outs[i])
    &&& match assemble(entry_records(outs.len() as int), outs, strict) {
        Err(m) => r matches Err(ProviderError::MalformedRecord(x)) && x@ == m,
        Ok(done) => {
            &&& outs.len() == entries.len()
            &&& r matches Ok(loaded)
            &&& catalog_of(loaded.0@, done.0)
            &&& loaded.1.accepted == loaded.0@.len()
            &&& loaded.1.duplicate_offer_ids_collapsed == done.0.len() - loaded.0@.len()
            &&& rejection_views(loaded.1.rejected@) == done.1
        },
    }
}

/// A copy of a rejection.
fn copy_rejection(j: &RejectedOffer) -> (r: RejectedOffer)
    ensures
        r == *j,
{
    RejectedOffer {
        row: j.row,
        offer_id: j.offer_id.clone(),
        field: j.field.clone(),
        reason: j.reason.clone(),
        original_value: j.original_value.clone(),
    }
}

/// Applies one entry to a load: `Some(message)` when it fails a strict
/// load, else the accepted offers and rejections updated. Returns the
/// entry's outcome as well.
fn apply_entry(
    entry: &Result<RawOffer, RejectedOffer>,
    i: usize,
    strict: bool,
    accepted: &mut Vec<CommercialPrecursorOffer>,
    rejected: &mut Vec<RejectedOffer>,
) -> (r: (Option<String>, Ghost<Result<CommercialPrecursorOffer, RejectedOffer>>))
    requires
        compositions_wf(old(accepted)@),
    ensures
        entry_outcome(*entry, i as int, r.1@),
        match crate::commercial_catalog::loader::load_step(old(accepted)@, rejection_views(old(rejected)@), Ok(Seq::empty()), r.1@, i as int, strict) {
            Err(m) => r.0 matches Some(x) && x@ == m,
            Ok(next) => r.0 is None && next == (final(accepted)@, rejection_views(final(rejected)@)),
        },
        compositions_wf(final(accepted)@),
{
    let ghost acc0 = accepted@;
    let ghost rej0 = rejected@;
    let res = match entry {
        Ok(raw) => offer_from_raw(raw, i),
        Err(j) => Err(copy_rejection(j)),
    };
    let ghost out = res;
    match res {
        Ok(offer) => {
            if contains_id(accepted, &offer.offer_id.0) {
                let id = offer.offer_id.0.clone();
                let id2 = offer.offer_id.0.clone();
                rejected.push(RejectedOffer {
                    row: i,
                    offer_id: id,
                    field: String::from_str("offer_id"),
                    reason: String::from_str("duplicate offer_id within this load"),
                    original_value: id2,
                });
                assert(rejection_views(rejected@) =~= rejection_views(rej0).push((i, offer_key(offer), "offer_id"@, "duplicate offer_id within this load"@, offer_key(offer))));
            } else {
                accepted.push(offer);
                assert(accepted@ =~= acc0.push(offer));
            }
            (None, Ghost(out))
        },
        Err(j) => {
            if strict {
                return (Some(rejection_message(&j)), Ghost(out));
            }
            rejected.push(j);
            assert(rejection_views(rejected@) =~= rejection_views(rej0).push(rejection_view(j)));
            (None, Ghost(out))
        },
    }
}

/// Loads a catalog from the entries of a JSON catalog, each either the
/// entry's fields or the rejection of an entry that did not deserialize:
/// every entry is validated, a duplicate identifier is rejected, and the
/// accepted offers go through `CommercialPrecursorCatalog::from_offers`.
/// In strict mode the first rejected entry fails the whole load. Exactly
/// as [`entries_load_matches`] says.
pub fn load_json_entries(
    entries: &Vec<Result<RawOffer, RejectedOffer>>,
    mode: CommercialCatalogLoadMode,
) -> (r: Result<(CommercialPrecursorCatalog, CommercialCatalogLoadReport), ProviderError>)
    ensures
        exists|outs: Seq<Result<CommercialPrecursorOffer, RejectedOffer>>|
            #[trigger] entries_load_matches(r, entries@, outs, is_strict(mode)),
{
    let strict = match mode {
        CommercialCatalogLoadMode::Strict => true,
        CommercialCatalogLoadMode::Lenient => false,
    };
    let mut accepted: Vec<CommercialPrecursorOffer> = Vec::new();
    let mut rejected: Vec<RejectedOffer> = Vec::new();
    let ghost mut outs: Seq<Result<CommercialPrecursorOffer, RejectedOffer>> = Seq::empty();
    let n = entries.len();
    let mut i: usize = 0;
    assert(rejection_views(rejected@) =~= Seq::<(usize, Seq<char>, Seq<char>, Seq<char>, Seq<char>)>::empty());
    assert(accepted@ =~= Seq::<CommercialPrecursorOffer>::empty());
    assert(entry_records(0) =~= Seq::<Result<Seq<Seq<char>>, Seq<char>>>::empty());
    while i < n
        invariant
            i <= n,
            n == entries@.len(),
            strict == is_strict(mode),
            outs.len() == i,
            forall|k: int| 0 <= k < i ==> entry_outcome(#[trigger] entries@[k], k, outs[k]),
            assemble(entry_records(i as int), outs, strict) == Ok::<(Seq<CommercialPrecursorOffer>, Seq<(usize, Seq<char>, Seq<char>, Seq<char>, Seq<char>)>), Seq<char>>((accepted@, rejection_views(rejected@))),
            compositions_wf(accepted@),
        decreases n - i,
    {
        let ghost before = outs;
        let ghost acc_before = accepted@;
        let ghost rej_before = rejected@;
        let (failure, Ghost(out)) = apply_entry(&entries[i], i, strict, &mut accepted, &mut rejected);
        proof {
            outs = outs.push(out);
            lemma_assemble_outs(entry_records(i as int), before, outs, strict);
            assert(entry_records(i + 1).drop_last() =~= entry_records(i as int));
            assert(entry_records(i + 1).last() == Ok::<Seq<Seq<char>>, Seq<char>>(Seq::empty()));
            assert(outs[i as int] == out);
            assert(assemble(entry_records(i + 1), outs, strict) == crate::commercial_catalog::loader::load_step(acc_before, rejection_views(rej_before), Ok(Seq::empty()), out, i as int, strict));
        }
        match failure {
            Some(m) => {
                let r = Err(ProviderError::MalformedRecord(m));
                proof {
                    assert(entries_load_matches(r, entries@, outs, strict));
                }
                return r;
            },
            None => {},
        }
        i = i + 1;
    }
    let (catalog, report0) = CommercialPrecursorCatalog::from_offers(accepted);
    let report = CommercialCatalogLoadReport {
        accepted: report0.accepted,
        duplicate_offer_ids_collapsed: report0.duplicate_offer_ids_collapsed,
        rejected,
    };
    let r = Ok((catalog, report));
    proof {
        assert(entries_load_matches(r, entries@, outs, strict));
    }
    r
}

} // verus!
