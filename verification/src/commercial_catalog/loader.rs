//! Catalog loading from CSV text: the header row (optionally renamed by a
//! column map), row-level parsing and validation of every offer field,
//! duplicate-identifier rejection, and the strict and lenient load modes,
//! funnelling into `CommercialPrecursorCatalog::from_offers`.

use crate::commercial_catalog::fields::{
    decimal_reading, parse_decimal, parse_uint, uint_parse,
};
use crate::commercial_catalog::formula::{formula_accepted, formula_amounts, parse_formula};
use crate::commercial_catalog::model::{
    availability_named, cas_valid, is_currency_code, is_known_column, known_column,
    source_type_named, text_lt, CommercialCatalogColumnMap, CommercialCatalogError, first_index_with_key, offer_key,
    sorted_by_id, compositions_wf, CommercialCatalogLoadMode, CommercialCatalogLoadReport,
    CommercialPrecursorCatalog,
    parse_availability, parse_source_type, AvailabilityStatus, CasNumber, CommercialOfferId,
    CommercialPrecursorOffer, CurrencyCode, Money, OfferProvenance,
    PackageMass, ParticleSizeRangeUm, PurityFraction, RejectedOffer,
};
use crate::composition::Element;
use crate::error::ProviderError;
use crate::frac::Frac;
use crate::commercial_catalog::ranking::texts;
use crate::lex::{lemma_seq_le_antisym, lemma_seq_le_total, seq_le};
use crate::text::{append_decimal, chars_eq, chars_of, decimal, int_text, trim_string, trimmed};
use vstd::prelude::*;
use vstd::string::StringExecFns;

verus! {

/// Where `name` first occurs among the headers from `i` on, or the number
/// of headers.
pub open spec fn column_index(headers: Seq<Seq<char>>, name: Seq<char>, i: int) -> int
    decreases headers.len() - i,
{
    if i >= headers.len() {
        headers.len() as int
    } else if headers[i] == name {
        i
    } else {
        column_index(headers, name, i + 1)
    }
}

/// The trimmed text of the record's cell under the first header `name`,
/// when that cell exists and is not blank.
pub open spec fn cell(headers: Seq<Seq<char>>, record: Seq<Seq<char>>, name: Seq<char>) -> Option<Seq<char>> {
    let i = column_index(headers, name, 0);
    if i < headers.len() && i < record.len() && trimmed(record[i]).len() > 0 {
        Some(trimmed(record[i]))
    } else {
        None
    }
}

/// The cell of [`cell`], or empty text.
pub open spec fn cell_or_empty(headers: Seq<Seq<char>>, record: Seq<Seq<char>>, name: Seq<char>) -> Seq<char> {
    match cell(headers, record, name) {
        Some(t) => t,
        None => Seq::empty(),
    }
}

/// The cell under column `name`, as [`cell`] says.
pub fn cell_text(headers: &Vec<String>, record: &Vec<String>, name: &str) -> (r: Option<String>)
    ensures
        r is None <==> cell(texts(headers@), texts(record@), name@) is None,
        r matches Some(t) ==> cell(texts(headers@), texts(record@), name@) == Some(t@),
{
    let ghost h = texts(headers@);
    let mut i: usize = 0;
    while i < headers.len() && !chars_eq(&chars_of(headers[i].as_str()), name)
        invariant
            i <= headers@.len(),
            h == texts(headers@),
            column_index(h, name@, i as int) == column_index(h, name@, 0),
        decreases headers@.len() - i,
    {
        assert(h[i as int] == headers@[i as int]@);
        i = i + 1;
    }
    if i < headers.len() {
        assert(h[i as int] == headers@[i as int]@);
        assert(column_index(h, name@, i as int) == i);
    }
    if i < headers.len() && i < record.len() {
        assert(texts(record@)[i as int] == record@[i as int]@);
        let t = trim_string(record[i].as_str());
        if t.unicode_len() > 0 {
            return Some(t);
        }
    }
    None
}

/// The pieces of `s` between `;` separators (one empty piece for empty
/// text).
pub open spec fn split_pieces(s: Seq<char>) -> Seq<Seq<char>>
    decreases s.len(),
{
    if s.len() == 0 {
        seq![Seq::empty()]
    } else {
        let p = split_pieces(s.drop_last());
        if s.last() == ';' {
            p.push(Seq::empty())
        } else {
            p.update(p.len() - 1, p.last().push(s.last()))
        }
    }
}

/// `t` added to a set of texts kept in increasing order.
pub open spec fn insert_tag(s: Seq<Seq<char>>, t: Seq<char>) -> Seq<Seq<char>>
    decreases s.len(),
{
    if s.len() == 0 {
        seq![t]
    } else if s[0] == t {
        s
    } else if seq_le(t, s[0]) {
        seq![t] + s
    } else {
        seq![s[0]] + insert_tag(s.drop_first(), t)
    }
}

/// The set of the trimmed, non-empty pieces, in increasing order.
pub open spec fn tag_set(pieces: Seq<Seq<char>>) -> Seq<Seq<char>>
    decreases pieces.len(),
{
    if pieces.len() == 0 {
        Seq::empty()
    } else {
        let s = tag_set(pieces.drop_last());
        let t = trimmed(pieces.last());
        if t.len() > 0 {
            insert_tag(s, t)
        } else {
            s
        }
    }
}

/// The tags a `;`-separated tag cell names.
pub open spec fn tags_of(s: Seq<char>) -> Seq<Seq<char>> {
    tag_set(split_pieces(s))
}

proof fn lemma_insert_tag_at(s: Seq<Seq<char>>, t: Seq<char>, p: int)
    requires
        0 <= p <= s.len(),
        forall|j: int| 0 <= j < p ==> seq_le(#[trigger] s[j], t) && s[j] != t,
        p < s.len() ==> !(seq_le(s[p], t) && s[p] != t),
    ensures
        insert_tag(s, t) == (if p < s.len() && s[p] == t {
            s
        } else {
            s.insert(p, t)
        }),
    decreases s.len(),
{
    if s.len() == 0 {
        assert(s.insert(0, t) =~= seq![t]);
    } else if p == 0 {
        if s[0] != t {
            lemma_seq_le_total(s[0], t);
            assert(s.insert(0, t) =~= seq![t] + s);
        }
    } else {
        if seq_le(t, s[0]) {
            lemma_seq_le_antisym(s[0], t);
        }
        let r = s.drop_first();
        assert forall|j: int| 0 <= j < p - 1 implies seq_le(#[trigger] r[j], t) && r[j] != t by {
            assert(r[j] == s[j + 1]);
        }
        lemma_insert_tag_at(r, t, p - 1);
        if p < s.len() && s[p] == t {
            assert(seq![s[0]] + r =~= s);
        } else {
            assert(seq![s[0]] + r.insert(p - 1, t) =~= s.insert(p, t));
        }
    }
}

/// Adds `t` to an increasing set of texts, as [`insert_tag`] says.
pub(crate) fn add_tag(tags: &mut Vec<String>, t: String)
    ensures
        texts(final(tags)@) == insert_tag(texts(old(tags)@), t@),
{
    let ghost s = texts(tags@);
    let mut p: usize = 0;
    while p < tags.len() && text_lt(&tags[p], &t)
        invariant
            p <= tags@.len(),
            s == texts(tags@),
            forall|j: int| 0 <= j < p ==> seq_le(#[trigger] s[j], t@) && s[j] != t@,
        decreases tags@.len() - p,
    {
        p = p + 1;
    }
    proof {
        lemma_insert_tag_at(s, t@, p as int);
    }
    if p < tags.len() && tags[p] == t {
        return;
    }
    let ghost t0 = tags@;
    tags.insert(p, t);
    assert(texts(tags@) =~= s.insert(p as int, t@)) by {
        assert forall|j: int| 0 <= j < tags@.len() implies #[trigger] texts(tags@)[j] == s.insert(p as int, t@)[j] by {
            if j < p {
                assert(tags@[j] == t0[j]);
            } else if j > p {
                assert(tags@[j] == t0[j - 1]);
            }
        }
    }
}

/// The tags of a `;`-separated tag cell, as [`tags_of`] says.
pub fn parse_tags(s: &str) -> (r: Vec<String>)
    ensures
        texts(r@) == tags_of(s@),
{
    let v = chars_of(s);
    let n = v.len();
    let mut tags: Vec<String> = Vec::new();
    let mut lo: usize = 0;
    let mut i: usize = 0;
    let ghost mut done: Seq<Seq<char>> = Seq::empty();
    assert(v@.take(0) =~= Seq::<char>::empty());
    assert(split_pieces(v@.take(0)) =~= done.push(v@.subrange(0, 0)));
    while i < n
        invariant
            lo <= i <= n,
            n == v@.len(),
            v@ == s@,
            split_pieces(v@.take(i as int)) == done.push(v@.subrange(lo as int, i as int)),
            texts(tags@) == tag_set(done),
        decreases n - i,
    {
        let ghost prev = split_pieces(v@.take(i as int));
        assert(v@.take(i + 1).drop_last() =~= v@.take(i as int));
        assert(v@.take(i + 1).last() == v@[i as int]);
        if v[i] == ';' {
            let piece = trim_string(s.substring_char(lo, i));
            proof {
                assert(s@.subrange(lo as int, i as int) == v@.subrange(lo as int, i as int));
                assert(tag_set(done.push(v@.subrange(lo as int, i as int))).len() >= 0);
            }
            if piece.unicode_len() > 0 {
                add_tag(&mut tags, piece);
            }
            proof {
                let d2 = done.push(v@.subrange(lo as int, i as int));
                assert(d2.drop_last() =~= done);
                assert(prev == d2);
                assert(split_pieces(v@.take(i + 1)) == prev.push(Seq::<char>::empty()));
                assert(v@.subrange(i + 1, i + 1) =~= Seq::<char>::empty());
                done = d2;
                assert(split_pieces(v@.take(i + 1)) =~= done.push(v@.subrange(i + 1, i + 1)));
            }
            lo = i + 1;
        } else {
            proof {
                assert(v@.subrange(lo as int, i + 1) =~= v@.subrange(lo as int, i as int).push(v@[i as int]));
                assert(split_pieces(v@.take(i + 1)) =~= done.push(v@.subrange(lo as int, i + 1)));
            }
        }
        i = i + 1;
    }
    let piece = trim_string(s.substring_char(lo, n));
    if piece.unicode_len() > 0 {
        add_tag(&mut tags, piece);
    }
    proof {
        let d2 = done.push(v@.subrange(lo as int, n as int));
        assert(d2.drop_last() =~= done);
        assert(v@.take(n as int) =~= v@);
        assert(s@.subrange(lo as int, n as int) == v@.subrange(lo as int, n as int));
    }
    tags
}

/// An optional string by its text.
pub open spec fn opt_text(o: Option<String>) -> Option<Seq<char>> {
    match o {
        Some(s) => Some(s@),
        None => None,
    }
}

/// The earlier of two faults.
pub open spec fn first_fault(
    a: Option<(Seq<char>, Seq<char>, Seq<char>)>,
    b: Option<(Seq<char>, Seq<char>, Seq<char>)>,
) -> Option<(Seq<char>, Seq<char>, Seq<char>)> {
    if a is Some {
        a
    } else {
        b
    }
}

/// A bound message followed by the offending value as `numerator/denominator`.
pub open spec fn value_text(prefix: Seq<char>, q: (int, int)) -> Seq<char> {
    prefix + int_text(q.0) + "/"@ + int_text(q.1)
}

/// The first required column whose cell is blank or absent.
pub open spec fn missing_required(h: Seq<Seq<char>>, rec: Seq<Seq<char>>) -> Option<Seq<char>> {
    if cell(h, rec, "offer_id"@) is None {
        Some("offer_id"@)
    } else if cell(h, rec, "manufacturer"@) is None {
        Some("manufacturer"@)
    } else if cell(h, rec, "product_name"@) is None {
        Some("product_name"@)
    } else if cell(h, rec, "formula"@) is None {
        Some("formula"@)
    } else if cell(h, rec, "source"@) is None {
        Some("source"@)
    } else {
        None
    }
}

/// The message of a missing required field.
pub open spec fn missing_text(name: Seq<char>) -> Seq<char> {
    "missing required field '"@ + name + "'"@
}

/// A formula that [`parse_formula`] refuses: not in the grammar, needing an
/// exact value outside `i128`, or with no amount or one that is not
/// positive.
pub open spec fn formula_refused(f: Seq<char>) -> bool {
    !formula_accepted(trimmed(f))
}

/// The fault of an unrecognized source type.
pub open spec fn source_fault(h: Seq<Seq<char>>, rec: Seq<Seq<char>>) -> Option<(Seq<char>, Seq<char>, Seq<char>)> {
    let t = cell_or_empty(h, rec, "source"@);
    if source_type_named(t) is None {
        Some(("source"@, "'"@ + t + "' is not a recognized source type"@, t))
    } else {
        None
    }
}

/// The fault of a cell that is not a decimal literal this catalog reads.
pub open spec fn decimal_fault(h: Seq<Seq<char>>, rec: Seq<Seq<char>>, name: Seq<char>) -> Option<(Seq<char>, Seq<char>, Seq<char>)> {
    match cell(h, rec, name) {
        Some(t) => match decimal_reading(t) {
            Err(w) => Some((name, w, t)),
            Ok(_) => None,
        },
        None => None,
    }
}

/// The fault of a cell that is not an unsigned integer of at most `max`.
pub open spec fn uint_fault(h: Seq<Seq<char>>, rec: Seq<Seq<char>>, name: Seq<char>, max: int) -> Option<(Seq<char>, Seq<char>, Seq<char>)> {
    match cell(h, rec, name) {
        Some(t) => match uint_parse(t, max) {
            Err(w) => Some((name, w, t)),
            Ok(_) => None,
        },
        None => None,
    }
}

/// The fault of a purity that is no decimal or lies outside `(0, 1]`.
pub open spec fn purity_fault(h: Seq<Seq<char>>, rec: Seq<Seq<char>>) -> Option<(Seq<char>, Seq<char>, Seq<char>)> {
    match cell(h, rec, "purity_fraction"@) {
        Some(t) => match decimal_reading(t) {
            Err(w) => Some(("purity_fraction"@, w, t)),
            Ok(q) => if 0 < q.0 <= q.1 {
                None
            } else {
                Some(("purity_fraction"@, value_text("purity fraction must be > 0 and <= 1, got "@, q), t))
            },
        },
        None => None,
    }
}

/// The fault of a package mass that is no decimal or not positive.
pub open spec fn mass_fault(h: Seq<Seq<char>>, rec: Seq<Seq<char>>) -> Option<(Seq<char>, Seq<char>, Seq<char>)> {
    match cell(h, rec, "package_mass_g"@) {
        Some(t) => match decimal_reading(t) {
            Err(w) => Some(("package_mass_g"@, w, t)),
            Ok(q) => if q.0 > 0 {
                None
            } else {
                Some(("package_mass_g"@, value_text("package mass must be finite and > 0 grams, got "@, q), t))
            },
        },
        None => None,
    }
}

/// The fault of a currency that is not three uppercase ASCII letters.
pub open spec fn currency_fault(h: Seq<Seq<char>>, rec: Seq<Seq<char>>) -> Option<(Seq<char>, Seq<char>, Seq<char>)> {
    match cell(h, rec, "currency"@) {
        Some(t) => if is_currency_code(t) {
            None
        } else {
            Some(("currency"@, "\""@ + t + "\" is not a 3-letter uppercase ASCII currency code"@, t))
        },
        None => None,
    }
}

/// The fault of a price without a currency or a currency without a price.
pub open spec fn pairing_fault(h: Seq<Seq<char>>, rec: Seq<Seq<char>>) -> Option<(Seq<char>, Seq<char>, Seq<char>)> {
    match (cell(h, rec, "price_minor_units"@), cell(h, rec, "currency"@)) {
        (Some(_), None) => Some(("price_minor_units"@, "price_minor_units present without currency"@, Seq::empty())),
        (None, Some(_)) => Some(("price_minor_units"@, "currency present without price_minor_units"@, Seq::empty())),
        _ => None,
    }
}

/// The fault of an unrecognized availability status.
pub open spec fn availability_fault(h: Seq<Seq<char>>, rec: Seq<Seq<char>>) -> Option<(Seq<char>, Seq<char>, Seq<char>)> {
    match cell(h, rec, "availability"@) {
        Some(t) => if availability_named(t) is None {
            Some(("availability"@, "'"@ + t + "' is not a recognized availability status"@, t))
        } else {
            None
        },
        None => None,
    }
}

/// The fault of a particle-size range given by one end only, or with a
/// negative or inverted pair of ends.
pub open spec fn range_fault(h: Seq<Seq<char>>, rec: Seq<Seq<char>>) -> Option<(Seq<char>, Seq<char>, Seq<char>)> {
    let prefix = "particle size range invalid: "@;
    match (cell(h, rec, "particle_size_min_um"@), cell(h, rec, "particle_size_max_um"@)) {
        (Some(_), None) => Some(("particle_size_min_um"@, prefix + "particle_size_min_um present without particle_size_max_um"@, Seq::empty())),
        (None, Some(_)) => Some(("particle_size_min_um"@, prefix + "particle_size_max_um present without particle_size_min_um"@, Seq::empty())),
        (Some(a), Some(b)) => match (decimal_reading(a), decimal_reading(b)) {
            (Ok(qa), Ok(qb)) => if qa.0 < 0 {
                Some(("particle_size_min_um"@, prefix + "min_um must be >= 0"@, Seq::empty()))
            } else if qa.0 * qb.1 > qb.0 * qa.1 {
                Some(("particle_size_min_um"@, prefix + "min_um must be <= max_um"@, Seq::empty()))
            } else {
                None
            },
            _ => None,
        },
        (None, None) => None,
    }
}

/// The first fault among the fields read after the source type, in the
/// order they are read.
pub open spec fn detail_fault(h: Seq<Seq<char>>, rec: Seq<Seq<char>>) -> Option<(Seq<char>, Seq<char>, Seq<char>)> {
    first_fault(purity_fault(h, rec),
    first_fault(mass_fault(h, rec),
    first_fault(uint_fault(h, rec, "price_minor_units"@, u64::MAX as int),
    first_fault(currency_fault(h, rec),
    first_fault(pairing_fault(h, rec),
    first_fault(availability_fault(h, rec),
    first_fault(uint_fault(h, rec, "lead_time_days"@, u32::MAX as int),
    first_fault(decimal_fault(h, rec, "particle_size_min_um"@),
    first_fault(decimal_fault(h, rec, "particle_size_max_um"@),
    range_fault(h, rec))))))))))
}

/// The first fault after the formula, in the order the fields are read.
pub open spec fn later_fault(h: Seq<Seq<char>>, rec: Seq<Seq<char>>) -> Option<(Seq<char>, Seq<char>, Seq<char>)> {
    first_fault(source_fault(h, rec), detail_fault(h, rec))
}

/// `j` rejects row `row` for `fault`, naming the row's offer identifier.
pub open spec fn rejects_for(
    j: RejectedOffer,
    row: usize,
    h: Seq<Seq<char>>,
    rec: Seq<Seq<char>>,
    fault: (Seq<char>, Seq<char>, Seq<char>),
) -> bool {
    &&& j.row == row
    &&& j.offer_id@ == cell_or_empty(h, rec, "offer_id"@)
    &&& j.field@ == fault.0
    &&& j.reason@ == fault.1
    &&& j.original_value@ == fault.2
}

/// The measured and priced fields, as read from their cells.
pub open spec fn details_of_row(
    purity: Option<PurityFraction>,
    package_mass: Option<PackageMass>,
    unit_price: Option<Money>,
    availability: Option<AvailabilityStatus>,
    lead_time_days: Option<u32>,
    particle: Option<ParticleSizeRangeUm>,
    h: Seq<Seq<char>>,
    rec: Seq<Seq<char>>,
) -> bool {
    let c = |name: Seq<char>| cell(h, rec, name);
    &&& (purity is None <==> c("purity_fraction"@) is None)
    &&& (purity matches Some(p) ==> decimal_reading(c("purity_fraction"@)->0) == Ok::<(int, int), Seq<char>>(p.fraction()@))
    &&& (package_mass is None <==> c("package_mass_g"@) is None)
    &&& (package_mass matches Some(p) ==> decimal_reading(c("package_mass_g"@)->0) == Ok::<(int, int), Seq<char>>(p.in_grams()@))
    &&& (unit_price is None <==> c("price_minor_units"@) is None)
    &&& (unit_price matches Some(m) ==> uint_parse(c("price_minor_units"@)->0, u64::MAX as int) == Ok::<int, Seq<char>>(m.units() as int)
        && Some(m.code().letters()) == c("currency"@))
    &&& (availability is None <==> c("availability"@) is None)
    &&& (availability matches Some(a) ==> availability_named(c("availability"@)->0) == Some(a))
    &&& (lead_time_days is None <==> c("lead_time_days"@) is None)
    &&& (lead_time_days matches Some(d) ==> uint_parse(c("lead_time_days"@)->0, u32::MAX as int) == Ok::<int, Seq<char>>(d as int))
    &&& (particle is None <==> c("particle_size_min_um"@) is None)
    &&& (particle matches Some(r) ==> decimal_reading(c("particle_size_min_um"@)->0) == Ok::<(int, int), Seq<char>>(r.low()@)
        && decimal_reading(c("particle_size_max_um"@)->0) == Ok::<(int, int), Seq<char>>(r.high()@))
}

/// `o` is the offer the row describes, every field as read from its cell.
pub open spec fn offer_of_row(o: CommercialPrecursorOffer, h: Seq<Seq<char>>, rec: Seq<Seq<char>>) -> bool {
    let c = |name: Seq<char>| cell(h, rec, name);
    &&& Some(o.offer_id.0@) == c("offer_id"@)
    &&& Some(o.manufacturer@) == c("manufacturer"@)
    &&& Some(o.product_name@) == c("product_name"@)
    &&& Some(o.formula@) == c("formula"@)
    &&& o.composition.wf()
    &&& (formula_amounts(trimmed(o.formula@)) matches Some(m) && o.composition@.dom() == m.dom()
        && forall|e: Element| #[trigger] o.composition@.contains_key(e) ==> o.composition@[e]@ == m[e])
    &&& Some(o.provenance.source_type) == source_type_named(cell_or_empty(h, rec, "source"@))
    &&& o.provenance.source_identifier@ == o.offer_id.0@
    &&& opt_text(o.provenance.retrieved_at) == c("retrieved_at"@)
    &&& o.provenance.supplied_by is None
    &&& o.provenance.license_or_terms is None
    &&& o.provenance.checksum is None
    &&& opt_text(o.catalog_number) == c("catalog_number"@)
    &&& (o.cas_number is None <==> c("cas_number"@) is None)
    &&& (o.cas_number matches Some(n) ==> Some(n.raw@) == c("cas_number"@) && n.checksum_verified == cas_valid(n.raw@))
    &&& opt_text(o.grade) == c("grade"@)
    &&& details_of_row(o.purity, o.package_mass, o.unit_price, o.availability, o.lead_time_days, o.particle_size_range_um, h, rec)
    &&& opt_text(o.physical_form) == c("physical_form"@)
    &&& opt_text(o.country_region) == c("country_region"@)
    &&& opt_text(o.product_url) == c("product_url"@)
    &&& texts(o.tags@) == (match c("tags"@) {
        Some(t) => tags_of(t),
        None => Seq::empty(),
    })
    &&& opt_text(o.notes) == c("notes"@)
}

/// What parsing row `row` may give: the rejection for its first missing
/// required field; otherwise a rejection of the formula exactly when
/// [`parse_formula`] refuses it ([`formula_refused`]); otherwise the
/// rejection for the first later fault, or the offer it describes.
pub open spec fn row_verdict(
    r: Result<CommercialPrecursorOffer, RejectedOffer>,
    row: usize,
    h: Seq<Seq<char>>,
    rec: Seq<Seq<char>>,
) -> bool {
    let f = cell_or_empty(h, rec, "formula"@);
    let formula_rejected = r matches Err(j) && j.row == row && j.offer_id@ == cell_or_empty(h, rec, "offer_id"@)
        && j.field@ == "formula"@ && j.original_value@ == f;
    match missing_required(h, rec) {
        Some(name) => r matches Err(j) && rejects_for(j, row, h, rec, (name, missing_text(name), Seq::empty())),
        None => if formula_refused(f) {
            formula_rejected
        } else {
            match later_fault(h, rec) {
                Some(x) => r matches Err(j) && rejects_for(j, row, h, rec, x),
                None => r matches Ok(o) && offer_of_row(o, h, rec),
            }
        },
    }
}

/// A rejection of row `row` of the offer `offer_id`.
pub(crate) fn reject(row: usize, offer_id: &String, field: &str, reason: String, original: String) -> (j: RejectedOffer)
    ensures
        j.row == row,
        j.offer_id@ == offer_id@,
        j.field@ == field@,
        j.reason@ == reason@,
        j.original_value@ == original@,
{
    RejectedOffer {
        row,
        offer_id: offer_id.clone(),
        field: String::from_str(field),
        reason,
        original_value: original,
    }
}

/// The cell of a required column, or the rejection for its absence.
fn required_cell(headers: &Vec<String>, record: &Vec<String>, row: usize, id: &String, name: &str) -> (r: Result<String, RejectedOffer>)
    requires
        id@ == cell_or_empty(texts(headers@), texts(record@), "offer_id"@),
    ensures
        r is Ok <==> cell(texts(headers@), texts(record@), name@) is Some,
        r matches Ok(t) ==> cell(texts(headers@), texts(record@), name@) == Some(t@),
        r matches Err(j) ==> rejects_for(j, row, texts(headers@), texts(record@), (name@, missing_text(name@), Seq::empty())),
{
    match cell_text(headers, record, name) {
        Some(t) => Ok(t),
        None => {
            let mut reason = String::from_str("missing required field '");
            reason.append(name);
            reason.append("'");
            Err(reject(row, id, name, reason, String::new()))
        },
    }
}

/// The decimal in a cell, with the cell's text, or the rejection for a
/// cell that is no decimal this catalog reads.
fn decimal_cell(headers: &Vec<String>, record: &Vec<String>, row: usize, id: &String, name: &str) -> (r: Result<Option<(Frac, String)>, RejectedOffer>)
    requires
        id@ == cell_or_empty(texts(headers@), texts(record@), "offer_id"@),
    ensures
        r is Err <==> decimal_fault(texts(headers@), texts(record@), name@) is Some,
        r matches Err(j) ==> rejects_for(j, row, texts(headers@), texts(record@), decimal_fault(texts(headers@), texts(record@), name@)->0),
        r matches Ok(None) ==> cell(texts(headers@), texts(record@), name@) is None,
        r matches Ok(Some(x)) ==> cell(texts(headers@), texts(record@), name@) == Some(x.1@) && x.0.wf()
            && decimal_reading(x.1@) == Ok::<(int, int), Seq<char>>(x.0@),
{
    match cell_text(headers, record, name) {
        None => Ok(None),
        Some(t) => match parse_decimal(&chars_of(t.as_str())) {
            Ok(f) => Ok(Some((f, t))),
            Err(w) => {
                let original = t.clone();
                Err(reject(row, id, name, w, original))
            },
        },
    }
}

/// The unsigned integer of at most `max` in a cell, or the rejection for
/// a cell that is none.
fn uint_cell(headers: &Vec<String>, record: &Vec<String>, row: usize, id: &String, name: &str, max: u64) -> (r: Result<Option<u64>, RejectedOffer>)
    requires
        id@ == cell_or_empty(texts(headers@), texts(record@), "offer_id"@),
    ensures
        r is Err <==> uint_fault(texts(headers@), texts(record@), name@, max as int) is Some,
        r matches Err(j) ==> rejects_for(j, row, texts(headers@), texts(record@), uint_fault(texts(headers@), texts(record@), name@, max as int)->0),
        r matches Ok(None) ==> cell(texts(headers@), texts(record@), name@) is None,
        r matches Ok(Some(v)) ==> v <= max && cell(texts(headers@), texts(record@), name@) is Some
            && uint_parse(cell(texts(headers@), texts(record@), name@)->0, max as int) == Ok::<int, Seq<char>>(v as int),
{
    match cell_text(headers, record, name) {
        None => Ok(None),
        Some(t) => {
            let v = chars_of(t.as_str());
            assert(v@.len() > 0);
            match parse_uint(&v, max) {
                Ok(x) => Ok(Some(x)),
                Err(w) => Err(reject(row, id, name, w, t)),
            }
        },
    }
}

/// The purity cell, or the rejection of a purity outside `(0, 1]`.
fn purity_cell(headers: &Vec<String>, record: &Vec<String>, row: usize, id: &String) -> (r: Result<Option<PurityFraction>, RejectedOffer>)
    requires
        id@ == cell_or_empty(texts(headers@), texts(record@), "offer_id"@),
    ensures
        r is Err <==> purity_fault(texts(headers@), texts(record@)) is Some,
        r matches Err(j) ==> rejects_for(j, row, texts(headers@), texts(record@), purity_fault(texts(headers@), texts(record@))->0),
        r matches Ok(p) ==> (p is None <==> cell(texts(headers@), texts(record@), "purity_fraction"@) is None),
        r matches Ok(Some(p)) ==> decimal_reading(cell(texts(headers@), texts(record@), "purity_fraction"@)->0)
            == Ok::<(int, int), Seq<char>>(p.fraction()@),
{
    match decimal_cell(headers, record, row, id, "purity_fraction") {
        Err(j) => Err(j),
        Ok(None) => Ok(None),
        Ok(Some((f, t))) => match PurityFraction::new(f) {
            Ok(p) => Ok(Some(p)),
            Err(e) => {
                proof {
                    f.lemma_view_bounds();
                }
                Err(reject(row, id, "purity_fraction", e.message(), t))
            },
        },
    }
}

/// The package-mass cell, or the rejection of a mass that is not positive.
fn mass_cell(headers: &Vec<String>, record: &Vec<String>, row: usize, id: &String) -> (r: Result<Option<PackageMass>, RejectedOffer>)
    requires
        id@ == cell_or_empty(texts(headers@), texts(record@), "offer_id"@),
    ensures
        r is Err <==> mass_fault(texts(headers@), texts(record@)) is Some,
        r matches Err(j) ==> rejects_for(j, row, texts(headers@), texts(record@), mass_fault(texts(headers@), texts(record@))->0),
        r matches Ok(p) ==> (p is None <==> cell(texts(headers@), texts(record@), "package_mass_g"@) is None),
        r matches Ok(Some(p)) ==> decimal_reading(cell(texts(headers@), texts(record@), "package_mass_g"@)->0)
            == Ok::<(int, int), Seq<char>>(p.in_grams()@),
{
    match decimal_cell(headers, record, row, id, "package_mass_g") {
        Err(j) => Err(j),
        Ok(None) => Ok(None),
        Ok(Some((f, t))) => match PackageMass::new(f) {
            Ok(p) => Ok(Some(p)),
            Err(e) => {
                proof {
                    f.lemma_view_bounds();
                }
                Err(reject(row, id, "package_mass_g", e.message(), t))
            },
        },
    }
}

/// A price needs a currency, and a currency a price.
pub fn validate_price(price_minor_units: Option<u64>, currency: Option<CurrencyCode>) -> (r: Result<Option<Money>, String>)
    ensures
        match (price_minor_units, currency) {
            (None, None) => r matches Ok(None),
            (Some(p), Some(c)) => r matches Ok(Some(m)) && m.units() == p && m.code() == c,
            (Some(_), None) => r matches Err(m) && m@ == "price_minor_units present without currency"@,
            (None, Some(_)) => r matches Err(m) && m@ == "currency present without price_minor_units"@,
        },
{
    match (price_minor_units, currency) {
        (None, None) => Ok(None),
        (Some(p), Some(c)) => Ok(Some(Money::new(p, c))),
        (Some(_), None) => Err(String::from_str("price_minor_units present without currency")),
        (None, Some(_)) => Err(String::from_str("currency present without price_minor_units")),
    }
}

/// A particle-size range needs both ends, as `ParticleSizeRangeUm::new`
/// accepts them.
pub fn validate_particle_size(min_um: Option<Frac>, max_um: Option<Frac>) -> (r: Result<Option<ParticleSizeRangeUm>, CommercialCatalogError>)
    requires
        min_um matches Some(a) ==> a.wf(),
        max_um matches Some(b) ==> b.wf(),
    ensures
        match (min_um, max_um) {
            (None, None) => r matches Ok(None),
            (Some(a), Some(b)) => if a@.0 < 0 {
                r matches Err(CommercialCatalogError::InvalidParticleSizeRange { reason }) && reason@ == "min_um must be >= 0"@
            } else if a@.0 * b@.1 > b@.0 * a@.1 {
                r matches Err(CommercialCatalogError::InvalidParticleSizeRange { reason }) && reason@ == "min_um must be <= max_um"@
            } else {
                r matches Ok(Some(p)) && p.low() == a && p.high() == b
            },
            (Some(_), None) => r matches Err(CommercialCatalogError::InvalidParticleSizeRange { reason })
                && reason@ == "particle_size_min_um present without particle_size_max_um"@,
            (None, Some(_)) => r matches Err(CommercialCatalogError::InvalidParticleSizeRange { reason })
                && reason@ == "particle_size_max_um present without particle_size_min_um"@,
        },
{
    match (min_um, max_um) {
        (None, None) => Ok(None),
        (Some(a), Some(b)) => match ParticleSizeRangeUm::new(a, b) {
            Ok(p) => Ok(Some(p)),
            Err(e) => Err(e),
        },
        (Some(_), None) => Err(CommercialCatalogError::InvalidParticleSizeRange {
            reason: String::from_str("particle_size_min_um present without particle_size_max_um"),
        }),
        (None, Some(_)) => Err(CommercialCatalogError::InvalidParticleSizeRange {
            reason: String::from_str("particle_size_max_um present without particle_size_min_um"),
        }),
    }
}

/// The measured and priced fields of an offer.
struct OfferDetails {
    purity: Option<PurityFraction>,
    package_mass: Option<PackageMass>,
    unit_price: Option<Money>,
    availability: Option<AvailabilityStatus>,
    lead_time_days: Option<u32>,
    particle: Option<ParticleSizeRangeUm>,
}

/// Reads the fields after the source type, or rejects the row for the
/// first of them at fault, as [`detail_fault`] says.
fn read_details(headers: &Vec<String>, record: &Vec<String>, row: usize, id: &String) -> (r: Result<OfferDetails, RejectedOffer>)
    requires
        id@ == cell_or_empty(texts(headers@), texts(record@), "offer_id"@),
    ensures
        r is Err <==> detail_fault(texts(headers@), texts(record@)) is Some,
        r matches Err(j) ==> rejects_for(j, row, texts(headers@), texts(record@), detail_fault(texts(headers@), texts(record@))->0),
        r matches Ok(d) ==> details_of_row(d.purity, d.package_mass, d.unit_price, d.availability, d.lead_time_days, d.particle, texts(headers@), texts(record@)),
{
    let ghost h = texts(headers@);
    let ghost rec = texts(record@);
    let purity = match purity_cell(headers, record, row, id) {
        Ok(p) => p,
        Err(j) => return Err(j),
    };
    let package_mass = match mass_cell(headers, record, row, id) {
        Ok(p) => p,
        Err(j) => return Err(j),
    };
    let price = match uint_cell(headers, record, row, id, "price_minor_units", 18446744073709551615u64) {
        Ok(p) => p,
        Err(j) => return Err(j),
    };
    let currency = match cell_text(headers, record, "currency") {
        None => None,
        Some(t) => match CurrencyCode::new(t.as_str()) {
            Ok(c) => Some(c),
            Err(e) => {
                let reason = e.message();
                return Err(reject(row, id, "currency", reason, t));
            },
        },
    };
    let unit_price = match validate_price(price, currency) {
        Ok(p) => p,
        Err(reason) => return Err(reject(row, id, "price_minor_units", reason, String::new())),
    };
    let availability = match cell_text(headers, record, "availability") {
        None => None,
        Some(t) => match parse_availability(t.as_str()) {
            Some(a) => Some(a),
            None => {
                let mut reason = String::from_str("'");
                reason.append(t.as_str());
                reason.append("' is not a recognized availability status");
                return Err(reject(row, id, "availability", reason, t));
            },
        },
    };
    let lead_time_days = match uint_cell(headers, record, row, id, "lead_time_days", 4294967295u64) {
        Ok(None) => None,
        Ok(Some(d)) => Some(d as u32),
        Err(j) => return Err(j),
    };
    let min_um = match decimal_cell(headers, record, row, id, "particle_size_min_um") {
        Ok(x) => x,
        Err(j) => return Err(j),
    };
    let max_um = match decimal_cell(headers, record, row, id, "particle_size_max_um") {
        Ok(x) => x,
        Err(j) => return Err(j),
    };
    let min_value = match min_um {
        Some((a, _)) => Some(a),
        None => None,
    };
    let max_value = match max_um {
        Some((b, _)) => Some(b),
        None => None,
    };
    let particle = match validate_particle_size(min_value, max_value) {
        Ok(p) => p,
        Err(e) => return Err(reject(row, id, "particle_size_min_um", e.message(), String::new())),
    };
    Ok(OfferDetails { purity, package_mass, unit_price, availability, lead_time_days, particle })
}

/// The optional cell of a column, as a string.
fn optional_cell(headers: &Vec<String>, record: &Vec<String>, name: &str) -> (r: Option<String>)
    ensures
        opt_text(r) == cell(texts(headers@), texts(record@), name@),
{
    cell_text(headers, record, name)
}

/// Parses and validates one record (row `row`, counted from the first
/// record after the header) into an offer, or rejects it naming the field
/// at fault, as [`row_verdict`] says.
pub fn parse_csv_offer_row(record: &Vec<String>, headers: &Vec<String>, row: usize) -> (r: Result<CommercialPrecursorOffer, RejectedOffer>)
    ensures
        row_verdict(r, row, texts(headers@), texts(record@)),
{
    let ghost h = texts(headers@);
    let ghost rec = texts(record@);
    let id = match cell_text(headers, record, "offer_id") {
        Some(t) => t,
        None => String::new(),
    };
    let offer_id = match required_cell(headers, record, row, &id, "offer_id") {
        Ok(t) => t,
        Err(j) => return Err(j),
    };
    let manufacturer = match required_cell(headers, record, row, &id, "manufacturer") {
        Ok(t) => t,
        Err(j) => return Err(j),
    };
    let product_name = match required_cell(headers, record, row, &id, "product_name") {
        Ok(t) => t,
        Err(j) => return Err(j),
    };
    let formula = match required_cell(headers, record, row, &id, "formula") {
        Ok(t) => t,
        Err(j) => return Err(j),
    };
    let source = match required_cell(headers, record, row, &id, "source") {
        Ok(t) => t,
        Err(j) => return Err(j),
    };
    assert(missing_required(h, rec) is None);
    let composition = match parse_formula(formula.as_str()) {
        Ok(c) => c,
        Err(e) => {
            let original = formula.clone();
            return Err(reject(row, &id, "formula", e.message(), original));
        },
    };
    let source_type = match parse_source_type(source.as_str()) {
        Some(t) => t,
        None => {
            let mut reason = String::from_str("'");
            reason.append(source.as_str());
            reason.append("' is not a recognized source type");
            return Err(reject(row, &id, "source", reason, source));
        },
    };
    assert(source_fault(h, rec) is None);
    let details = match read_details(headers, record, row, &id) {
        Ok(d) => d,
        Err(j) => return Err(j),
    };
    let cas_number = match cell_text(headers, record, "cas_number") {
        Some(t) => Some(CasNumber::new(t.as_str())),
        None => None,
    };
    let tags = match cell_text(headers, record, "tags") {
        Some(t) => parse_tags(t.as_str()),
        None => Vec::new(),
    };
    let source_identifier = offer_id.clone();
    let offer = CommercialPrecursorOffer {
        offer_id: CommercialOfferId(offer_id),
        manufacturer,
        product_name,
        composition,
        provenance: OfferProvenance {
            source_type,
            source_identifier,
            retrieved_at: optional_cell(headers, record, "retrieved_at"),
            supplied_by: None,
            license_or_terms: None,
            checksum: None,
        },
        formula,
        catalog_number: optional_cell(headers, record, "catalog_number"),
        cas_number,
        grade: optional_cell(headers, record, "grade"),
        purity: details.purity,
        package_mass: details.package_mass,
        unit_price: details.unit_price,
        availability: details.availability,
        lead_time_days: details.lead_time_days,
        physical_form: optional_cell(headers, record, "physical_form"),
        particle_size_range_um: details.particle,
        country_region: optional_cell(headers, record, "country_region"),
        product_url: optional_cell(headers, record, "product_url"),
        tags,
        notes: optional_cell(headers, record, "notes"),
    };
    assert(!formula_refused(cell_or_empty(h, rec, "formula"@)));
    assert(later_fault(h, rec) is None);
    assert(details_of_row(offer.purity, offer.package_mass, offer.unit_price, offer.availability, offer.lead_time_days, offer.particle_size_range_um, h, rec));
    assert(texts(offer.tags@) == (match cell(h, rec, "tags"@) {
        Some(t) => tags_of(t),
        None => Seq::empty(),
    }));
    assert(offer_of_row(offer, h, rec));
    Ok(offer)
}

/// Header `x` renamed by column-map entries (canonical, external): the
/// canonical name of the first entry naming `x` as its external header,
/// marked as rewritten; otherwise `x` itself.
pub open spec fn renamed(x: Seq<char>, entries: Seq<(Seq<char>, Seq<char>)>) -> (Seq<char>, bool)
    decreases entries.len(),
{
    if entries.len() == 0 {
        (x, false)
    } else if entries[0].1 == x {
        (entries[0].0, true)
    } else {
        renamed(x, entries.drop_first())
    }
}

/// Every header renamed.
pub open spec fn renamed_all(hs: Seq<Seq<char>>, entries: Seq<(Seq<char>, Seq<char>)>) -> Seq<(Seq<char>, bool)> {
    Seq::new(hs.len(), |i: int| renamed(hs[i], entries))
}

/// Renamed header `i` is a canonical name an earlier header also became,
/// where the map rewrote at least one of the two.
pub open spec fn collides_at(r: Seq<(Seq<char>, bool)>, i: int) -> bool {
    &&& is_known_column(r[i].0)
    &&& exists|j: int| 0 <= j < i && #[trigger] r[j].0 == r[i].0 && (r[i].1 || r[j].1)
}

/// The first renamed header, from `i` on, that collides, or `r.len()`.
pub open spec fn first_collision(r: Seq<(Seq<char>, bool)>, i: int) -> int
    decreases r.len() - i,
{
    if i >= r.len() {
        r.len() as int
    } else if collides_at(r, i) {
        i
    } else {
        first_collision(r, i + 1)
    }
}

/// The headers after the column map, or the message of a collision it
/// introduces.
pub open spec fn mapped_headers(hs: Seq<Seq<char>>, entries: Seq<(Seq<char>, Seq<char>)>) -> Result<Seq<Seq<char>>, Seq<char>> {
    let r = renamed_all(hs, entries);
    let k = first_collision(r, 0);
    if k < r.len() {
        Err("column map: header '"@ + r[k].0 + "' would appear more than once after applying the column map"@)
    } else {
        Ok(Seq::new(r.len(), |i: int| r[i].0))
    }
}

/// Where `x` is the external name of an entry of `pairs` (external,
/// canonical), the first such canonical name.
fn rename_header(x: &String, pairs: &Vec<(String, String)>, Ghost(entries): Ghost<Seq<(Seq<char>, Seq<char>)>>) -> (r: (String, bool))
    requires
        pairs@.len() == entries.len(),
        forall|i: int| 0 <= i < pairs@.len() ==> (#[trigger] pairs@[i]).0@ == entries[i].1 && pairs@[i].1@ == entries[i].0,
    ensures
        (r.0@, r.1) == renamed(x@, entries),
{
    let mut i: usize = 0;
    assert(entries.skip(0) =~= entries);
    while i < pairs.len()
        invariant
            i <= pairs@.len(),
            pairs@.len() == entries.len(),
            forall|k: int| 0 <= k < pairs@.len() ==> (#[trigger] pairs@[k]).0@ == entries[k].1 && pairs@[k].1@ == entries[k].0,
            renamed(x@, entries.skip(i as int)) == renamed(x@, entries),
        decreases pairs@.len() - i,
    {
        let ghost rest = entries.skip(i as int);
        assert(rest[0] == entries[i as int]);
        assert(rest.drop_first() =~= entries.skip(i + 1));
        if pairs[i].0 == *x {
            return (pairs[i].1.clone(), true);
        }
        i = i + 1;
    }
    assert(entries.skip(i as int) =~= Seq::<(Seq<char>, Seq<char>)>::empty());
    (x.clone(), false)
}

/// The names of renamed headers.
pub open spec fn renamed_names(r: Seq<(Seq<char>, bool)>) -> Seq<Seq<char>> {
    Seq::new(r.len(), |i: int| r[i].0)
}

/// Whether each renamed header was rewritten.
pub open spec fn renamed_flags(r: Seq<(Seq<char>, bool)>) -> Seq<bool> {
    Seq::new(r.len(), |i: int| r[i].1)
}

/// Whether renamed header `k` collides with an earlier one, as
/// [`collides_at`] says.
fn collides_with_earlier(names: &Vec<String>, flags: &Vec<bool>, k: usize, Ghost(r): Ghost<Seq<(Seq<char>, bool)>>) -> (c: bool)
    requires
        k < r.len(),
        names@.len() == r.len(),
        flags@.len() == r.len(),
        texts(names@) == renamed_names(r),
        flags@ == renamed_flags(r),
    ensures
        c == collides_at(r, k as int),
{
    assert(texts(names@)[k as int] == names@[k as int]@);
    assert(renamed_names(r)[k as int] == r[k as int].0);
    if !known_column(&chars_of(names[k].as_str())) {
        return false;
    }
    let ghost rk = r[k as int];
    let mut j: usize = 0;
    while j < k
        invariant
            j <= k,
            k < r.len(),
            names@.len() == r.len(),
            flags@.len() == r.len(),
            texts(names@) == renamed_names(r),
            flags@ == renamed_flags(r),
            rk == r[k as int],
            is_known_column(rk.0),
            forall|q: int| 0 <= q < j ==> !(#[trigger] r[q].0 == rk.0 && (rk.1 || r[q].1)),
        decreases k - j,
    {
        assert(texts(names@)[j as int] == names@[j as int]@);
        assert(renamed_names(r)[j as int] == r[j as int].0);
        assert(renamed_flags(r)[j as int] == r[j as int].1);
        assert(texts(names@)[k as int] == names@[k as int]@);
        assert(renamed_names(r)[k as int] == r[k as int].0);
        assert(renamed_flags(r)[k as int] == r[k as int].1);
        if names[j] == names[k] && (flags[k] || flags[j]) {
            assert(r[j as int].0 == r[k as int].0);
            return true;
        }
        j = j + 1;
    }
    false
}

/// Rewrites the header row by a column map, refusing a collision the map
/// introduces, as [`mapped_headers`] says.
pub fn remap_headers(headers: &Vec<String>, column_map: &CommercialCatalogColumnMap) -> (r: Result<Vec<String>, ProviderError>)
    ensures
        match mapped_headers(texts(headers@), column_map.entries()) {
            Ok(hs) => r matches Ok(v) && texts(v@) == hs,
            Err(m) => r matches Err(ProviderError::MalformedRecord(x)) && x@ == m,
        },
{
    let ghost entries = column_map.entries();
    let ghost hs = texts(headers@);
    let pairs = column_map.canonical_by_external();
    let mut names: Vec<String> = Vec::new();
    let mut flags: Vec<bool> = Vec::new();
    let ghost rn = renamed_all(hs, entries);
    let mut i: usize = 0;
    assert(texts(names@) =~= renamed_names(rn.take(0)));
    assert(flags@ =~= renamed_flags(rn.take(0)));
    while i < headers.len()
        invariant
            i <= headers@.len(),
            hs == texts(headers@),
            rn == renamed_all(hs, entries),
            pairs@.len() == entries.len(),
            forall|k: int| 0 <= k < pairs@.len() ==> (#[trigger] pairs@[k]).0@ == entries[k].1 && pairs@[k].1@ == entries[k].0,
            names@.len() == i,
            flags@.len() == i,
            rn.len() == headers@.len(),
            texts(names@) == renamed_names(rn.take(i as int)),
            flags@ == renamed_flags(rn.take(i as int)),
        decreases headers@.len() - i,
    {
        let (name, flag) = rename_header(&headers[i], &pairs, Ghost(entries));
        assert(hs[i as int] == headers@[i as int]@);
        assert(rn[i as int] == renamed(hs[i as int], entries));
        let ghost n0 = names@;
        names.push(name);
        flags.push(flag);
        assert forall|q: int| 0 <= q < i + 1 implies #[trigger] texts(names@)[q] == renamed_names(rn.take(i + 1))[q] by {
            if q < i {
                assert(names@[q] == n0[q]);
                assert(texts(n0)[q] == renamed_names(rn.take(i as int))[q]);
            }
        }
        assert(texts(names@) =~= renamed_names(rn.take(i + 1)));
        assert(flags@ =~= renamed_flags(rn.take(i + 1)));
        i = i + 1;
    }
    assert(rn.take(i as int) =~= rn);
    let mut k: usize = 0;
    while k < names.len()
        invariant
            k <= names@.len(),
            hs == texts(headers@),
            entries == column_map.entries(),
            rn == renamed_all(hs, entries),
            names@.len() == rn.len(),
            flags@.len() == rn.len(),
            texts(names@) == renamed_names(rn),
            flags@ == renamed_flags(rn),
            first_collision(rn, k as int) == first_collision(rn, 0),
        decreases names@.len() - k,
    {
        let collides = collides_with_earlier(&names, &flags, k, Ghost(rn));
        if collides {
            assert(texts(names@)[k as int] == names@[k as int]@);
            assert(renamed_names(rn)[k as int] == rn[k as int].0);
            assert(first_collision(rn, k as int) == k);
            let mut m = String::from_str("column map: header '");
            m.append(names[k].as_str());
            m.append("' would appear more than once after applying the column map");
            assert(m@ == "column map: header '"@ + rn[k as int].0 + "' would appear more than once after applying the column map"@);
            assert(mapped_headers(hs, entries) is Err);
            return Err(ProviderError::MalformedRecord(m));
        }
        k = k + 1;
    }
    Ok(names)
}

/// The first required column absent from the header row.
pub open spec fn missing_column(hs: Seq<Seq<char>>) -> Option<Seq<char>> {
    if !hs.contains("offer_id"@) {
        Some("offer_id"@)
    } else if !hs.contains("manufacturer"@) {
        Some("manufacturer"@)
    } else if !hs.contains("product_name"@) {
        Some("product_name"@)
    } else if !hs.contains("formula"@) {
        Some("formula"@)
    } else if !hs.contains("source"@) {
        Some("source"@)
    } else {
        None
    }
}

/// Whether the header row has the column `name`.
fn has_column(headers: &Vec<String>, name: &str) -> (r: bool)
    ensures
        r == texts(headers@).contains(name@),
{
    let ghost hs = texts(headers@);
    let mut i: usize = 0;
    while i < headers.len()
        invariant
            i <= headers@.len(),
            hs == texts(headers@),
            forall|k: int| 0 <= k < i ==> hs[k] != name@,
        decreases headers@.len() - i,
    {
        assert(hs[i as int] == headers@[i as int]@);
        if chars_eq(&chars_of(headers[i].as_str()), name) {
            return true;
        }
        i = i + 1;
    }
    false
}

/// A CSV text split into its header row and records, each field as text;
/// a row the CSV reader refused carries the reader's message.
pub struct CsvTable {
    pub header: Result<Vec<String>, String>,
    pub records: Vec<Result<Vec<String>, String>>,
}

/// A row of a table by its texts.
pub open spec fn record_view(r: Result<Vec<String>, String>) -> Result<Seq<Seq<char>>, Seq<char>> {
    match r {
        Ok(v) => Ok(texts(v@)),
        Err(m) => Err(m@),
    }
}

/// The rows of a table by their texts.
pub open spec fn records_view(v: Seq<Result<Vec<String>, String>>) -> Seq<Result<Seq<Seq<char>>, Seq<char>>> {
    Seq::new(v.len(), |i: int| record_view(v[i]))
}

/// How the `csv` crate splits a text: the header row (or the reader's
/// message for it) and every following record (or the reader's message
/// for it), each field as text. It follows the crate's CSV dialect and
/// depends on the text alone.
pub uninterp spec fn csv_table_of(text: Seq<char>) -> (Result<Seq<Seq<char>>, Seq<char>>, Seq<Result<Seq<Seq<char>>, Seq<char>>>);

/// Reads `text` with the `csv` crate (`ReaderBuilder` with a header row):
/// its header row, then every record, each field as text, a row the reader
/// refuses as the message of the reader's error. The contract names that
/// split [`csv_table_of`] and claims only that it depends on the text
/// alone.
#[verifier::external_body]
fn read_csv_table(text: &str) -> (r: CsvTable)
    ensures
        (record_view(r.header), records_view(r.records@)) == csv_table_of(text@),
{
    let mut reader = csv::ReaderBuilder::new().has_headers(true).from_reader(text.as_bytes());
    let header = match reader.headers() {
        Ok(h) => Ok(h.iter().map(|f| f.to_string()).collect()),
        Err(e) => Err(e.to_string()),
    };
    let records = reader.records().map(|r| match r {
        Ok(rec) => Ok(rec.iter().map(|f| f.to_string()).collect()),
        Err(e) => Err(e.to_string()),
    }).collect();
    CsvTable { header, records }
}

/// The entries of an optional column map.
pub open spec fn map_entries(column_map: Option<&CommercialCatalogColumnMap>) -> Option<Seq<(Seq<char>, Seq<char>)>> {
    match column_map {
        Some(cm) => Some(cm.entries()),
        None => None,
    }
}

/// The header row a load reads records by, or the message that fails the
/// load: the reader's refusal of the header row, a collision the column
/// map introduces, or the first required column missing.
pub open spec fn header_outcome(
    header: Result<Seq<Seq<char>>, Seq<char>>,
    entries: Option<Seq<(Seq<char>, Seq<char>)>>,
) -> Result<Seq<Seq<char>>, Seq<char>> {
    match header {
        Err(m) => Err("CSV header: "@ + m),
        Ok(hs) => {
            let mapped = match entries {
                Some(e) => mapped_headers(hs, e),
                None => Ok(hs),
            };
            match mapped {
                Err(m) => Err(m),
                Ok(h2) => match missing_column(h2) {
                    Some(c) => Err("CSV header is missing required column '"@ + c + "'"@),
                    None => Ok(h2),
                },
            }
        },
    }
}

/// A rejection by its fields: row, offer identifier, field, reason and
/// original value.
pub open spec fn rejection_view(j: RejectedOffer) -> (usize, Seq<char>, Seq<char>, Seq<char>, Seq<char>) {
    (j.row, j.offer_id@, j.field@, j.reason@, j.original_value@)
}

pub open spec fn rejection_views(v: Seq<RejectedOffer>) -> Seq<(usize, Seq<char>, Seq<char>, Seq<char>, Seq<char>)> {
    Seq::new(v.len(), |i: int| rejection_view(v[i]))
}

/// Some offer of `acc` has identifier `id`.
pub open spec fn has_id(acc: Seq<CommercialPrecursorOffer>, id: Seq<char>) -> bool {
    exists|k: int| 0 <= k < acc.len() && offer_key(#[trigger] acc[k]) == id
}

/// One record's effect on a load so far (`acc`, `rej`), given its parse
/// outcome `out` (unused for a record the reader refused): a refused
/// record and a rejected row are rejections when lenient and fail the
/// load when strict; an offer whose identifier an accepted one already has
/// is rejected in either mode; any other offer is accepted.
pub open spec fn load_step(
    acc: Seq<CommercialPrecursorOffer>,
    rej: Seq<(usize, Seq<char>, Seq<char>, Seq<char>, Seq<char>)>,
    record: Result<Seq<Seq<char>>, Seq<char>>,
    out: Result<CommercialPrecursorOffer, RejectedOffer>,
    n: int,
    strict: bool,
) -> Result<(Seq<CommercialPrecursorOffer>, Seq<(usize, Seq<char>, Seq<char>, Seq<char>, Seq<char>)>), Seq<char>> {
    match record {
        Err(msg) => if strict {
            Err("row "@ + decimal(n as nat) + ": "@ + msg)
        } else {
            Ok((acc, rej.push((n as usize, Seq::empty(), "row"@, msg, Seq::empty()))))
        },
        Ok(_) => match out {
            Ok(o) => if has_id(acc, offer_key(o)) {
                Ok((acc, rej.push((n as usize, offer_key(o), "offer_id"@, "duplicate offer_id within this load"@, offer_key(o)))))
            } else {
                Ok((acc.push(o), rej))
            },
            Err(j) => if strict {
                Err("row "@ + decimal(j.row as nat) + ": field '"@ + j.field@ + "': "@ + j.reason@)
            } else {
                Ok((acc, rej.push(rejection_view(j))))
            },
        },
    }
}

/// The load of the records, given each record's parse outcome `outs[i]`:
/// the offers accepted in order and the rejections, or the message that
/// fails a strict load, each record applied by [`load_step`].
pub open spec fn assemble(
    records: Seq<Result<Seq<Seq<char>>, Seq<char>>>,
    outs: Seq<Result<CommercialPrecursorOffer, RejectedOffer>>,
    strict: bool,
) -> Result<(Seq<CommercialPrecursorOffer>, Seq<(usize, Seq<char>, Seq<char>, Seq<char>, Seq<char>)>), Seq<char>>
    decreases records.len(),
{
    if records.len() == 0 {
        Ok((Seq::empty(), Seq::empty()))
    } else {
        let n = records.len() - 1;
        match assemble(records.drop_last(), outs, strict) {
            Err(m) => Err(m),
            Ok(so_far) => load_step(so_far.0, so_far.1, records.last(), outs[n], n, strict),
        }
    }
}

/// `cat` is what `CommercialPrecursorCatalog::from_offers` builds from
/// `acc`: in identifier order, each offer the first of `acc` with its
/// identifier, every identifier of `acc` present.
pub open spec fn catalog_of(cat: Seq<CommercialPrecursorOffer>, acc: Seq<CommercialPrecursorOffer>) -> bool {
    &&& sorted_by_id(cat)
    &&& forall|i: int|
        0 <= i < cat.len() ==> first_index_with_key(acc, offer_key(#[trigger] cat[i])) < acc.len()
            && acc[first_index_with_key(acc, offer_key(cat[i]))] == cat[i]
    &&& forall|k: int| 0 <= k < acc.len() ==> first_index_with_key(cat, offer_key(#[trigger] acc[k])) < cat.len()
}

/// `r` is the load of `records` under header row `hs` with the parse
/// outcomes `outs` of as many records as were read before the load
/// stopped: each outcome one [`row_verdict`] allows; the load failed if
/// it stopped early.
pub open spec fn load_matches(
    r: Result<(CommercialPrecursorCatalog, CommercialCatalogLoadReport), ProviderError>,
    records: Seq<Result<Seq<Seq<char>>, Seq<char>>>,
    hs: Seq<Seq<char>>,
    outs: Seq<Result<CommercialPrecursorOffer, RejectedOffer>>,
    strict: bool,
) -> bool {
    &&& outs.len() <= records.len()
    &&& forall|i: int|
        0 <= i < outs.len() ==> (#[trigger] records[i] matches Ok(rec) ==> row_verdict(outs[i], i as usize, hs, rec))
    &&& match assemble(records.take(outs.len() as int), outs, strict) {
        Err(m) => r matches Err(ProviderError::MalformedRecord(x)) && x@ == m,
        Ok(done) => {
            &&& outs.len() == records.len()
            &&& r matches Ok(loaded)
            &&& catalog_of(loaded.0@, done.0)
            &&& loaded.1.accepted == loaded.0@.len()
            &&& loaded.1.duplicate_offer_ids_collapsed == done.0.len() - loaded.0@.len()
            &&& rejection_views(loaded.1.rejected@) == done.1
        },
    }
}

/// Whether an accepted offer already has identifier `id`.
pub(crate) fn contains_id(acc: &Vec<CommercialPrecursorOffer>, id: &String) -> (r: bool)
    ensures
        r == has_id(acc@, id@),
{
    let mut k: usize = 0;
    while k < acc.len()
        invariant
            k <= acc@.len(),
            forall|q: int| 0 <= q < k ==> offer_key(#[trigger] acc@[q]) != id@,
        decreases acc@.len() - k,
    {
        if acc[k].offer_id.0 == *id {
            assert(offer_key(acc@[k as int]) == id@);
            return true;
        }
        k = k + 1;
    }
    false
}

/// The load of a prefix of records reads only their outcomes.
pub(crate) proof fn lemma_assemble_outs(
    records: Seq<Result<Seq<Seq<char>>, Seq<char>>>,
    a: Seq<Result<CommercialPrecursorOffer, RejectedOffer>>,
    b: Seq<Result<CommercialPrecursorOffer, RejectedOffer>>,
    strict: bool,
)
    requires
        a.len() >= records.len(),
        b.len() >= records.len(),
        forall|i: int| 0 <= i < records.len() ==> a[i] == b[i],
    ensures
        assemble(records, a, strict) == assemble(records, b, strict),
    decreases records.len(),
{
    if records.len() > 0 {
        lemma_assemble_outs(records.drop_last(), a, b, strict);
        assert(a[records.len() - 1] == b[records.len() - 1]);
    }
}

/// The strict-mode message of a refused record.
fn record_error_message(row: usize, msg: &String) -> (r: String)
    ensures
        r@ == "row "@ + decimal(row as nat) + ": "@ + msg@,
{
    let mut m = String::from_str("row ");
    append_decimal(&mut m, row as u128);
    m.append(": ");
    m.append(msg.as_str());
    m
}

/// The strict-mode message of a rejected row.
pub(crate) fn rejection_message(j: &RejectedOffer) -> (r: String)
    ensures
        r@ == "row "@ + decimal(j.row as nat) + ": field '"@ + j.field@ + "': "@ + j.reason@,
{
    let mut m = String::from_str("row ");
    append_decimal(&mut m, j.row as u128);
    m.append(": field '");
    m.append(j.field.as_str());
    m.append("': ");
    m.append(j.reason.as_str());
    m
}

/// The message of a required column missing from the header row.
fn missing_column_message(name: &str) -> (r: String)
    ensures
        r@ == "CSV header is missing required column '"@ + name@ + "'"@,
{
    let mut m = String::from_str("CSV header is missing required column '");
    m.append(name);
    m.append("'");
    m
}

/// The header row a load reads by, as [`header_outcome`] says.
fn load_headers(header: &Result<Vec<String>, String>, column_map: Option<&CommercialCatalogColumnMap>) -> (r: Result<Vec<String>, ProviderError>)
    ensures
        match header_outcome(record_view(*header), map_entries(column_map)) {
            Ok(hs) => r matches Ok(v) && texts(v@) == hs,
            Err(m) => r matches Err(ProviderError::MalformedRecord(x)) && x@ == m,
        },
{
    let raw = match header {
        Ok(v) => v,
        Err(e) => {
            let mut m = String::from_str("CSV header: ");
            m.append(e.as_str());
            return Err(ProviderError::MalformedRecord(m));
        },
    };
    let headers = match column_map {
        Some(cm) => match remap_headers(raw, cm) {
            Ok(v) => v,
            Err(e) => return Err(e),
        },
        None => raw.clone(),
    };
    assert(texts(headers@) =~= match map_entries(column_map) {
        Some(e) => mapped_headers(texts(raw@), e)->Ok_0,
        None => texts(raw@),
    });
    if !has_column(&headers, "offer_id") {
        return Err(ProviderError::MalformedRecord(missing_column_message("offer_id")));
    }
    if !has_column(&headers, "manufacturer") {
        return Err(ProviderError::MalformedRecord(missing_column_message("manufacturer")));
    }
    if !has_column(&headers, "product_name") {
        return Err(ProviderError::MalformedRecord(missing_column_message("product_name")));
    }
    if !has_column(&headers, "formula") {
        return Err(ProviderError::MalformedRecord(missing_column_message("formula")));
    }
    if !has_column(&headers, "source") {
        return Err(ProviderError::MalformedRecord(missing_column_message("source")));
    }
    Ok(headers)
}

/// The strict load mode.
pub open spec fn is_strict(mode: CommercialCatalogLoadMode) -> bool {
    mode == CommercialCatalogLoadMode::Strict
}

/// Applies one record to a load, as [`load_step`] says: `Some(message)`
/// when it fails a strict load, else the accepted offers and rejections
/// updated. Returns the record's parse outcome as well.
fn apply_record(
    record: &Result<Vec<String>, String>,
    headers: &Vec<String>,
    i: usize,
    strict: bool,
    accepted: &mut Vec<CommercialPrecursorOffer>,
    rejected: &mut Vec<RejectedOffer>,
) -> (r: (Option<String>, Ghost<Result<CommercialPrecursorOffer, RejectedOffer>>))
    requires
        compositions_wf(old(accepted)@),
    ensures
        record_view(*record) matches Ok(rec) ==> row_verdict(r.1@, i, texts(headers@), rec),
        match load_step(old(accepted)@, rejection_views(old(rejected)@), record_view(*record), r.1@, i as int, strict) {
            Err(m) => r.0 matches Some(x) && x@ == m,
            Ok(next) => r.0 is None && next == (final(accepted)@, rejection_views(final(rejected)@)),
        },
        compositions_wf(final(accepted)@),
{
    let ghost acc0 = accepted@;
    let ghost rej0 = rejected@;
    match record {
        Err(msg) => {
            if strict {
                return (Some(record_error_message(i, msg)), Ghost(vstd::pervasive::arbitrary()));
            }
            rejected.push(RejectedOffer {
                row: i,
                offer_id: String::new(),
                field: String::from_str("row"),
                reason: msg.clone(),
                original_value: String::new(),
            });
            assert(rejection_views(rejected@) =~= rejection_views(rej0).push((i, Seq::empty(), "row"@, msg@, Seq::empty())));
            (None, Ghost(vstd::pervasive::arbitrary()))
        },
        Ok(rec) => {
            let res = parse_csv_offer_row(rec, headers, i);
            let ghost out = res;
            match res {
                Ok(offer) => {
                    if contains_id(accepted, &offer.offer_id.0) {
                        let id = offer.offer_id.0.clone();
                        let id2 = offer.offer_id.0.clone();
                        rejected.push(RejectedOffer {
                            row: i,
                            offer_id: id,
                            field: String::from_str("offer_id"),
                            reason: String::from_str("duplicate offer_id within this load"),
                            original_value: id2,
                        });
                        assert(rejection_views(rejected@) =~= rejection_views(rej0).push((i, offer_key(offer), "offer_id"@, "duplicate offer_id within this load"@, offer_key(offer))));
                    } else {
                        accepted.push(offer);
                        assert(accepted@ =~= acc0.push(offer));
                    }
                    (None, Ghost(out))
                },
                Err(j) => {
                    if strict {
                        return (Some(rejection_message(&j)), Ghost(out));
                    }
                    rejected.push(j);
                    assert(rejection_views(rejected@) =~= rejection_views(rej0).push(rejection_view(j)));
                    (None, Ghost(out))
                },
            }
        },
    }
}

/// Loads a catalog from a table already split into header row and
/// records: the header row (renamed by `column_map` when given) must have
/// every required column, then every record is parsed, a duplicate
/// identifier is rejected, and the accepted offers go through
/// `CommercialPrecursorCatalog::from_offers`. In strict mode the first
/// refused record or rejected row fails the whole load. Exactly as
/// [`header_outcome`] and [`load_matches`] say.
pub fn load_csv_table(
    table: &CsvTable,
    mode: CommercialCatalogLoadMode,
    column_map: Option<&CommercialCatalogColumnMap>,
) -> (r: Result<(CommercialPrecursorCatalog, CommercialCatalogLoadReport), ProviderError>)
    ensures
        match header_outcome(record_view(table.header), map_entries(column_map)) {
            Err(m) => r matches Err(ProviderError::MalformedRecord(x)) && x@ == m,
            Ok(hs) => exists|outs: Seq<Result<CommercialPrecursorOffer, RejectedOffer>>|
                #[trigger] load_matches(r, records_view(table.records@), hs, outs, is_strict(mode)),
        },
{
    let headers = match load_headers(&table.header, column_map) {
        Ok(h) => h,
        Err(e) => return Err(e),
    };
    let ghost hs = texts(headers@);
    assert(header_outcome(record_view(table.header), map_entries(column_map)) == Ok::<Seq<Seq<char>>, Seq<char>>(hs));
    let ghost recs = records_view(table.records@);
    let strict = match mode {
        CommercialCatalogLoadMode::Strict => true,
        CommercialCatalogLoadMode::Lenient => false,
    };
    let mut accepted: Vec<CommercialPrecursorOffer> = Vec::new();
    let mut rejected: Vec<RejectedOffer> = Vec::new();
    let ghost mut outs: Seq<Result<CommercialPrecursorOffer, RejectedOffer>> = Seq::empty();
    let n = table.records.len();
    let mut i: usize = 0;
    assert(recs.take(0) =~= Seq::<Result<Seq<Seq<char>>, Seq<char>>>::empty());
    assert(rejection_views(rejected@) =~= Seq::<(usize, Seq<char>, Seq<char>, Seq<char>, Seq<char>)>::empty());
    assert(accepted@ =~= Seq::<CommercialPrecursorOffer>::empty());
    while i < n
        invariant
            i <= n,
            n == recs.len(),
            recs == records_view(table.records@),
            hs == texts(headers@),
            header_outcome(record_view(table.header), map_entries(column_map)) == Ok::<Seq<Seq<char>>, Seq<char>>(hs),
            strict == is_strict(mode),
            outs.len() == i,
            forall|k: int| 0 <= k < i ==> (#[trigger] recs[k] matches Ok(rec) ==> row_verdict(outs[k], k as usize, hs, rec)),
            assemble(recs.take(i as int), outs, strict) == Ok::<(Seq<CommercialPrecursorOffer>, Seq<(usize, Seq<char>, Seq<char>, Seq<char>, Seq<char>)>), Seq<char>>((accepted@, rejection_views(rejected@))),
            compositions_wf(accepted@),
        decreases n - i,
    {
        let ghost before = outs;
        let ghost acc_before = accepted@;
        let ghost rej_before = rejected@;
        let (failure, Ghost(out)) = apply_record(&table.records[i], &headers, i, strict, &mut accepted, &mut rejected);
        proof {
            assert(recs[i as int] == record_view(table.records@[i as int]));
            outs = outs.push(out);
            lemma_assemble_outs(recs.take(i as int), before, outs, strict);
            assert(recs.take(i + 1).drop_last() =~= recs.take(i as int));
            assert(recs.take(i + 1).last() == recs[i as int]);
            assert(outs[i as int] == out);
        }
        match failure {
            Some(m) => {
                proof {
                    assert(assemble(recs.take(i as int), outs, strict) == Ok::<(Seq<CommercialPrecursorOffer>, Seq<(usize, Seq<char>, Seq<char>, Seq<char>, Seq<char>)>), Seq<char>>((acc_before, rejection_views(rej_before))));
                    assert(assemble(recs.take(i + 1), outs, strict) == load_step(acc_before, rejection_views(rej_before), recs[i as int], out, i as int, strict));
                    assert(outs.len() == i + 1);
                }
                let r = Err(ProviderError::MalformedRecord(m));
                proof {
                    assert(load_matches(r, recs, hs, outs, strict));
                }
                return r;
            },
            None => {},
        }
        i = i + 1;
    }
    let (catalog, report0) = CommercialPrecursorCatalog::from_offers(accepted);
    let report = CommercialCatalogLoadReport {
        accepted: report0.accepted,
        duplicate_offer_ids_collapsed: report0.duplicate_offer_ids_collapsed,
        rejected,
    };
    let r = Ok((catalog, report));
    proof {
        assert(recs.take(n as int) =~= recs);
        assert(load_matches(r, recs, hs, outs, strict));
    }
    r
}

/// Loads a catalog from CSV text: the `csv` crate splits it into header
/// row and records ([`csv_table_of`]), then [`load_csv_table`] does the
/// rest.
pub fn load_csv_impl(
    csv_text: &str,
    mode: CommercialCatalogLoadMode,
    column_map: Option<&CommercialCatalogColumnMap>,
) -> (r: Result<(CommercialPrecursorCatalog, CommercialCatalogLoadReport), ProviderError>)
    ensures
        match header_outcome(csv_table_of(csv_text@).0, map_entries(column_map)) {
            Err(m) => r matches Err(ProviderError::MalformedRecord(x)) && x@ == m,
            Ok(hs) => exists|outs: Seq<Result<CommercialPrecursorOffer, RejectedOffer>>|
                #[trigger] load_matches(r, csv_table_of(csv_text@).1, hs, outs, is_strict(mode)),
        },
{
    let table = read_csv_table(csv_text);
    assert(record_view(table.header) == csv_table_of(csv_text@).0);
    assert(records_view(table.records@) == csv_table_of(csv_text@).1);
    load_csv_table(&table, mode, column_map)
}

impl CommercialPrecursorCatalog {
    /// Loads a catalog from CSV text, as [`load_csv_impl`] says.
    pub fn load_csv(csv_text: &str, mode: CommercialCatalogLoadMode) -> (r: Result<(CommercialPrecursorCatalog, CommercialCatalogLoadReport), ProviderError>)
        ensures
            match header_outcome(csv_table_of(csv_text@).0, None) {
                Err(m) => r matches Err(ProviderError::MalformedRecord(x)) && x@ == m,
                Ok(hs) => exists|outs: Seq<Result<CommercialPrecursorOffer, RejectedOffer>>|
                    #[trigger] load_matches(r, csv_table_of(csv_text@).1, hs, outs, is_strict(mode)),
            },
    {
        load_csv_impl(csv_text, mode, None)
    }

    /// Like [`CommercialPrecursorCatalog::load_csv`], but first renames
    /// the header row by `column_map` (canonical name to the header this
    /// file uses), refusing a collision the map introduces.
    pub fn load_csv_with_column_map(
        csv_text: &str,
        mode: CommercialCatalogLoadMode,
        column_map: &CommercialCatalogColumnMap,
    ) -> (r: Result<(CommercialPrecursorCatalog, CommercialCatalogLoadReport), ProviderError>)
        ensures
            match header_outcome(csv_table_of(csv_text@).0, Some(column_map.entries())) {
                Err(m) => r matches Err(ProviderError::MalformedRecord(x)) && x@ == m,
                Ok(hs) => exists|outs: Seq<Result<CommercialPrecursorOffer, RejectedOffer>>|
                    #[trigger] load_matches(r, csv_table_of(csv_text@).1, hs, outs, is_strict(mode)),
            },
    {
        load_csv_impl(csv_text, mode, Some(column_map))
    }
}

proof fn lemma_renamed_untouched(x: Seq<char>, entries: Seq<(Seq<char>, Seq<char>)>)
    requires
        forall|k: int| 0 <= k < entries.len() ==> (#[trigger] entries[k]).1 != x,
    ensures
        renamed(x, entries) == (x, false),
    decreases entries.len(),
{
    if entries.len() > 0 {
        assert(entries[0].1 != x);
        assert forall|k: int| 0 <= k < entries.len() - 1 implies (#[trigger] entries.drop_first()[k]).1 != x by {
            assert(entries.drop_first()[k] == entries[k + 1]);
        }
        lemma_renamed_untouched(x, entries.drop_first());
    }
}

proof fn lemma_no_collision_from(r: Seq<(Seq<char>, bool)>, i: int)
    requires
        0 <= i <= r.len(),
        forall|k: int| 0 <= k < r.len() ==> !(#[trigger] r[k]).1,
    ensures
        first_collision(r, i) == r.len(),
    decreases r.len() - i,
{
    if i < r.len() {
        assert(!r[i].1);
        assert(!collides_at(r, i));
        lemma_no_collision_from(r, i + 1);
    }
}

/// A column map that renames none of the file's headers changes nothing:
/// the header row, and so the whole load, is what it is without the map.
pub proof fn lemma_untouching_column_map(hs: Seq<Seq<char>>, entries: Seq<(Seq<char>, Seq<char>)>)
    requires
        forall|k: int| 0 <= k < entries.len() ==> !hs.contains(#[trigger] entries[k].1),
    ensures
        mapped_headers(hs, entries) == Ok::<Seq<Seq<char>>, Seq<char>>(hs),
        header_outcome(Ok(hs), Some(entries)) == header_outcome(Ok(hs), None),
{
    let r = renamed_all(hs, entries);
    assert forall|i: int| 0 <= i < hs.len() implies #[trigger] r[i] == (hs[i], false) by {
        assert forall|k: int| 0 <= k < entries.len() implies (#[trigger] entries[k]).1 != hs[i] by {
            if entries[k].1 == hs[i] {
                assert(hs.contains(entries[k].1));
            }
        }
        lemma_renamed_untouched(hs[i], entries);
    }
    lemma_no_collision_from(r, 0);
    assert(Seq::new(r.len(), |i: int| r[i].0) =~= hs);
}

} // verus!
