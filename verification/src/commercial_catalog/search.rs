//! Hard-constraint filtering of offers against a planning request, and
//! the totals of a chosen combination of offers.

use crate::commercial_catalog::formula::qadd;
use crate::frac::add_fits;
use crate::commercial_catalog::model::{
    AvailabilityStatus, CommercialCombination, CommercialExclusionCode, CommercialOfferId,
    CommercialPlanningConfig,
    CommercialOfferSelection, CommercialPlanningRequest, CommercialPrecursorOffer, CurrencyCode,
    MissingCommercialDataPolicy, Money, PurityFraction,
};
use crate::commercial_catalog::quantity::{name_views, OfferQuantity};
use crate::commercial_catalog::ranking::{
    choice_better, describes, entry_choices, insert_rank_entry, lemma_ranks_better_choice,
    rank_better, rank_entry, rank_sorted, RankEntry,
};
use crate::composition::Composition;
use crate::error::GugenError;
use crate::frac::Frac;
use crate::linalg::Q;
use crate::precursor::PrecursorId;
use vstd::prelude::*;
use vstd::string::{StrSliceExecFns, StringExecFns};

verus! {

/// Some string of `s` reads `t`.
pub open spec fn has_text(s: Seq<String>, t: Seq<char>) -> bool {
    exists|i: int| 0 <= i < s.len() && (#[trigger] s[i])@ == t
}

/// Some code of `s` names the same currency as `c`.
pub open spec fn has_currency(s: Seq<CurrencyCode>, c: CurrencyCode) -> bool {
    exists|i: int| 0 <= i < s.len() && (#[trigger] s[i]).letters() == c.letters()
}

/// The codes one optional, hard-constrained field contributes: its own
/// code when reported and failing, `MissingConstrainedField` when not
/// reported and missing data is rejected, nothing otherwise.
pub open spec fn field_codes(
    constrained: bool,
    reported: bool,
    fails: bool,
    code: CommercialExclusionCode,
    reject_missing: bool,
) -> Seq<CommercialExclusionCode> {
    if !constrained {
        seq![]
    } else if reported {
        if fails {
            seq![code]
        } else {
            seq![]
        }
    } else if reject_missing {
        seq![CommercialExclusionCode::MissingConstrainedField]
    } else {
        seq![]
    }
}

/// `code` when `cond` holds.
pub open spec fn code_if(cond: bool, code: CommercialExclusionCode) -> Seq<CommercialExclusionCode> {
    if cond {
        seq![code]
    } else {
        seq![]
    }
}

/// The purity constraint's codes.
#[verifier::opaque]
pub open spec fn purity_codes(o: CommercialPrecursorOffer, r: CommercialPlanningRequest) -> Seq<CommercialExclusionCode> {
    field_codes(
        r.min_purity is Some,
        o.purity is Some,
        o.purity is Some && r.min_purity is Some && o.purity->0.fraction()@.0 * r.min_purity->0.fraction()@.1
            < r.min_purity->0.fraction()@.0 * o.purity->0.fraction()@.1,
        CommercialExclusionCode::PurityBelowMinimum,
        r.missing_data_policy == MissingCommercialDataPolicy::Reject,
    )
}

/// The manufacturer constraint's codes.
#[verifier::opaque]
pub open spec fn manufacturer_codes(o: CommercialPrecursorOffer, r: CommercialPlanningRequest) -> Seq<CommercialExclusionCode> {
    code_if(
        (r.allowed_manufacturers is Some && !has_text(r.allowed_manufacturers->0@, o.manufacturer@))
            || has_text(r.excluded_manufacturers@, o.manufacturer@),
        CommercialExclusionCode::ManufacturerNotAllowed,
    )
}

/// The lead-time constraint's codes.
#[verifier::opaque]
pub open spec fn lead_time_codes(o: CommercialPrecursorOffer, r: CommercialPlanningRequest) -> Seq<CommercialExclusionCode> {
    field_codes(
        r.max_lead_time_days is Some,
        o.lead_time_days is Some,
        o.lead_time_days is Some && r.max_lead_time_days is Some && o.lead_time_days->0
            > r.max_lead_time_days->0,
        CommercialExclusionCode::LeadTimeExceedsMaximum,
        r.missing_data_policy == MissingCommercialDataPolicy::Reject,
    )
}

/// The availability constraint's codes.
#[verifier::opaque]
pub open spec fn availability_codes(o: CommercialPrecursorOffer, r: CommercialPlanningRequest) -> Seq<CommercialExclusionCode> {
    field_codes(
        r.allowed_availability_statuses is Some,
        o.availability is Some,
        o.availability is Some && r.allowed_availability_statuses is Some
            && !r.allowed_availability_statuses->0@.contains(o.availability->0),
        CommercialExclusionCode::AvailabilityExcluded,
        r.missing_data_policy == MissingCommercialDataPolicy::Reject,
    )
}

/// The physical-form constraint's codes.
#[verifier::opaque]
pub open spec fn form_codes(o: CommercialPrecursorOffer, r: CommercialPlanningRequest) -> Seq<CommercialExclusionCode> {
    field_codes(
        r.allowed_physical_forms is Some,
        o.physical_form is Some,
        o.physical_form is Some && r.allowed_physical_forms is Some && !has_text(
            r.allowed_physical_forms->0@,
            o.physical_form->0@,
        ),
        CommercialExclusionCode::PhysicalFormNotAllowed,
        r.missing_data_policy == MissingCommercialDataPolicy::Reject,
    )
}

/// The tag constraints' codes: a required tag missing, an excluded tag
/// present.
#[verifier::opaque]
pub open spec fn tag_codes(o: CommercialPrecursorOffer, r: CommercialPlanningRequest) -> Seq<CommercialExclusionCode> {
    code_if(
        exists|i: int|
            0 <= i < r.required_tags@.len() && !has_text(o.tags@, (#[trigger] r.required_tags@[i])@),
        CommercialExclusionCode::RequiredTagMissing,
    ) + code_if(
        exists|i: int| 0 <= i < o.tags@.len() && has_text(r.excluded_tags@, (#[trigger] o.tags@[i])@),
        CommercialExclusionCode::ExcludedTagPresent,
    )
}

/// The currency constraint's codes.
#[verifier::opaque]
pub open spec fn currency_codes(o: CommercialPrecursorOffer, r: CommercialPlanningRequest) -> Seq<CommercialExclusionCode> {
    field_codes(
        r.allowed_currencies is Some,
        o.unit_price is Some,
        o.unit_price is Some && r.allowed_currencies is Some && !has_currency(
            r.allowed_currencies->0@,
            o.unit_price->0.code(),
        ),
        CommercialExclusionCode::CurrencyNotAllowed,
        r.missing_data_policy == MissingCommercialDataPolicy::Reject,
    )
}

/// The known-price and known-package-size requirements' codes.
#[verifier::opaque]
pub open spec fn known_field_codes(o: CommercialPrecursorOffer, r: CommercialPlanningRequest) -> Seq<CommercialExclusionCode> {
    code_if(r.require_known_price && o.unit_price is None, CommercialExclusionCode::PriceRequiredButUnknown)
        + code_if(
        r.require_known_package_size && o.package_mass is None,
        CommercialExclusionCode::PackageSizeRequiredButUnknown,
    )
}

/// Why `o` breaks the hard constraints of `r`, in a fixed order: purity,
/// manufacturer, lead time, availability, physical form, required tags,
/// excluded tags, currency, known price, known package size.
pub open spec fn violation_codes(o: CommercialPrecursorOffer, r: CommercialPlanningRequest) -> Seq<CommercialExclusionCode> {
    purity_codes(o, r) + manufacturer_codes(o, r) + lead_time_codes(o, r) + availability_codes(o, r)
        + form_codes(o, r) + tag_codes(o, r) + currency_codes(o, r) + known_field_codes(o, r)
}

/// A concatenation holds exactly what its two parts hold.
proof fn lemma_contains_concat<T>(a: Seq<T>, b: Seq<T>)
    ensures
        forall|x: T| #[trigger] (a + b).contains(x) <==> a.contains(x) || b.contains(x),
{
    assert forall|x: T| #[trigger] (a + b).contains(x) <==> a.contains(x) || b.contains(x) by {
        if a.contains(x) {
            let i = choose|i: int| 0 <= i < a.len() && a[i] == x;
            assert((a + b)[i] == x);
        }
        if b.contains(x) {
            let i = choose|i: int| 0 <= i < b.len() && b[i] == x;
            assert((a + b)[a.len() + i] == x);
        }
        if (a + b).contains(x) {
            let i = choose|i: int| 0 <= i < (a + b).len() && (a + b)[i] == x;
            if i < a.len() {
                assert(a[i] == x);
            } else {
                assert(b[i - a.len()] == x);
            }
        }
    }
}

/// What a conditional code holds.
proof fn lemma_code_if_holds(cond: bool, code: CommercialExclusionCode)
    ensures
        forall|x: CommercialExclusionCode| #[trigger] code_if(cond, code).contains(x) <==> (cond && x == code),
{
    if cond {
        assert(code_if(cond, code)[0] == code);
    }
}

/// What an optional constrained field's codes hold.
proof fn lemma_field_codes_hold(
    constrained: bool,
    reported: bool,
    fails: bool,
    code: CommercialExclusionCode,
    reject_missing: bool,
)
    ensures
        forall|x: CommercialExclusionCode|
            #[trigger] field_codes(constrained, reported, fails, code, reject_missing).contains(x) <==> (
            constrained && ((reported && fails && x == code) || (!reported && reject_missing && x
                == CommercialExclusionCode::MissingConstrainedField))),
{
    let a = code_if(constrained && reported && fails, code);
    let b = code_if(
        constrained && !reported && reject_missing,
        CommercialExclusionCode::MissingConstrainedField,
    );
    assert(field_codes(constrained, reported, fails, code, reject_missing) =~= a + b);
    lemma_code_if_holds(constrained && reported && fails, code);
    lemma_code_if_holds(
        constrained && !reported && reject_missing,
        CommercialExclusionCode::MissingConstrainedField,
    );
    lemma_contains_concat(a, b);
}

/// Which hard constraints an offer breaks, in terms of the offer and the
/// request: a purity below the minimum, a manufacturer not allowed or
/// excluded, a lead time over the maximum, an availability or physical form
/// not allowed, a required tag the offer does not carry (any one of them),
/// an excluded tag it carries, a currency not allowed, an unknown price or
/// package size that is required, and a constrained field left unreported
/// when missing data is rejected.
#[verifier::rlimit(60)]
#[verifier::spinoff_prover]
pub proof fn lemma_violations_meaning(o: CommercialPrecursorOffer, r: CommercialPlanningRequest)
    ensures
        violation_codes(o, r).contains(CommercialExclusionCode::PurityBelowMinimum) <==> (r.min_purity
            is Some && o.purity is Some && o.purity->0.fraction()@.0 * r.min_purity->0.fraction()@.1
            < r.min_purity->0.fraction()@.0 * o.purity->0.fraction()@.1),
        violation_codes(o, r).contains(CommercialExclusionCode::ManufacturerNotAllowed) <==> ((
        r.allowed_manufacturers is Some && !has_text(r.allowed_manufacturers->0@, o.manufacturer@))
            || has_text(r.excluded_manufacturers@, o.manufacturer@)),
        violation_codes(o, r).contains(CommercialExclusionCode::LeadTimeExceedsMaximum) <==> (
        r.max_lead_time_days is Some && o.lead_time_days is Some && o.lead_time_days->0
            > r.max_lead_time_days->0),
        violation_codes(o, r).contains(CommercialExclusionCode::AvailabilityExcluded) <==> (
        r.allowed_availability_statuses is Some && o.availability is Some
            && !r.allowed_availability_statuses->0@.contains(o.availability->0)),
        violation_codes(o, r).contains(CommercialExclusionCode::PhysicalFormNotAllowed) <==> (
        r.allowed_physical_forms is Some && o.physical_form is Some && !has_text(
            r.allowed_physical_forms->0@,
            o.physical_form->0@,
        )),
        violation_codes(o, r).contains(CommercialExclusionCode::RequiredTagMissing) <==> (exists|i: int|
            0 <= i < r.required_tags@.len() && !has_text(o.tags@, (#[trigger] r.required_tags@[i])@)),
        violation_codes(o, r).contains(CommercialExclusionCode::ExcludedTagPresent) <==> (exists|i: int|
            0 <= i < o.tags@.len() && has_text(r.excluded_tags@, (#[trigger] o.tags@[i])@)),
        violation_codes(o, r).contains(CommercialExclusionCode::CurrencyNotAllowed) <==> (
        r.allowed_currencies is Some && o.unit_price is Some && !has_currency(
            r.allowed_currencies->0@,
            o.unit_price->0.code(),
        )),
        violation_codes(o, r).contains(CommercialExclusionCode::PriceRequiredButUnknown) <==> (
        r.require_known_price && o.unit_price is None),
        violation_codes(o, r).contains(CommercialExclusionCode::PackageSizeRequiredButUnknown) <==> (
        r.require_known_package_size && o.package_mass is None),
        violation_codes(o, r).contains(CommercialExclusionCode::MissingConstrainedField) <==> (
        r.missing_data_policy == MissingCommercialDataPolicy::Reject && ((r.min_purity is Some
            && o.purity is None) || (r.max_lead_time_days is Some && o.lead_time_days is None) || (
        r.allowed_availability_statuses is Some && o.availability is None) || (
        r.allowed_physical_forms is Some && o.physical_form is None) || (r.allowed_currencies is Some
            && o.unit_price is None))),
{
    reveal(purity_codes);
    reveal(manufacturer_codes);
    reveal(lead_time_codes);
    reveal(availability_codes);
    reveal(form_codes);
    reveal(tag_codes);
    reveal(currency_codes);
    reveal(known_field_codes);
    let reject = r.missing_data_policy == MissingCommercialDataPolicy::Reject;
    let p1 = purity_codes(o, r);
    let p2 = manufacturer_codes(o, r);
    let p3 = lead_time_codes(o, r);
    let p4 = availability_codes(o, r);
    let p5 = form_codes(o, r);
    let p6 = tag_codes(o, r);
    let p7 = currency_codes(o, r);
    let p8 = known_field_codes(o, r);
    lemma_field_codes_hold(
        r.min_purity is Some,
        o.purity is Some,
        o.purity is Some && r.min_purity is Some && o.purity->0.fraction()@.0 * r.min_purity->0.fraction()@.1
            < r.min_purity->0.fraction()@.0 * o.purity->0.fraction()@.1,
        CommercialExclusionCode::PurityBelowMinimum,
        reject,
    );
    lemma_code_if_holds(
        (r.allowed_manufacturers is Some && !has_text(r.allowed_manufacturers->0@, o.manufacturer@))
            || has_text(r.excluded_manufacturers@, o.manufacturer@),
        CommercialExclusionCode::ManufacturerNotAllowed,
    );
    lemma_field_codes_hold(
        r.max_lead_time_days is Some,
        o.lead_time_days is Some,
        o.lead_time_days is Some && r.max_lead_time_days is Some && o.lead_time_days->0
            > r.max_lead_time_days->0,
        CommercialExclusionCode::LeadTimeExceedsMaximum,
        reject,
    );
    lemma_field_codes_hold(
        r.allowed_availability_statuses is Some,
        o.availability is Some,
        o.availability is Some && r.allowed_availability_statuses is Some
            && !r.allowed_availability_statuses->0@.contains(o.availability->0),
        CommercialExclusionCode::AvailabilityExcluded,
        reject,
    );
    lemma_field_codes_hold(
        r.allowed_physical_forms is Some,
        o.physical_form is Some,
        o.physical_form is Some && r.allowed_physical_forms is Some && !has_text(
            r.allowed_physical_forms->0@,
            o.physical_form->0@,
        ),
        CommercialExclusionCode::PhysicalFormNotAllowed,
        reject,
    );
    let missing_tag = exists|i: int|
        0 <= i < r.required_tags@.len() && !has_text(o.tags@, (#[trigger] r.required_tags@[i])@);
    let excluded_tag = exists|i: int| 0 <= i < o.tags@.len() && has_text(r.excluded_tags@, (#[trigger] o.tags@[i])@);
    lemma_code_if_holds(missing_tag, CommercialExclusionCode::RequiredTagMissing);
    lemma_code_if_holds(excluded_tag, CommercialExclusionCode::ExcludedTagPresent);
    lemma_contains_concat(
        code_if(missing_tag, CommercialExclusionCode::RequiredTagMissing),
        code_if(excluded_tag, CommercialExclusionCode::ExcludedTagPresent),
    );
    lemma_field_codes_hold(
        r.allowed_currencies is Some,
        o.unit_price is Some,
        o.unit_price is Some && r.allowed_currencies is Some && !has_currency(
            r.allowed_currencies->0@,
            o.unit_price->0.code(),
        ),
        CommercialExclusionCode::CurrencyNotAllowed,
        reject,
    );
    let known_price = r.require_known_price && o.unit_price is None;
    let known_size = r.require_known_package_size && o.package_mass is None;
    lemma_code_if_holds(known_price, CommercialExclusionCode::PriceRequiredButUnknown);
    lemma_code_if_holds(known_size, CommercialExclusionCode::PackageSizeRequiredButUnknown);
    lemma_contains_concat(
        code_if(known_price, CommercialExclusionCode::PriceRequiredButUnknown),
        code_if(known_size, CommercialExclusionCode::PackageSizeRequiredButUnknown),
    );
    lemma_contains_concat(p1, p2);
    lemma_contains_concat(p1 + p2, p3);
    lemma_contains_concat(p1 + p2 + p3, p4);
    lemma_contains_concat(p1 + p2 + p3 + p4, p5);
    lemma_contains_concat(p1 + p2 + p3 + p4 + p5, p6);
    lemma_contains_concat(p1 + p2 + p3 + p4 + p5 + p6, p7);
    lemma_contains_concat(p1 + p2 + p3 + p4 + p5 + p6 + p7, p8);
    assert(violation_codes(o, r) == p1 + p2 + p3 + p4 + p5 + p6 + p7 + p8);
}

/// Whether some string of `s` equals `t`.
fn contains_text(s: &Vec<String>, t: &String) -> (r: bool)
    ensures
        r == has_text(s@, t@),
{
    let mut i: usize = 0;
    while i < s.len()
        invariant
            i <= s@.len(),
            forall|j: int| 0 <= j < i ==> (#[trigger] s@[j])@ != t@,
        decreases s@.len() - i,
    {
        if s[i] == *t {
            return true;
        }
        i = i + 1;
    }
    false
}

/// Whether some code of `s` names the currency `c`.
fn contains_currency(s: &Vec<CurrencyCode>, c: &CurrencyCode) -> (r: bool)
    ensures
        r == has_currency(s@, *c),
{
    let mut i: usize = 0;
    while i < s.len()
        invariant
            i <= s@.len(),
            forall|j: int| 0 <= j < i ==> (#[trigger] s@[j]).letters() != c.letters(),
        decreases s@.len() - i,
    {
        if s[i].same(c) {
            return true;
        }
        i = i + 1;
    }
    false
}

/// Whether `s` holds the status `a`.
fn contains_status(s: &Vec<AvailabilityStatus>, a: AvailabilityStatus) -> (r: bool)
    ensures
        r == s@.contains(a),
{
    let mut i: usize = 0;
    while i < s.len()
        invariant
            i <= s@.len(),
            forall|j: int| 0 <= j < i ==> s@[j] != a,
        decreases s@.len() - i,
    {
        if s[i] == a {
            assert(s@[i as int] == a);
            return true;
        }
        i = i + 1;
    }
    false
}

/// Appends the codes of one optional constrained field.
fn push_field_codes(
    codes: &mut Vec<CommercialExclusionCode>,
    constrained: bool,
    reported: bool,
    fails: bool,
    code: CommercialExclusionCode,
    reject_missing: bool,
)
    ensures
        final(codes)@ == old(codes)@ + field_codes(constrained, reported, fails, code, reject_missing),
{
    if constrained {
        if reported {
            if fails {
                codes.push(code);
            }
        } else if reject_missing {
            codes.push(CommercialExclusionCode::MissingConstrainedField);
        }
    }
    assert(codes@ =~= old(codes)@ + field_codes(constrained, reported, fails, code, reject_missing));
}

/// Appends `code` when `cond` holds.
fn push_code_if(codes: &mut Vec<CommercialExclusionCode>, cond: bool, code: CommercialExclusionCode)
    ensures
        final(codes)@ == old(codes)@ + code_if(cond, code),
{
    if cond {
        codes.push(code);
    }
    assert(codes@ =~= old(codes)@ + code_if(cond, code));
}

fn is_reject(p: MissingCommercialDataPolicy) -> (r: bool)
    ensures
        r == (p == MissingCommercialDataPolicy::Reject),
{
    match p {
        MissingCommercialDataPolicy::Reject => true,
        MissingCommercialDataPolicy::KeepWithWarning => false,
    }
}

fn push_purity(codes: &mut Vec<CommercialExclusionCode>, offer: &CommercialPrecursorOffer, request: &CommercialPlanningRequest)
    ensures
        final(codes)@ == old(codes)@ + purity_codes(*offer, *request),
{
    proof {
        reveal(purity_codes);
    }
    let fails = match (&offer.purity, &request.min_purity) {
        (Some(p), Some(m)) => p.value().less_than(&m.value()),
        _ => false,
    };
    push_field_codes(
        codes,
        request.min_purity.is_some(),
        offer.purity.is_some(),
        fails,
        CommercialExclusionCode::PurityBelowMinimum,
        is_reject(request.missing_data_policy),
    );
}

fn push_manufacturer(codes: &mut Vec<CommercialExclusionCode>, offer: &CommercialPrecursorOffer, request: &CommercialPlanningRequest)
    ensures
        final(codes)@ == old(codes)@ + manufacturer_codes(*offer, *request),
{
    proof {
        reveal(manufacturer_codes);
    }
    let refused = match &request.allowed_manufacturers {
        Some(allowed) => !contains_text(allowed, &offer.manufacturer),
        None => false,
    } || contains_text(&request.excluded_manufacturers, &offer.manufacturer);
    push_code_if(codes, refused, CommercialExclusionCode::ManufacturerNotAllowed);
}

fn push_lead_time(codes: &mut Vec<CommercialExclusionCode>, offer: &CommercialPrecursorOffer, request: &CommercialPlanningRequest)
    ensures
        final(codes)@ == old(codes)@ + lead_time_codes(*offer, *request),
{
    proof {
        reveal(lead_time_codes);
    }
    let fails = match (offer.lead_time_days, request.max_lead_time_days) {
        (Some(lt), Some(max)) => lt > max,
        _ => false,
    };
    push_field_codes(
        codes,
        request.max_lead_time_days.is_some(),
        offer.lead_time_days.is_some(),
        fails,
        CommercialExclusionCode::LeadTimeExceedsMaximum,
        is_reject(request.missing_data_policy),
    );
}

fn push_availability(codes: &mut Vec<CommercialExclusionCode>, offer: &CommercialPrecursorOffer, request: &CommercialPlanningRequest)
    ensures
        final(codes)@ == old(codes)@ + availability_codes(*offer, *request),
{
    proof {
        reveal(availability_codes);
    }
    let fails = match (offer.availability, &request.allowed_availability_statuses) {
        (Some(a), Some(allowed)) => !contains_status(allowed, a),
        _ => false,
    };
    push_field_codes(
        codes,
        request.allowed_availability_statuses.is_some(),
        offer.availability.is_some(),
        fails,
        CommercialExclusionCode::AvailabilityExcluded,
        is_reject(request.missing_data_policy),
    );
}

fn push_form(codes: &mut Vec<CommercialExclusionCode>, offer: &CommercialPrecursorOffer, request: &CommercialPlanningRequest)
    ensures
        final(codes)@ == old(codes)@ + form_codes(*offer, *request),
{
    proof {
        reveal(form_codes);
    }
    let fails = match (&offer.physical_form, &request.allowed_physical_forms) {
        (Some(form), Some(allowed)) => !contains_text(allowed, form),
        _ => false,
    };
    push_field_codes(
        codes,
        request.allowed_physical_forms.is_some(),
        offer.physical_form.is_some(),
        fails,
        CommercialExclusionCode::PhysicalFormNotAllowed,
        is_reject(request.missing_data_policy),
    );
}

fn push_tags(codes: &mut Vec<CommercialExclusionCode>, offer: &CommercialPrecursorOffer, request: &CommercialPlanningRequest)
    ensures
        final(codes)@ == old(codes)@ + tag_codes(*offer, *request),
{
    proof {
        reveal(tag_codes);
    }
    let mut missing_tag = false;
    let mut i: usize = 0;
    while i < request.required_tags.len()
        invariant
            i <= request.required_tags@.len(),
            missing_tag == exists|j: int|
                0 <= j < i && !has_text(offer.tags@, (#[trigger] request.required_tags@[j])@),
        decreases request.required_tags@.len() - i,
    {
        if !contains_text(&offer.tags, &request.required_tags[i]) {
            missing_tag = true;
        }
        i = i + 1;
    }
    let mut excluded_tag = false;
    let mut i: usize = 0;
    while i < offer.tags.len()
        invariant
            i <= offer.tags@.len(),
            excluded_tag == exists|j: int|
                0 <= j < i && has_text(request.excluded_tags@, (#[trigger] offer.tags@[j])@),
        decreases offer.tags@.len() - i,
    {
        if contains_text(&request.excluded_tags, &offer.tags[i]) {
            excluded_tag = true;
        }
        i = i + 1;
    }
    let ghost before = codes@;
    push_code_if(codes, missing_tag, CommercialExclusionCode::RequiredTagMissing);
    push_code_if(codes, excluded_tag, CommercialExclusionCode::ExcludedTagPresent);
    assert(codes@ =~= before + tag_codes(*offer, *request));
}

fn push_currency(codes: &mut Vec<CommercialExclusionCode>, offer: &CommercialPrecursorOffer, request: &CommercialPlanningRequest)
    ensures
        final(codes)@ == old(codes)@ + currency_codes(*offer, *request),
{
    proof {
        reveal(currency_codes);
    }
    let fails = match (&offer.unit_price, &request.allowed_currencies) {
        (Some(price), Some(allowed)) => !contains_currency(allowed, &price.currency()),
        _ => false,
    };
    push_field_codes(
        codes,
        request.allowed_currencies.is_some(),
        offer.unit_price.is_some(),
        fails,
        CommercialExclusionCode::CurrencyNotAllowed,
        is_reject(request.missing_data_policy),
    );
}

fn push_known_fields(codes: &mut Vec<CommercialExclusionCode>, offer: &CommercialPrecursorOffer, request: &CommercialPlanningRequest)
    ensures
        final(codes)@ == old(codes)@ + known_field_codes(*offer, *request),
{
    proof {
        reveal(known_field_codes);
    }
    let ghost before = codes@;
    push_code_if(
        codes,
        request.require_known_price && offer.unit_price.is_none(),
        CommercialExclusionCode::PriceRequiredButUnknown,
    );
    push_code_if(
        codes,
        request.require_known_package_size && offer.package_mass.is_none(),
        CommercialExclusionCode::PackageSizeRequiredButUnknown,
    );
    assert(codes@ =~= before + known_field_codes(*offer, *request));
}

/// The hard constraints of `request` that `offer` breaks, as
/// [`violation_codes`] lists them; empty when the offer is acceptable.
pub fn hard_constraint_violations(
    offer: &CommercialPrecursorOffer,
    request: &CommercialPlanningRequest,
) -> (r: Vec<CommercialExclusionCode>)
    ensures
        r@ == violation_codes(*offer, *request),
{
    let mut codes: Vec<CommercialExclusionCode> = Vec::new();
    push_purity(&mut codes, offer, request);
    push_manufacturer(&mut codes, offer, request);
    push_lead_time(&mut codes, offer, request);
    push_availability(&mut codes, offer, request);
    push_form(&mut codes, offer, request);
    push_tags(&mut codes, offer, request);
    push_currency(&mut codes, offer, request);
    push_known_fields(&mut codes, offer, request);
    assert(codes@ =~= violation_codes(*offer, *request));
    codes
}

/// An offer considered for one precursor row, with what it leaves
/// unreported and its quantities.
pub struct OfferCandidate<'a> {
    pub offer: &'a CommercialPrecursorOffer,
    pub unresolved_fields: Vec<&'static str>,
    pub quantity: OfferQuantity,
}

/// `indices` picks one candidate from each row.
pub open spec fn valid_choice<'a>(rows: Seq<Vec<OfferCandidate<'a>>>, indices: Seq<usize>) -> bool {
    &&& indices.len() == rows.len()
    &&& forall|i: int| 0 <= i < rows.len() ==> (#[trigger] indices[i]) < rows[i]@.len()
}

/// The candidates `indices` picks, in row order.
pub open spec fn chosen<'a>(rows: Seq<Vec<OfferCandidate<'a>>>, indices: Seq<usize>) -> Seq<OfferCandidate<'a>> {
    Seq::new(indices.len(), |i: int| rows[i]@[indices[i] as int])
}

/// The total of the subtotals as minor units and currency: `None` when
/// there is no candidate, some subtotal is unknown, two currencies differ,
/// or the sum leaves `u64`.
pub open spec fn cost_total<'a>(sel: Seq<OfferCandidate<'a>>) -> Option<(int, CurrencyCode)>
    decreases sel.len(),
{
    if sel.len() == 0 {
        None
    } else if sel.len() == 1 {
        match sel[0].quantity.subtotal {
            Some(m) => Some((m.units() as int, m.code())),
            None => None,
        }
    } else {
        match (cost_total(sel.drop_last()), sel.last().quantity.subtotal) {
            (Some(t), Some(m)) => if t.1.letters() == m.code().letters() && t.0 + m.units() <= u64::MAX {
                Some((t.0 + m.units(), t.1))
            } else {
                None
            },
            _ => None,
        }
    }
}

/// Whether a total satisfies the ceiling: always without a ceiling, and
/// when the total is unknown or in another currency (it cannot be
/// checked); otherwise when it is at most the ceiling.
pub open spec fn within_ceiling(total: Option<Money>, ceiling: Option<Money>) -> bool {
    match (total, ceiling) {
        (Some(c), Some(m)) => c.code().letters() != m.code().letters() || c.units() <= m.units(),
        _ => true,
    }
}

/// The longest lead time of a selection is known exactly when every lead
/// time is, and then no candidate's exceeds it and, for a non-empty
/// selection, some candidate's equals it.
pub proof fn lemma_lead_max_meaning<'a>(sel: Seq<OfferCandidate<'a>>)
    ensures
        lead_max(sel) is Some <==> forall|i: int| 0 <= i < sel.len() ==> (#[trigger] sel[i]).offer.lead_time_days is Some,
        lead_max(sel) matches Some(m) ==> m >= 0 && (forall|i: int|
            0 <= i < sel.len() ==> (#[trigger] sel[i]).offer.lead_time_days->0 <= m) && (sel.len() > 0
            ==> exists|i: int| 0 <= i < sel.len() && (#[trigger] sel[i]).offer.lead_time_days->0 == m),
    decreases sel.len(),
{
    if sel.len() > 0 {
        let t = sel.drop_last();
        lemma_lead_max_meaning(t);
        let last = sel[sel.len() - 1];
        assert(sel.last() == last);
        if lead_max(t) is Some && last.offer.lead_time_days is Some {
            let m = lead_max(sel)->0;
            assert forall|i: int| 0 <= i < sel.len() implies (#[trigger] sel[i]).offer.lead_time_days is Some
                && sel[i].offer.lead_time_days->0 <= m by {
                if i < t.len() {
                    assert(sel[i] == t[i]);
                    assert(t[i].offer.lead_time_days->0 <= lead_max(t)->0);
                }
            }
            if last.offer.lead_time_days->0 > lead_max(t)->0 {
                assert(sel[sel.len() - 1].offer.lead_time_days->0 == m);
            } else if t.len() > 0 {
                let j = choose|j: int| 0 <= j < t.len() && (#[trigger] t[j]).offer.lead_time_days->0
                    == lead_max(t)->0;
                assert(sel[j] == t[j]);
                assert(sel[j].offer.lead_time_days->0 == m);
            } else {
                assert(sel[0] == last);
                assert(last.offer.lead_time_days->0 >= 0);
                assert(sel[0].offer.lead_time_days->0 == m);
            }
        } else if lead_max(t) is None {
            let i = choose|i: int| 0 <= i < t.len() && !((#[trigger] t[i]).offer.lead_time_days is Some);
            assert(sel[i] == t[i]);
        } else {
            assert(!(sel[sel.len() - 1].offer.lead_time_days is Some));
        }
    }
}

/// The cost ceiling holds for a total when either is unknown or they are
/// in different currencies; in the same currency, exactly when the total is
/// at most the ceiling.
pub proof fn lemma_ceiling_meaning(total: Option<Money>, ceiling: Option<Money>)
    ensures
        (total matches Some(t) && ceiling matches Some(m) && t.code().letters() == m.code().letters())
            ==> (within_ceiling(total, ceiling) <==> total->0.units() <= ceiling->0.units()),
        !(total matches Some(t) && ceiling matches Some(m) && t.code().letters() == m.code().letters())
            ==> within_ceiling(total, ceiling),
{
}

/// The longest lead time, 0 for no candidate; `None` when one is unknown.
pub open spec fn lead_max<'a>(sel: Seq<OfferCandidate<'a>>) -> Option<int>
    decreases sel.len(),
{
    if sel.len() == 0 {
        Some(0)
    } else {
        match (lead_max(sel.drop_last()), sel.last().offer.lead_time_days) {
            (Some(m), Some(l)) => Some(if l > m { l as int } else { m }),
            _ => None,
        }
    }
}

/// `a < b` as exact fractions.
pub open spec fn frac_lt(a: Frac, b: Frac) -> bool {
    a@.0 * b@.1 < b@.0 * a@.1
}

/// The lowest purity; `None` for no candidate or when one is unknown.
pub open spec fn purity_min<'a>(sel: Seq<OfferCandidate<'a>>) -> Option<PurityFraction>
    decreases sel.len(),
{
    if sel.len() == 0 {
        None
    } else if sel.len() == 1 {
        sel[0].offer.purity
    } else {
        match (purity_min(sel.drop_last()), sel.last().offer.purity) {
            (Some(a), Some(p)) => Some(if frac_lt(p.fraction(), a.fraction()) { p } else { a }),
            _ => None,
        }
    }
}

/// The sum of the excess masses, 0 for no candidate; `None` when one is
/// unknown.
pub open spec fn excess_sum<'a>(sel: Seq<OfferCandidate<'a>>) -> Option<Q>
    decreases sel.len(),
{
    if sel.len() == 0 {
        Some((0int, 1int))
    } else {
        match (excess_sum(sel.drop_last()), sel.last().quantity.excess_mass_grams) {
            (Some(t), Some(e)) => Some(qadd(t, e@)),
            _ => None,
        }
    }
}

/// Summing the excess masses in order leaves `i128` at some step: a known
/// running total plus the next known excess does not fit.
pub open spec fn excess_overflows<'a>(sel: Seq<OfferCandidate<'a>>) -> bool
    decreases sel.len(),
{
    if sel.len() == 0 {
        false
    } else {
        ||| excess_overflows(sel.drop_last())
        ||| (excess_sum(sel.drop_last()) matches Some(t)
            && sel.last().quantity.excess_mass_grams matches Some(e) && !add_fits(t, e@))
    }
}

/// An overflow in a prefix is an overflow of the whole sum.
pub proof fn lemma_excess_overflow_prefix<'a>(sel: Seq<OfferCandidate<'a>>, n: int)
    requires
        0 <= n <= sel.len(),
        excess_overflows(sel.take(n)),
    ensures
        excess_overflows(sel),
    decreases sel.len() - n,
{
    if n < sel.len() {
        assert(sel.take(n + 1).drop_last() =~= sel.take(n));
        lemma_excess_overflow_prefix(sel, n + 1);
    } else {
        assert(sel.take(n) =~= sel);
    }
}

/// The offer identifiers joined with `|`.
pub open spec fn joined_ids<'a>(sel: Seq<OfferCandidate<'a>>) -> Seq<char>
    decreases sel.len(),
{
    if sel.len() == 0 {
        Seq::empty()
    } else if sel.len() == 1 {
        sel[0].offer.offer_id.0@
    } else {
        joined_ids(sel.drop_last()) + seq!['|'] + sel.last().offer.offer_id.0@
    }
}

/// The assumption recorded when a purchase mass was purity-adjusted.
pub const PURITY_ADJUSTMENT_NOTE: &'static str = "Purchase mass was adjusted using the catalog purity value. This does not establish that the unspecified impurities are inert or acceptable for the synthesis.";

/// A selection records its row, its candidate's offer and quantities, and
/// the purity-adjustment assumption exactly when the mass was adjusted.
pub open spec fn selection_of<'a>(
    s: CommercialOfferSelection,
    c: OfferCandidate<'a>,
    meta: (PrecursorId, Composition, u64, Frac),
) -> bool {
    &&& s.precursor.0@ == meta.0.0@
    &&& s.precursor_composition@ == meta.1@
    &&& s.precursor_composition.listing() == meta.1.listing()
    &&& s.reaction_coefficient == meta.2
    &&& s.offer_id.0@ == c.offer.offer_id.0@
    &&& s.theoretical_pure_mass_required_grams == meta.3
    &&& s.purity == c.offer.purity
    &&& s.purity_adjusted_purchase_mass_grams == c.quantity.purity_adjusted_purchase_mass_grams
    &&& s.package_count == c.quantity.package_count
    &&& s.purchased_mass_grams == c.quantity.purchased_mass_grams
    &&& s.excess_mass_grams == c.quantity.excess_mass_grams
    &&& s.subtotal == c.quantity.subtotal
    &&& name_views(s.unresolved_fields@) == name_views(c.unresolved_fields@)
    &&& s.assumptions@.len() == (if c.quantity.purity_adjusted_purchase_mass_grams is Some {
        1int
    } else {
        0int
    })
    &&& (c.quantity.purity_adjusted_purchase_mass_grams is Some ==> s.assumptions@[0]@
        == PURITY_ADJUSTMENT_NOTE@)
    &&& s.warnings@.len() == 0
}

/// The sum of the chosen subtotals, as [`cost_total`] gives it.
pub(crate) fn combination_total_cost<'a>(rows: &[Vec<OfferCandidate<'a>>], indices: &[usize]) -> (r: Option<Money>)
    requires
        valid_choice(rows@, indices@),
    ensures
        r is None <==> cost_total(chosen(rows@, indices@)) is None,
        r matches Some(m) ==> cost_total(chosen(rows@, indices@)) == Some((m.units() as int, m.code())),
{
    let ghost sel = chosen(rows@, indices@);
    let mut total: Option<Money> = None;
    let mut i: usize = 0;
    while i < indices.len()
        invariant
            i <= indices@.len(),
            valid_choice(rows@, indices@),
            sel == chosen(rows@, indices@),
            total is None <==> (i > 0 ==> cost_total(sel.take(i as int)) is None),
            i == 0 ==> total is None,
            total matches Some(m) ==> cost_total(sel.take(i as int)) == Some((m.units() as int, m.code())),
            forall|k: int| 0 < k <= i && cost_total(sel.take(k)) is None ==> cost_total(sel.take(i as int))
                is None,
        decreases indices@.len() - i,
    {
        let c = &rows[i][indices[i]];
        assert(*c == sel[i as int]);
        proof {
            assert(sel.take(i + 1).drop_last() =~= sel.take(i as int));
            assert(sel.take(i + 1).last() == sel[i as int]);
            if i == 0 {
                assert(sel.take(1)[0] == sel[0]);
            }
        }
        if i == 0 {
            total = c.quantity.subtotal;
        } else {
            total = match (total, c.quantity.subtotal) {
                (Some(t), Some(m)) => t.checked_add(&m),
                _ => None,
            };
        }
        i = i + 1;
    }
    proof {
        assert(sel.take(indices@.len() as int) =~= sel);
    }
    total
}

/// Whether `total` satisfies `ceiling`, as [`within_ceiling`] says.
pub fn passes_max_total_cost(total: Option<Money>, ceiling: Option<Money>) -> (r: bool)
    ensures
        r == within_ceiling(total, ceiling),
{
    match (total, ceiling) {
        (Some(cost), Some(max_cost)) => {
            if cost.currency().same(&max_cost.currency()) {
                cost.minor_units() <= max_cost.minor_units()
            } else {
                true
            }
        },
        _ => true,
    }
}

/// The longest chosen lead time, as [`lead_max`] gives it.
pub(crate) fn chosen_lead_max<'a>(rows: &[Vec<OfferCandidate<'a>>], indices: &[usize]) -> (r: Option<u32>)
    requires
        valid_choice(rows@, indices@),
    ensures
        r is None <==> lead_max(chosen(rows@, indices@)) is None,
        r matches Some(m) ==> lead_max(chosen(rows@, indices@)) == Some(m as int),
{
    let ghost sel = chosen(rows@, indices@);
    let mut max: u32 = 0;
    let mut known = true;
    let mut i: usize = 0;
    while i < indices.len()
        invariant
            i <= indices@.len(),
            valid_choice(rows@, indices@),
            sel == chosen(rows@, indices@),
            known ==> lead_max(sel.take(i as int)) == Some(max as int),
            !known ==> lead_max(sel.take(i as int)) is None,
        decreases indices@.len() - i,
    {
        let c = &rows[i][indices[i]];
        assert(*c == sel[i as int]);
        proof {
            assert(sel.take(i + 1).drop_last() =~= sel.take(i as int));
            assert(sel.take(i + 1).last() == sel[i as int]);
        }
        match c.offer.lead_time_days {
            Some(lt) => {
                if lt > max {
                    max = lt;
                }
            },
            None => {
                known = false;
            },
        }
        i = i + 1;
    }
    proof {
        assert(sel.take(indices@.len() as int) =~= sel);
    }
    if known {
        Some(max)
    } else {
        None
    }
}

/// Whether every chosen subtotal is known.
fn chosen_costs_known<'a>(rows: &[Vec<OfferCandidate<'a>>], indices: &[usize]) -> (r: bool)
    requires
        valid_choice(rows@, indices@),
    ensures
        r == forall|i: int| 0 <= i < indices@.len() ==> (#[trigger] chosen(rows@, indices@)[i]).quantity.subtotal is Some,
{
    let ghost sel = chosen(rows@, indices@);
    let mut i: usize = 0;
    while i < indices.len()
        invariant
            i <= indices@.len(),
            valid_choice(rows@, indices@),
            sel == chosen(rows@, indices@),
            forall|k: int| 0 <= k < i ==> (#[trigger] sel[k]).quantity.subtotal is Some,
        decreases indices@.len() - i,
    {
        let c = &rows[i][indices[i]];
        assert(*c == sel[i as int]);
        if c.quantity.subtotal.is_none() {
            return false;
        }
        i = i + 1;
    }
    true
}

/// Whether no chosen offer is explicitly discontinued.
fn chosen_all_available<'a>(rows: &[Vec<OfferCandidate<'a>>], indices: &[usize]) -> (r: bool)
    requires
        valid_choice(rows@, indices@),
    ensures
        r == forall|i: int|
            0 <= i < indices@.len() ==> (#[trigger] chosen(rows@, indices@)[i]).offer.availability
                != Some(AvailabilityStatus::Discontinued),
{
    let ghost sel = chosen(rows@, indices@);
    let mut i: usize = 0;
    while i < indices.len()
        invariant
            i <= indices@.len(),
            valid_choice(rows@, indices@),
            sel == chosen(rows@, indices@),
            forall|k: int|
                0 <= k < i ==> (#[trigger] sel[k]).offer.availability != Some(AvailabilityStatus::Discontinued),
        decreases indices@.len() - i,
    {
        let c = &rows[i][indices[i]];
        assert(*c == sel[i as int]);
        match c.offer.availability {
            Some(AvailabilityStatus::Discontinued) => {
                return false;
            },
            _ => {},
        }
        i = i + 1;
    }
    true
}

/// The lowest chosen purity, as [`purity_min`] gives it.
pub(crate) fn chosen_purity_min<'a>(rows: &[Vec<OfferCandidate<'a>>], indices: &[usize]) -> (r: Option<PurityFraction>)
    requires
        valid_choice(rows@, indices@),
    ensures
        r == purity_min(chosen(rows@, indices@)),
{
    let ghost sel = chosen(rows@, indices@);
    let mut best: Option<PurityFraction> = None;
    let mut i: usize = 0;
    while i < indices.len()
        invariant
            i <= indices@.len(),
            valid_choice(rows@, indices@),
            sel == chosen(rows@, indices@),
            best == purity_min(sel.take(i as int)),
            i > 0 && best is None ==> forall|k: int| i <= k <= indices@.len() ==> purity_min(sel.take(k)) is None,
        decreases indices@.len() - i,
    {
        let c = &rows[i][indices[i]];
        assert(*c == sel[i as int]);
        proof {
            assert(sel.take(i + 1).drop_last() =~= sel.take(i as int));
            assert(sel.take(i + 1).last() == sel[i as int]);
            if i == 0 {
                assert(sel.take(1)[0] == sel[0]);
            }
        }
        if i == 0 {
            best = c.offer.purity;
        } else {
            best = match (best, c.offer.purity) {
                (Some(a), Some(p)) => {
                    if p.value().less_than(&a.value()) {
                        Some(p)
                    } else {
                        Some(a)
                    }
                },
                _ => None,
            };
        }
        proof {
            if best is None {
                assert forall|k: int| i + 1 <= k <= indices@.len() implies purity_min(sel.take(k)) is None by {
                    lemma_purity_min_stays_none(sel, i + 1, k);
                }
            }
        }
        i = i + 1;
    }
    proof {
        assert(sel.take(indices@.len() as int) =~= sel);
    }
    best
}

/// Once the running minimum is unknown it stays unknown.
proof fn lemma_purity_min_stays_none<'a>(sel: Seq<OfferCandidate<'a>>, a: int, b: int)
    requires
        1 <= a <= b <= sel.len(),
        purity_min(sel.take(a)) is None,
    ensures
        purity_min(sel.take(b)) is None,
    decreases b - a,
{
    if a < b {
        lemma_purity_min_stays_none(sel, a, b - 1);
        assert(sel.take(b).drop_last() =~= sel.take(b - 1));
    }
}

/// The sum of the chosen excess masses, as [`excess_sum`] gives it.
/// `Err(ArithmeticOverflow)` exactly when the sum leaves `i128` on the way
/// ([`excess_overflows`]).
pub(crate) fn chosen_excess_sum<'a>(rows: &[Vec<OfferCandidate<'a>>], indices: &[usize]) -> (r: Result<Option<Frac>, GugenError>)
    requires
        valid_choice(rows@, indices@),
        forall|i: int|
            0 <= i < indices@.len() && (#[trigger] chosen(rows@, indices@)[i]).quantity.excess_mass_grams is Some
                ==> chosen(rows@, indices@)[i].quantity.excess_mass_grams->0.wf(),
    ensures
        r is Err ==> r->Err_0 == GugenError::ArithmeticOverflow,
        r is Err <==> excess_overflows(chosen(rows@, indices@)),
        r matches Ok(x) ==> (x is None <==> excess_sum(chosen(rows@, indices@)) is None),
        r matches Ok(Some(t)) ==> t.wf() && excess_sum(chosen(rows@, indices@)) == Some(t@),
{
    let ghost sel = chosen(rows@, indices@);
    let mut total: Frac = Frac::zero();
    let mut known = true;
    let mut i: usize = 0;
    while i < indices.len()
        invariant
            i <= indices@.len(),
            valid_choice(rows@, indices@),
            sel == chosen(rows@, indices@),
            forall|k: int|
                0 <= k < indices@.len() && (#[trigger] sel[k]).quantity.excess_mass_grams is Some
                    ==> sel[k].quantity.excess_mass_grams->0.wf(),
            total.wf(),
            known ==> excess_sum(sel.take(i as int)) == Some(total@),
            !known ==> excess_sum(sel.take(i as int)) is None,
            !excess_overflows(sel.take(i as int)),
        decreases indices@.len() - i,
    {
        let c = &rows[i][indices[i]];
        assert(*c == sel[i as int]);
        proof {
            assert(sel.take(i + 1).drop_last() =~= sel.take(i as int));
            assert(sel.take(i + 1).last() == sel[i as int]);
        }
        match c.quantity.excess_mass_grams {
            Some(e) => {
                if known {
                    total = match total.checked_add(e) {
                        Ok(t) => t,
                        Err(err) => {
                            proof {
                                assert(excess_overflows(sel.take(i + 1)));
                                lemma_excess_overflow_prefix(sel, i + 1);
                            }
                            return Err(err);
                        },
                    };
                }
            },
            None => {
                known = false;
            },
        }
        i = i + 1;
    }
    proof {
        assert(sel.take(indices@.len() as int) =~= sel);
    }
    if known {
        Ok(Some(total))
    } else {
        Ok(None)
    }
}

/// The chosen offer identifiers joined with `|`.
fn chosen_joined_ids<'a>(rows: &[Vec<OfferCandidate<'a>>], indices: &[usize]) -> (r: String)
    requires
        valid_choice(rows@, indices@),
    ensures
        r@ == joined_ids(chosen(rows@, indices@)),
{
    let ghost sel = chosen(rows@, indices@);
    let mut out = String::new();
    let mut i: usize = 0;
    while i < indices.len()
        invariant
            i <= indices@.len(),
            valid_choice(rows@, indices@),
            sel == chosen(rows@, indices@),
            out@ == joined_ids(sel.take(i as int)),
        decreases indices@.len() - i,
    {
        let c = &rows[i][indices[i]];
        assert(*c == sel[i as int]);
        proof {
            assert(sel.take(i + 1).drop_last() =~= sel.take(i as int));
            assert(sel.take(i + 1).last() == sel[i as int]);
            if i == 0 {
                assert(sel.take(1)[0] == sel[0]);
                assert(sel.take(0) =~= Seq::<OfferCandidate<'a>>::empty());
            }
        }
        if i > 0 {
            out.append("|");
            proof {
                reveal_strlit("|");
            }
        }
        out.append(c.offer.offer_id.0.as_str());
        proof {
            if i == 0 {
                assert(out@ =~= sel.take(1)[0].offer.offer_id.0@);
            } else {
                assert(out@ =~= joined_ids(sel.take(i as int)) + seq!['|'] + sel[i as int].offer.offer_id.0@);
            }
        }
        i = i + 1;
    }
    proof {
        assert(sel.take(indices@.len() as int) =~= sel);
    }
    out
}

/// A copy of a list of names.
fn copy_names(v: &Vec<&'static str>) -> (r: Vec<&'static str>)
    ensures
        name_views(r@) == name_views(v@),
{
    let mut out: Vec<&'static str> = Vec::new();
    let mut i: usize = 0;
    while i < v.len()
        invariant
            i <= v@.len(),
            out@ == v@.take(i as int),
        decreases v@.len() - i,
    {
        out.push(v[i]);
        assert(out@ =~= v@.take(i + 1));
        i = i + 1;
    }
    proof {
        assert(v@.take(v@.len() as int) =~= v@);
    }
    out
}

/// The selection recording candidate `c` for row `meta`.
fn build_selection<'a>(c: &OfferCandidate<'a>, meta: &(PrecursorId, Composition, u64, Frac)) -> (r: CommercialOfferSelection)
    ensures
        selection_of(r, *c, *meta),
{
    let mut assumptions: Vec<String> = Vec::new();
    if c.quantity.purity_adjusted_purchase_mass_grams.is_some() {
        assumptions.push(String::from_str(PURITY_ADJUSTMENT_NOTE));
    }
    CommercialOfferSelection {
        precursor: PrecursorId(meta.0.0.clone()),
        precursor_composition: meta.1.duplicate(),
        reaction_coefficient: meta.2,
        offer_id: CommercialOfferId(c.offer.offer_id.0.clone()),
        theoretical_pure_mass_required_grams: meta.3,
        purity: c.offer.purity,
        purity_adjusted_purchase_mass_grams: c.quantity.purity_adjusted_purchase_mass_grams,
        package_count: c.quantity.package_count,
        purchased_mass_grams: c.quantity.purchased_mass_grams,
        excess_mass_grams: c.quantity.excess_mass_grams,
        subtotal: c.quantity.subtotal,
        unresolved_fields: copy_names(&c.unresolved_fields),
        assumptions,
        warnings: Vec::new(),
    }
}

/// Assembles the combination `indices` picks: one selection per row, in
/// row order, and the totals of [`cost_total`], [`lead_max`],
/// [`purity_min`] and [`excess_sum`], whether every cost is known, whether
/// no offer is discontinued, and the joined identifiers.
/// `Err(ArithmeticOverflow)` exactly when summing the excess masses leaves
/// `i128` ([`excess_overflows`]).
pub fn build_combination<'a>(
    indices: &[usize],
    rows: &[Vec<OfferCandidate<'a>>],
    row_meta: &[(PrecursorId, Composition, u64, Frac)],
) -> (r: Result<CommercialCombination, GugenError>)
    requires
        valid_choice(rows@, indices@),
        row_meta@.len() == rows@.len(),
        forall|i: int|
            0 <= i < indices@.len() && (#[trigger] chosen(rows@, indices@)[i]).quantity.excess_mass_grams is Some
                ==> chosen(rows@, indices@)[i].quantity.excess_mass_grams->0.wf(),
    ensures
        r is Err ==> r->Err_0 == GugenError::ArithmeticOverflow,
        r is Err <==> excess_overflows(chosen(rows@, indices@)),
        r matches Ok(comb) ==> {
            let sel = chosen(rows@, indices@);
            &&& comb.selections@.len() == sel.len()
            &&& forall|i: int| 0 <= i < sel.len() ==> selection_of(#[trigger] comb.selections@[i], sel[i], row_meta@[i])
            &&& comb.combination_id@ == joined_ids(sel)
            &&& (comb.total_cost is None <==> cost_total(sel) is None)
            &&& (comb.total_cost matches Some(m) ==> cost_total(sel) == Some((m.units() as int, m.code())))
            &&& comb.all_costs_known == forall|i: int| 0 <= i < sel.len() ==> (#[trigger] sel[i]).quantity.subtotal is Some
            &&& (comb.max_lead_time_days is None <==> lead_max(sel) is None)
            &&& (comb.max_lead_time_days matches Some(m) ==> lead_max(sel) == Some(m as int))
            &&& comb.all_availability_acceptable == forall|i: int|
                0 <= i < sel.len() ==> (#[trigger] sel[i]).offer.availability != Some(AvailabilityStatus::Discontinued)
            &&& comb.min_purity == purity_min(sel)
            &&& (comb.total_excess_mass_grams is None <==> excess_sum(sel) is None)
            &&& (comb.total_excess_mass_grams matches Some(t) ==> t.wf() && excess_sum(sel) == Some(t@))
        },
{
    let ghost sel = chosen(rows@, indices@);
    let mut selections: Vec<CommercialOfferSelection> = Vec::new();
    let mut i: usize = 0;
    while i < indices.len()
        invariant
            i <= indices@.len(),
            valid_choice(rows@, indices@),
            row_meta@.len() == rows@.len(),
            sel == chosen(rows@, indices@),
            selections@.len() == i,
            forall|k: int| 0 <= k < i ==> selection_of(#[trigger] selections@[k], sel[k], row_meta@[k]),
        decreases indices@.len() - i,
    {
        let c = &rows[i][indices[i]];
        assert(*c == sel[i as int]);
        selections.push(build_selection(c, &row_meta[i]));
        i = i + 1;
    }
    let total_cost = combination_total_cost(rows, indices);
    let all_costs_known = chosen_costs_known(rows, indices);
    let max_lead_time_days = chosen_lead_max(rows, indices);
    let all_availability_acceptable = chosen_all_available(rows, indices);
    let min_purity = chosen_purity_min(rows, indices);
    let total_excess_mass_grams = match chosen_excess_sum(rows, indices) {
        Ok(x) => x,
        Err(e) => return Err(e),
    };
    let combination_id = chosen_joined_ids(rows, indices);
    Ok(
        CommercialCombination {
            combination_id,
            selections,
            total_cost,
            all_costs_known,
            max_lead_time_days,
            all_availability_acceptable,
            min_purity,
            total_excess_mass_grams,
        },
    )
}

/// The number of candidates in each row.
pub open spec fn row_lens<'a>(rows: Seq<Vec<OfferCandidate<'a>>>) -> Seq<int> {
    Seq::new(rows.len(), |i: int| rows[i]@.len() as int)
}

/// The product of the row lengths, saturated at `u64::MAX` step by step.
pub open spec fn space_size(lens: Seq<int>) -> int
    decreases lens.len(),
{
    if lens.len() == 0 {
        1
    } else {
        let p = space_size(lens.drop_last()) * lens.last();
        if p > u64::MAX {
            u64::MAX as int
        } else {
            p
        }
    }
}

/// The combination numbered `c` in mixed radix, the first row varying
/// fastest.
pub open spec fn decode(c: int, lens: Seq<int>) -> Seq<int>
    decreases lens.len(),
{
    if lens.len() == 0 {
        Seq::empty()
    } else {
        seq![c % lens[0]] + decode(c / lens[0], lens.drop_first())
    }
}

pub(crate) proof fn lemma_decode_len(c: int, lens: Seq<int>)
    ensures
        decode(c, lens).len() == lens.len(),
    decreases lens.len(),
{
    if lens.len() > 0 {
        lemma_decode_len(c / lens[0], lens.drop_first());
    }
}

proof fn lemma_space_size_bounds(lens: Seq<int>)
    requires
        forall|i: int| 0 <= i < lens.len() ==> #[trigger] lens[i] >= 0,
    ensures
        0 <= space_size(lens) <= u64::MAX,
    decreases lens.len(),
{
    if lens.len() > 0 {
        lemma_space_size_bounds(lens.drop_last());
        assert(space_size(lens.drop_last()) * lens.last() >= 0) by (nonlinear_arith)
            requires space_size(lens.drop_last()) >= 0, lens.last() >= 0;
    }
}

/// How many combinations there are, saturated at `u64::MAX`.
pub fn total_combination_space<'a>(rows: &[Vec<OfferCandidate<'a>>]) -> (r: u64)
    ensures
        r == space_size(row_lens(rows@)),
{
    let ghost lens = row_lens(rows@);
    let mut acc: u64 = 1;
    let mut i: usize = 0;
    while i < rows.len()
        invariant
            i <= rows@.len(),
            lens == row_lens(rows@),
            acc == space_size(lens.take(i as int)),
        decreases rows@.len() - i,
    {
        let len = rows[i].len() as u64;
        proof {
            assert(lens.take(i + 1).drop_last() =~= lens.take(i as int));
            assert(lens.take(i + 1).last() == len);
        }
        acc = match acc.checked_mul(len) {
            Some(p) => p,
            None => 18446744073709551615u64,
        };
        i = i + 1;
    }
    proof {
        assert(lens.take(rows@.len() as int) =~= lens);
    }
    acc
}

/// Decodes combination number `combo_index` into one candidate index per
/// row, as [`decode`] says.
pub fn decode_combo_index<'a>(combo_index: u64, rows: &[Vec<OfferCandidate<'a>>]) -> (r: Vec<usize>)
    requires
        forall|i: int| 0 <= i < rows@.len() ==> (#[trigger] rows@[i])@.len() > 0,
    ensures
        r@.len() == rows@.len(),
        forall|i: int| 0 <= i < r@.len() ==> r@[i] as int == #[trigger] decode(combo_index as int, row_lens(rows@))[i],
        valid_choice(rows@, r@),
{
    let ghost lens = row_lens(rows@);
    let mut out: Vec<usize> = Vec::new();
    let mut rem: u64 = combo_index;
    let mut i: usize = 0;
    proof {
        assert(lens.skip(0) =~= lens);
        assert(out@.map_values(|x: usize| x as int) =~= Seq::<int>::empty());
        assert(Seq::<int>::empty() + decode(rem as int, lens) =~= decode(rem as int, lens));
    }
    while i < rows.len()
        invariant
            i <= rows@.len(),
            lens == row_lens(rows@),
            forall|k: int| 0 <= k < rows@.len() ==> (#[trigger] rows@[k])@.len() > 0,
            out@.len() == i,
            decode(combo_index as int, lens) == out@.map_values(|x: usize| x as int) + decode(
                rem as int,
                lens.skip(i as int),
            ),
            forall|k: int| 0 <= k < i ==> (#[trigger] out@[k]) < rows@[k]@.len(),
        decreases rows@.len() - i,
    {
        let len = rows[i].len() as u64;
        assert(len > 0);
        let digit = rem % len;
        proof {
            let t = lens.skip(i as int);
            assert(t.len() > 0);
            assert(t[0] == len);
            assert(t.drop_first() =~= lens.skip(i + 1));
            assert(decode(rem as int, t) == seq![rem as int % len as int] + decode(rem as int / len as int, lens.skip(i + 1)));
            let o2 = out@.push(digit as usize).map_values(|x: usize| x as int);
            assert(o2 =~= out@.map_values(|x: usize| x as int) + seq![rem as int % len as int]);
        }
        out.push(digit as usize);
        rem = rem / len;
        i = i + 1;
    }
    proof {
        assert(lens.skip(rows@.len() as int) =~= Seq::<int>::empty());
        assert(decode(rem as int, lens.skip(rows@.len() as int)) =~= Seq::<int>::empty());
        assert forall|k: int| 0 <= k < out@.len() implies out@[k] as int == #[trigger] decode(combo_index as int, lens)[k] by {
            assert(out@.map_values(|x: usize| x as int)[k] == out@[k] as int);
        }
    }
    out
}

/// Combination number `c` as candidate indices.
pub open spec fn decode_choice(c: int, lens: Seq<int>) -> Seq<usize> {
    decode(c, lens).map_values(|x: int| x as usize)
}

/// The first `n` combinations, in numbering order.
pub open spec fn all_choices<'a>(rows: Seq<Vec<OfferCandidate<'a>>>, n: int) -> Seq<Seq<usize>> {
    Seq::new(n as nat, |c: int| decode_choice(c, row_lens(rows)))
}

/// The choice's total satisfies the ceiling (see [`within_ceiling`]).
pub open spec fn choice_passes<'a>(rows: Seq<Vec<OfferCandidate<'a>>>, x: Seq<usize>, ceiling: Option<Money>) -> bool {
    match (cost_total(chosen(rows, x)), ceiling) {
        (Some(t), Some(m)) => t.1.letters() != m.code().letters() || t.0 <= m.units(),
        _ => true,
    }
}

/// The choices within the ceiling are exactly the given choices that
/// satisfy it.
pub proof fn lemma_passing_members<'a>(rows: Seq<Vec<OfferCandidate<'a>>>, s: Seq<Seq<usize>>, ceiling: Option<Money>)
    ensures
        forall|x: Seq<usize>|
            #[trigger] passing(rows, s, ceiling).contains(x) <==> (s.contains(x) && choice_passes(rows, x, ceiling)),
    decreases s.len(),
{
    if s.len() > 0 {
        let t = s.drop_last();
        lemma_passing_members(rows, t, ceiling);
        assert forall|x: Seq<usize>|
            #[trigger] passing(rows, s, ceiling).contains(x) <==> (s.contains(x) && choice_passes(rows, x, ceiling)) by {
            let pt = passing(rows, t, ceiling);
            let ps = passing(rows, s, ceiling);
            if pt.contains(x) {
                let j = choose|j: int| 0 <= j < pt.len() && pt[j] == x;
                assert(ps[j] == x);
                let i = choose|i: int| 0 <= i < t.len() && t[i] == x;
                assert(s[i] == x);
            }
            if s.contains(x) && choice_passes(rows, x, ceiling) {
                let i = choose|i: int| 0 <= i < s.len() && s[i] == x;
                if i < t.len() {
                    assert(t[i] == x);
                    assert(t.contains(x));
                } else {
                    assert(ps[ps.len() - 1] == x);
                }
            }
            if ps.contains(x) && !pt.contains(x) {
                let j = choose|j: int| 0 <= j < ps.len() && ps[j] == x;
                if j < pt.len() {
                    assert(ps[j] == pt[j]);
                }
                assert(s[s.len() - 1] == x);
            }
        }
    }
}

/// At most `k` results are kept, the first `k` in order.
pub proof fn lemma_first_k<T>(s: Seq<T>, k: int)
    requires
        k >= 0,
    ensures
        first_k(s, k).len() == (if s.len() <= k { s.len() as int } else { k }),
        forall|i: int| 0 <= i < first_k(s, k).len() ==> #[trigger] first_k(s, k)[i] == s[i],
{
}

/// A combination satisfies the ceiling when its total or the ceiling is
/// unknown or they are in different currencies; in the same currency,
/// exactly when its total is at most the ceiling.
pub proof fn lemma_choice_ceiling_meaning<'a>(
    rows: Seq<Vec<OfferCandidate<'a>>>,
    x: Seq<usize>,
    ceiling: Option<Money>,
)
    ensures
        (cost_total(chosen(rows, x)) matches Some(t) && ceiling matches Some(m) && t.1.letters()
            == m.code().letters()) ==> (choice_passes(rows, x, ceiling) <==> (cost_total(
            chosen(rows, x),
        ) matches Some(tt) && tt.0 <= ceiling->0.units())),
        !(cost_total(chosen(rows, x)) matches Some(t) && ceiling matches Some(m) && t.1.letters()
            == m.code().letters()) ==> choice_passes(rows, x, ceiling),
{
}

/// The choices of `s` that satisfy the ceiling, in order.
pub open spec fn passing<'a>(rows: Seq<Vec<OfferCandidate<'a>>>, s: Seq<Seq<usize>>, ceiling: Option<Money>) -> Seq<Seq<usize>>
    decreases s.len(),
{
    if s.len() == 0 {
        Seq::empty()
    } else {
        let p = passing(rows, s.drop_last(), ceiling);
        if choice_passes(rows, s.last(), ceiling) {
            p.push(s.last())
        } else {
            p
        }
    }
}

/// At most the first `k` entries of `s`.
pub open spec fn first_k<T>(s: Seq<T>, k: int) -> Seq<T> {
    if s.len() <= k {
        s
    } else {
        s.take(k)
    }
}

/// The index lists of a list of choices.
pub open spec fn choice_views(v: Seq<Vec<usize>>) -> Seq<Seq<usize>> {
    Seq::new(v.len(), |i: int| v[i]@)
}

/// What the exact tier returns: every combination ranked best first,
/// those within the ceiling, at most `k` of them.
pub open spec fn exhaustive_result<'a>(rows: Seq<Vec<OfferCandidate<'a>>>, space: int, ceiling: Option<Money>, k: int) -> Seq<Seq<usize>> {
    first_k(passing(rows, rank_sorted(rows, all_choices(rows, space)), ceiling), k)
}

/// Ranks every one of the `total_space` combinations exactly and returns
/// the best `config.max_results_returned` within the cost ceiling, with
/// the number evaluated and the space size.
pub fn exhaustive_search<'a>(
    rows: &[Vec<OfferCandidate<'a>>],
    config: &CommercialPlanningConfig,
    total_space: u64,
    max_total_cost: Option<Money>,
) -> (r: (Vec<Vec<usize>>, usize, u64))
    requires
        rows@.len() > 0,
        forall|i: int| 0 <= i < rows@.len() ==> (#[trigger] rows@[i])@.len() > 0,
        total_space <= config.max_combinations_evaluated,
    ensures
        choice_views(r.0@) == exhaustive_result(rows@, total_space as int, max_total_cost, config.max_results_returned as int),
        r.1 == total_space,
        r.2 == total_space,
{
    let ghost lens = row_lens(rows@);
    let mut all: Vec<RankEntry> = Vec::new();
    let mut c: u64 = 0;
    proof {
        assert(all_choices(rows@, 0) =~= Seq::<Seq<usize>>::empty());
        assert(entry_choices(all@) =~= Seq::<Seq<usize>>::empty());
    }
    while c < total_space
        invariant
            c <= total_space,
            rows@.len() > 0,
            lens == row_lens(rows@),
            forall|i: int| 0 <= i < rows@.len() ==> (#[trigger] rows@[i])@.len() > 0,
            entry_choices(all@) == rank_sorted(rows@, all_choices(rows@, c as int)),
            forall|i: int| 0 <= i < all@.len() ==> describes(#[trigger] all@[i], rows@),
        decreases total_space - c,
    {
        let idx = decode_combo_index(c, rows);
        proof {
            lemma_decode_len(c as int, lens);
            assert forall|j: int| 0 <= j < idx@.len() implies idx@[j] == #[trigger] decode_choice(c as int, lens)[j] by {
                assert(idx@[j] as int == decode(c as int, lens)[j]);
            }
            assert(idx@ =~= decode_choice(c as int, lens));
            assert(all_choices(rows@, c + 1).drop_last() =~= all_choices(rows@, c as int));
            assert(all_choices(rows@, c + 1).last() == decode_choice(c as int, lens));
        }
        let e = rank_entry(idx, rows);
        insert_rank_entry(&mut all, e, Ghost(rows@));
        c = c + 1;
    }
    let ghost sorted = entry_choices(all@);
    let k = config.max_results_returned;
    let mut results: Vec<Vec<usize>> = Vec::new();
    let n = all.len();
    let mut rest = all;
    let mut i: usize = 0;
    proof {
        assert(sorted.take(0) =~= Seq::<Seq<usize>>::empty());
        assert(choice_views(results@) =~= Seq::<Seq<usize>>::empty());
    }
    while i < n
        invariant
            i <= n,
            n == sorted.len(),
            rest@.len() == n - i,
            forall|j: int| 0 <= j < rest@.len() ==> (#[trigger] rest@[j]).indices@ == sorted[i + j] && describes(rest@[j], rows@),
            choice_views(results@) == first_k(passing(rows@, sorted.take(i as int), max_total_cost), k as int),
        decreases n - i,
    {
        let ghost r0 = rest@;
        let e = rest.remove(0);
        proof {
            assert(e == r0[0]);
            assert forall|j: int| 0 <= j < rest@.len() implies (#[trigger] rest@[j]).indices@ == sorted[i + 1 + j]
                && describes(rest@[j], rows@) by {
                assert(rest@[j] == r0[j + 1]);
            }
            assert(sorted.take(i + 1).drop_last() =~= sorted.take(i as int));
            assert(sorted.take(i + 1).last() == e.indices@);
        }
        let keep = passes_max_total_cost(e.total_cost, max_total_cost);
        assert(keep == choice_passes(rows@, e.indices@, max_total_cost));
        if keep && results.len() < k {
            let ghost before = choice_views(results@);
            results.push(e.indices);
            proof {
                assert(choice_views(results@) =~= before.push(sorted[i as int]));
            }
        }
        i = i + 1;
    }
    proof {
        assert(sorted.take(n as int) =~= sorted);
    }
    (results, total_space as usize, total_space)
}

/// Whether two index lists are equal.
fn same_indices(a: &Vec<usize>, b: &Vec<usize>) -> (r: bool)
    ensures
        r == (a@ == b@),
{
    if a.len() != b.len() {
        return false;
    }
    let mut i: usize = 0;
    while i < a.len()
        invariant
            i <= a@.len(),
            a@.len() == b@.len(),
            forall|k: int| 0 <= k < i ==> a@[k] == b@[k],
        decreases a@.len() - i,
    {
        if a[i] != b[i] {
            return false;
        }
        i = i + 1;
    }
    assert(a@ =~= b@);
    true
}

/// Whether `x` is one of the lists of `seen`.
fn seen_before(seen: &Vec<Vec<usize>>, x: &Vec<usize>) -> (r: bool)
    ensures
        r == choice_views(seen@).contains(x@),
{
    let mut i: usize = 0;
    while i < seen.len()
        invariant
            i <= seen@.len(),
            forall|k: int| 0 <= k < i ==> (#[trigger] seen@[k])@ != x@,
        decreases seen@.len() - i,
    {
        if same_indices(&seen[i], x) {
            assert(choice_views(seen@)[i as int] == x@);
            return true;
        }
        i = i + 1;
    }
    proof {
        if choice_views(seen@).contains(x@) {
            let k = choose|k: int| 0 <= k < choice_views(seen@).len() && choice_views(seen@)[k] == x@;
            assert(seen@[k]@ == x@);
        }
    }
    false
}

/// `idx` with the entry for `row` one higher.
fn bumped(idx: &Vec<usize>, row: usize) -> (r: Vec<usize>)
    requires
        row < idx@.len(),
        idx@[row as int] < usize::MAX,
    ensures
        r@ == idx@.update(row as int, (idx@[row as int] + 1) as usize),
{
    let mut out: Vec<usize> = Vec::new();
    let mut i: usize = 0;
    while i < idx.len()
        invariant
            i <= idx@.len(),
            row < idx@.len(),
            idx@[row as int] < usize::MAX,
            out@ == idx@.update(row as int, (idx@[row as int] + 1) as usize).take(i as int),
        decreases idx@.len() - i,
    {
        if i == row {
            out.push(idx[i] + 1);
        } else {
            out.push(idx[i]);
        }
        assert(out@ =~= idx@.update(row as int, (idx@[row as int] + 1) as usize).take(i + 1));
        i = i + 1;
    }
    assert(out@ =~= idx@.update(row as int, (idx@[row as int] + 1) as usize));
    out
}

/// The position of the best of the first `j` frontier choices; among
/// equally ranked ones the earliest.
pub open spec fn best_upto<'a>(rows: Seq<Vec<OfferCandidate<'a>>>, fr: Seq<Seq<usize>>, j: int) -> int
    decreases j,
{
    if j <= 1 {
        0
    } else {
        let b = best_upto(rows, fr, j - 1);
        if choice_better(rows, fr[j - 1], fr[b]) {
            j - 1
        } else {
            b
        }
    }
}

/// `x` with the candidate of row `row` moved one place down.
pub open spec fn bump_at(x: Seq<usize>, row: int) -> Seq<usize> {
    x.update(row, (x[row] + 1) as usize)
}

/// The frontier and the seen choices once the one-step neighbours of `x`
/// from row `row` on, not seen before, are added to both.
pub open spec fn add_neighbours<'a>(
    rows: Seq<Vec<OfferCandidate<'a>>>,
    x: Seq<usize>,
    fr: Seq<Seq<usize>>,
    seen: Seq<Seq<usize>>,
    row: int,
) -> (Seq<Seq<usize>>, Seq<Seq<usize>>)
    decreases rows.len() - row,
{
    if row >= rows.len() {
        (fr, seen)
    } else if 0 <= row && x[row] + 1 < rows[row]@.len() && !seen.contains(bump_at(x, row)) {
        add_neighbours(rows, x, fr.push(bump_at(x, row)), seen.push(bump_at(x, row)), row + 1)
    } else {
        add_neighbours(rows, x, fr, seen, row + 1)
    }
}

/// The frontier search from a state: while choices remain on the frontier
/// and fewer than `budget` were evaluated, take the best, keep it when
/// within the ceiling (stopping once `k` are kept), and add its unseen
/// neighbours. The kept choices, in the order they were kept.
pub open spec fn frontier_run<'a>(
    rows: Seq<Vec<OfferCandidate<'a>>>,
    budget: int,
    ceiling: Option<Money>,
    k: int,
    fr: Seq<Seq<usize>>,
    seen: Seq<Seq<usize>>,
    kept: Seq<Seq<usize>>,
    evaluated: int,
) -> Seq<Seq<usize>>
    decreases budget - evaluated,
{
    if fr.len() == 0 || evaluated >= budget {
        kept
    } else {
        let b = best_upto(rows, fr, fr.len() as int);
        let x = fr[b];
        let keep = choice_passes(rows, x, ceiling);
        let kept1 = if keep {
            kept.push(x)
        } else {
            kept
        };
        if keep && kept1.len() >= k {
            kept1
        } else {
            let ns = add_neighbours(rows, x, fr.remove(b), seen, 0);
            frontier_run(rows, budget, ceiling, k, ns.0, ns.1, kept1, evaluated + 1)
        }
    }
}

/// What the heuristic tier returns: the frontier search from every row's
/// first candidate, or nothing when no result is asked for.
pub open spec fn frontier_result<'a>(
    rows: Seq<Vec<OfferCandidate<'a>>>,
    budget: int,
    ceiling: Option<Money>,
    k: int,
) -> Seq<Seq<usize>> {
    if k == 0 {
        Seq::empty()
    } else {
        let start = Seq::new(rows.len(), |i: int| 0usize);
        frontier_run(rows, budget, ceiling, k, seq![start], seq![start], Seq::empty(), 0)
    }
}

/// The lazy frontier search used when the space exceeds the evaluation
/// budget: starting from every row's first candidate, repeatedly takes
/// the best frontier combination, keeps it when within the cost ceiling,
/// and adds its one-step neighbours not yet seen. Evaluates at most
/// `config.max_combinations_evaluated` combinations and returns at most
/// `config.max_results_returned` (none when that is zero), each a valid
/// choice within the ceiling, none twice.
pub fn heuristic_search<'a>(
    rows: &[Vec<OfferCandidate<'a>>],
    config: &CommercialPlanningConfig,
    total_space: u64,
    max_total_cost: Option<Money>,
) -> (r: (Vec<Vec<usize>>, usize, u64))
    requires
        rows@.len() > 0,
        forall|i: int| 0 <= i < rows@.len() ==> (#[trigger] rows@[i])@.len() > 0,
    ensures
        r.1 <= config.max_combinations_evaluated,
        r.0@.len() <= config.max_results_returned,
        forall|i: int| 0 <= i < r.0@.len() ==> valid_choice(rows@, (#[trigger] r.0@[i])@) && choice_passes(
            rows@,
            r.0@[i]@,
            max_total_cost,
        ),
        forall|i: int, j: int| 0 <= i < j < r.0@.len() ==> (#[trigger] r.0@[i])@ != (#[trigger] r.0@[j])@,
        r.2 == total_space,
        choice_views(r.0@) == frontier_result(
            rows@,
            config.max_combinations_evaluated as int,
            max_total_cost,
            config.max_results_returned as int,
        ),
{
    if config.max_results_returned == 0 {
        let none: Vec<Vec<usize>> = Vec::new();
        assert(choice_views(none@) =~= Seq::<Seq<usize>>::empty());
        return (none, 0, total_space);
    }
    let n = rows.len();
    let mut start: Vec<usize> = Vec::new();
    let mut i: usize = 0;
    while i < n
        invariant
            i <= n,
            n == rows@.len(),
            start@.len() == i,
            forall|k: int| 0 <= k < i ==> start@[k] == 0,
        decreases n - i,
    {
        start.push(0);
        i = i + 1;
    }
    assert(valid_choice(rows@, start@));
    let mut seen: Vec<Vec<usize>> = Vec::new();
    seen.push(bumped_copy(&start));
    let mut frontier: Vec<RankEntry> = Vec::new();
    frontier.push(rank_entry(start, rows));
    let ghost mut popped: Seq<Seq<usize>> = Seq::empty();
    let mut results: Vec<Vec<usize>> = Vec::new();
    let mut evaluated: usize = 0;
    assert(choice_views(seen@) =~= seq![frontier@[0].indices@]);
    let ghost budget = config.max_combinations_evaluated as int;
    let ghost kk = config.max_results_returned as int;
    proof {
        assert(start@ =~= Seq::new(rows@.len(), |i: int| 0usize));
        assert(entry_choices(frontier@) =~= seq![start@]);
        assert(choice_views(results@) =~= Seq::<Seq<usize>>::empty());
    }
    assert(choice_views(seen@)[0] == frontier@[0].indices@);
    assert(choice_views(seen@).contains(frontier@[0].indices@));
    let ghost cap: int = if config.max_results_returned == 0 {
        1
    } else {
        config.max_results_returned as int
    };
    while frontier.len() > 0
        invariant_except_break
            results@.len() < config.max_results_returned || results@.len() == 0,
            frontier_result(rows@, budget, max_total_cost, kk) == frontier_run(
                rows@,
                budget,
                max_total_cost,
                kk,
                entry_choices(frontier@),
                choice_views(seen@),
                choice_views(results@),
                evaluated as int,
            ),
        invariant
            n == rows@.len(),
            n > 0,
            forall|k: int| 0 <= k < rows@.len() ==> (#[trigger] rows@[k])@.len() > 0,
            evaluated == popped.len(),
            evaluated <= config.max_combinations_evaluated,
            cap == (if config.max_results_returned == 0 {
                1
            } else {
                config.max_results_returned as int
            }),
            results@.len() <= cap,
            forall|k: int| 0 <= k < frontier@.len() ==> describes(#[trigger] frontier@[k], rows@),
            forall|k: int, j: int| 0 <= k < j < frontier@.len() ==> (#[trigger] frontier@[k]).indices@
                != (#[trigger] frontier@[j]).indices@,
            forall|k: int, j: int| 0 <= k < frontier@.len() && 0 <= j < popped.len() ==> (#[trigger] frontier@[k]).indices@
                != #[trigger] popped[j],
            forall|k: int| 0 <= k < frontier@.len() ==> choice_views(seen@).contains((#[trigger] frontier@[k]).indices@),
            forall|j: int| 0 <= j < popped.len() ==> choice_views(seen@).contains(#[trigger] popped[j]),
            forall|k: int| 0 <= k < results@.len() ==> popped.contains((#[trigger] results@[k])@),
            forall|k: int| 0 <= k < results@.len() ==> valid_choice(rows@, (#[trigger] results@[k])@) && choice_passes(
                rows@,
                results@[k]@,
                max_total_cost,
            ),
            forall|k: int, j: int| 0 <= k < j < results@.len() ==> (#[trigger] results@[k])@ != (#[trigger] results@[j])@,
            budget == config.max_combinations_evaluated as int,
            kk == config.max_results_returned as int,
        ensures
            choice_views(results@) == frontier_result(rows@, budget, max_total_cost, kk),
            evaluated <= config.max_combinations_evaluated,
            results@.len() <= cap,
            forall|k: int| 0 <= k < results@.len() ==> valid_choice(rows@, (#[trigger] results@[k])@) && choice_passes(
                rows@,
                results@[k]@,
                max_total_cost,
            ),
            forall|k: int, j: int| 0 <= k < j < results@.len() ==> (#[trigger] results@[k])@ != (#[trigger] results@[j])@,
        decreases config.max_combinations_evaluated - evaluated,
    {
        if evaluated >= config.max_combinations_evaluated {
            break;
        }
        let ghost fr = entry_choices(frontier@);
        let mut b: usize = 0;
        let mut j: usize = 1;
        while j < frontier.len()
            invariant
                1 <= j <= frontier@.len(),
                b < frontier@.len(),
                forall|k: int| 0 <= k < frontier@.len() ==> describes(#[trigger] frontier@[k], rows@),
                fr == entry_choices(frontier@),
                b == best_upto(rows@, fr, j as int),
            decreases frontier@.len() - j,
        {
            proof {
                lemma_ranks_better_choice(frontier@[j as int], frontier@[b as int], rows@);
            }
            if rank_better(&frontier[j], &frontier[b]) {
                b = j;
            }
            j = j + 1;
        }
        let ghost x = fr[b as int];
        let ghost kept0 = choice_views(results@);
        let ghost seen0 = choice_views(seen@);
        let ghost ev0 = evaluated as int;
        let ghost f0 = frontier@;
        let entry = frontier.remove(b);
        assert(entry == f0[b as int]);
        proof {
            assert forall|k: int| 0 <= k < frontier@.len() implies #[trigger] frontier@[k] == (if k < b {
                f0[k]
            } else {
                f0[k + 1]
            }) by {}
            assert(entry_choices(frontier@) =~= fr.remove(b as int));
            assert(x == entry.indices@);
        }
        let ghost p0 = popped;
        proof {
            popped = popped.push(entry.indices@);
        }
        evaluated = evaluated + 1;
        let keep = passes_max_total_cost(entry.total_cost, max_total_cost);
        assert(keep == choice_passes(rows@, x, max_total_cost));
        let mut done = false;
        if keep {
            proof {
                assert(popped.contains(entry.indices@)) by {
                    assert(popped[p0.len() as int] == entry.indices@);
                }
                assert forall|k: int| 0 <= k < results@.len() implies (#[trigger] results@[k])@ != entry.indices@ by {
                    let j0 = choose|j0: int| 0 <= j0 < p0.len() && p0[j0] == results@[k]@;
                    assert(f0[b as int].indices@ != p0[j0]);
                }
            }
            let ghost r0 = results@;
            results.push(bumped_copy(&entry.indices));
            proof {
                assert(choice_views(results@) =~= kept0.push(x));
                assert forall|k: int| 0 <= k < results@.len() implies popped.contains((#[trigger] results@[k])@) by {
                    if k < r0.len() {
                        let j0 = choose|j0: int| 0 <= j0 < p0.len() && p0[j0] == r0[k]@;
                        assert(popped[j0] == p0[j0]);
                    } else {
                        assert(popped[p0.len() as int] == entry.indices@);
                    }
                }
            }
            if results.len() >= config.max_results_returned {
                done = true;
            }
        } else {
            proof {
                assert forall|k: int| 0 <= k < results@.len() implies popped.contains((#[trigger] results@[k])@) by {
                    assert(p0.contains(results@[k]@));
                    let j0 = choose|j0: int| 0 <= j0 < p0.len() && p0[j0] == results@[k]@;
                    assert(popped[j0] == p0[j0]);
                }
            }
        }
        proof {
            if !keep {
                assert(choice_views(results@) == kept0);
            }
        }
        if done {
            break;
        }
        let mut row: usize = 0;
        while row < n
            invariant
                n == rows@.len(),
                n > 0,
                forall|k: int| 0 <= k < rows@.len() ==> (#[trigger] rows@[k])@.len() > 0,
                describes(entry, rows@),
                entry.indices@ == popped.last(),
                popped.len() > 0,
                forall|k: int| 0 <= k < frontier@.len() ==> describes(#[trigger] frontier@[k], rows@),
                forall|k: int, j: int| 0 <= k < j < frontier@.len() ==> (#[trigger] frontier@[k]).indices@
                    != (#[trigger] frontier@[j]).indices@,
                forall|k: int, j: int| 0 <= k < frontier@.len() && 0 <= j < popped.len() ==> (#[trigger] frontier@[k]).indices@
                    != #[trigger] popped[j],
                forall|k: int| 0 <= k < frontier@.len() ==> choice_views(seen@).contains((#[trigger] frontier@[k]).indices@),
                forall|j: int| 0 <= j < popped.len() ==> choice_views(seen@).contains(#[trigger] popped[j]),
                x == entry.indices@,
                add_neighbours(rows@, x, entry_choices(frontier@), choice_views(seen@), row as int)
                    == add_neighbours(rows@, x, fr.remove(b as int), seen0, 0),
            decreases n - row,
        {
            let len = rows[row].len();
            if entry.indices[row] + 1 < len {
                let neighbor = bumped(&entry.indices, row);
                if !seen_before(&seen, &neighbor) {
                    let ghost s0 = choice_views(seen@);
                    seen.push(bumped_copy(&neighbor));
                    proof {
                        assert(choice_views(seen@) =~= s0.push(neighbor@));
                        assert forall|k: int| 0 <= k < frontier@.len() implies choice_views(seen@).contains((#[trigger] frontier@[k]).indices@) by {
                            let w = choose|w: int| 0 <= w < s0.len() && s0[w] == frontier@[k].indices@;
                            assert(choice_views(seen@)[w] == s0[w]);
                        }
                        assert forall|j: int| 0 <= j < popped.len() implies choice_views(seen@).contains(#[trigger] popped[j]) by {
                            let w = choose|w: int| 0 <= w < s0.len() && s0[w] == popped[j];
                            assert(choice_views(seen@)[w] == s0[w]);
                        }
                        assert(choice_views(seen@)[s0.len() as int] == neighbor@);
                    }
                    proof {
                        assert(valid_choice(rows@, neighbor@));
                    }
                    let ne = rank_entry(neighbor, rows);
                    let ghost fr0 = frontier@;
                    frontier.push(ne);
                    proof {
                        assert(entry_choices(frontier@) =~= entry_choices(fr0).push(bump_at(x, row as int)));
                        assert forall|k: int| 0 <= k < fr0.len() implies (#[trigger] fr0[k]).indices@ != ne.indices@ by {
                            assert(s0.contains(fr0[k].indices@));
                        }
                        assert forall|j: int| 0 <= j < popped.len() implies ne.indices@ != #[trigger] popped[j] by {
                            assert(s0.contains(popped[j]));
                        }
                    }
                }
            }
            row = row + 1;
        }
    }
    (results, evaluated, total_space)
}

/// A copy of an index list.
fn bumped_copy(idx: &Vec<usize>) -> (r: Vec<usize>)
    ensures
        r@ == idx@,
{
    let mut out: Vec<usize> = Vec::new();
    let mut i: usize = 0;
    while i < idx.len()
        invariant
            i <= idx@.len(),
            out@ == idx@.take(i as int),
        decreases idx@.len() - i,
    {
        out.push(idx[i]);
        assert(out@ =~= idx@.take(i + 1));
        i = i + 1;
    }
    assert(out@ =~= idx@);
    out
}

/// Every row has a candidate and there is at least one row.
pub open spec fn searchable<'a>(rows: Seq<Vec<OfferCandidate<'a>>>) -> bool {
    rows.len() > 0 && forall|i: int| 0 <= i < rows.len() ==> (#[trigger] rows[i])@.len() > 0
}

/// Whether some row has no candidate.
pub(crate) fn some_row_empty<'a>(rows: &[Vec<OfferCandidate<'a>>]) -> (r: bool)
    ensures
        r == exists|i: int| 0 <= i < rows@.len() && (#[trigger] rows@[i])@.len() == 0,
{
    let mut i: usize = 0;
    while i < rows.len()
        invariant
            i <= rows@.len(),
            forall|k: int| 0 <= k < i ==> (#[trigger] rows@[k])@.len() > 0,
        decreases rows@.len() - i,
    {
        if rows[i].len() == 0 {
            return true;
        }
        i = i + 1;
    }
    false
}

/// Enumerates complete combinations (one offer per row), best first, up to
/// `config.max_results_returned` within the cost ceiling. With no row, or
/// an empty one, there is none. When the whole space fits the evaluation
/// budget it is ranked exactly ([`exhaustive_result`]); otherwise the
/// bounded frontier search runs ([`frontier_result`]), a best-effort
/// heuristic. Returns the
/// choices, how many combinations were evaluated, and the space size.
pub fn search_combinations<'a>(
    rows: &[Vec<OfferCandidate<'a>>],
    config: &CommercialPlanningConfig,
    max_total_cost: Option<Money>,
) -> (r: (Vec<Vec<usize>>, usize, u64))
    ensures
        !searchable(rows@) ==> r.0@.len() == 0 && r.1 == 0 && r.2 == 0,
        searchable(rows@) ==> r.2 == space_size(row_lens(rows@)),
        searchable(rows@) && space_size(row_lens(rows@)) <= config.max_combinations_evaluated ==> choice_views(r.0@)
            == exhaustive_result(rows@, r.2 as int, max_total_cost, config.max_results_returned as int)
            && r.1 == r.2,
        searchable(rows@) && space_size(row_lens(rows@)) > config.max_combinations_evaluated ==> {
            &&& choice_views(r.0@) == frontier_result(
                rows@,
                config.max_combinations_evaluated as int,
                max_total_cost,
                config.max_results_returned as int,
            )
            &&& r.1 <= config.max_combinations_evaluated
            &&& r.0@.len() <= config.max_results_returned
            &&& forall|i: int| 0 <= i < r.0@.len() ==> valid_choice(rows@, (#[trigger] r.0@[i])@) && choice_passes(
                rows@,
                r.0@[i]@,
                max_total_cost,
            )
            &&& forall|i: int, j: int| 0 <= i < j < r.0@.len() ==> (#[trigger] r.0@[i])@ != (#[trigger] r.0@[j])@
        },
{
    if rows.len() == 0 || some_row_empty(rows) {
        return (Vec::new(), 0, 0);
    }
    let total_space = total_combination_space(rows);
    if total_space <= config.max_combinations_evaluated as u64 {
        exhaustive_search(rows, config, total_space, max_total_cost)
    } else {
        heuristic_search(rows, config, total_space, max_total_cost)
    }
}

} // verus!
