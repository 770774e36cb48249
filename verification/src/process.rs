//! Process steps of a synthesis plan and the exact condition ranges of a
//! heating step.

use crate::error::GugenError;
use crate::frac::{fits_i128, Frac};
use crate::text::{append_decimal, append_int, decimal, int_text};
use vstd::prelude::*;

verus! {

/// `a <= b` as rationals with positive denominators.
pub open spec fn q_le(a: (int, int), b: (int, int)) -> bool {
    a.0 * b.1 <= b.0 * a.1
}

/// Exact comparison `a <= b`, without overflow.
fn frac_le(a: Frac, b: Frac) -> (r: bool)
    requires
        a.wf(),
        b.wf(),
    ensures
        r == q_le(a@, b@),
{
    !b.less_than(&a)
}

/// A temperature range in degrees Celsius, exact.
#[derive(Debug, Clone, Copy, PartialEq, Eq)]
pub struct TemperatureRange {
    min: Frac,
    max: Frac,
}

impl TemperatureRange {
    #[verifier::type_invariant]
    spec fn ordered(self) -> bool {
        self.min.wf() && self.max.wf() && q_le(self.min@, self.max@)
    }

    pub closed spec fn lo(self) -> (int, int) {
        self.min@
    }

    pub closed spec fn hi(self) -> (int, int) {
        self.max@
    }

    /// Both bounds are held as `i128` numerator/denominator pairs, and the
    /// bounds determine the range.
    pub proof fn lemma_bounds(self, other: Self)
        ensures
            fits_i128(self.lo().0) && fits_i128(self.lo().1),
            fits_i128(self.hi().0) && fits_i128(self.hi().1),
            self.lo() == other.lo() && self.hi() == other.hi() ==> self == other,
    {
        self.min.lemma_view_bounds();
        self.max.lemma_view_bounds();
        Frac::lemma_view_injective(self.min, other.min);
        Frac::lemma_view_injective(self.max, other.max);
    }

    /// Fails with `InvalidRange` exactly when `min > max`.
    pub fn new(min: Frac, max: Frac) -> (r: Result<TemperatureRange, GugenError>)
        requires
            min.wf(),
            max.wf(),
        ensures
            r matches Ok(x) ==> x.lo() == min@ && x.hi() == max@,
            r is Err <==> !q_le(min@, max@),
            r is Err ==> r->Err_0 == GugenError::InvalidRange,
    {
        if frac_le(min, max) {
            Ok(TemperatureRange { min, max })
        } else {
            Err(GugenError::InvalidRange)
        }
    }

    pub fn min_celsius(&self) -> (r: Frac)
        ensures
            r@ == self.lo(),
            r.wf(),
    {
        proof {
            use_type_invariant(self);
        }
        self.min
    }

    pub fn max_celsius(&self) -> (r: Frac)
        ensures
            r@ == self.hi(),
            r.wf(),
    {
        proof {
            use_type_invariant(self);
        }
        self.max
    }

    /// Exactly the same bounds.
    pub fn same(&self, other: &TemperatureRange) -> (r: bool)
        ensures
            r == (self.lo() == other.lo() && self.hi() == other.hi()),
    {
        self.min.numerator() == other.min.numerator() && self.min.denominator()
            == other.min.denominator() && self.max.numerator() == other.max.numerator()
            && self.max.denominator() == other.max.denominator()
    }
}

/// A duration range in hours, exact.
#[derive(Debug, Clone, Copy, PartialEq, Eq)]
pub struct DurationRange {
    min: Frac,
    max: Frac,
}

impl DurationRange {
    #[verifier::type_invariant]
    spec fn ordered(self) -> bool {
        self.min.wf() && self.max.wf() && q_le(self.min@, self.max@)
    }

    pub closed spec fn lo(self) -> (int, int) {
        self.min@
    }

    pub closed spec fn hi(self) -> (int, int) {
        self.max@
    }

    /// Both bounds are held as `i128` numerator/denominator pairs, and the
    /// bounds determine the range.
    pub proof fn lemma_bounds(self, other: Self)
        ensures
            fits_i128(self.lo().0) && fits_i128(self.lo().1),
            fits_i128(self.hi().0) && fits_i128(self.hi().1),
            self.lo() == other.lo() && self.hi() == other.hi() ==> self == other,
    {
        self.min.lemma_view_bounds();
        self.max.lemma_view_bounds();
        Frac::lemma_view_injective(self.min, other.min);
        Frac::lemma_view_injective(self.max, other.max);
    }

    /// Fails with `InvalidRange` exactly when `min > max`.
    pub fn new(min: Frac, max: Frac) -> (r: Result<DurationRange, GugenError>)
        requires
            min.wf(),
            max.wf(),
        ensures
            r matches Ok(x) ==> x.lo() == min@ && x.hi() == max@,
            r is Err <==> !q_le(min@, max@),
            r is Err ==> r->Err_0 == GugenError::InvalidRange,
    {
        if frac_le(min, max) {
            Ok(DurationRange { min, max })
        } else {
            Err(GugenError::InvalidRange)
        }
    }

    pub fn min_hours(&self) -> (r: Frac)
        ensures
            r@ == self.lo(),
            r.wf(),
    {
        proof {
            use_type_invariant(self);
        }
        self.min
    }

    pub fn max_hours(&self) -> (r: Frac)
        ensures
            r@ == self.hi(),
            r.wf(),
    {
        proof {
            use_type_invariant(self);
        }
        self.max
    }

    /// Exactly the same bounds.
    pub fn same(&self, other: &DurationRange) -> (r: bool)
        ensures
            r == (self.lo() == other.lo() && self.hi() == other.hi()),
    {
        self.min.numerator() == other.min.numerator() && self.min.denominator()
            == other.min.denominator() && self.max.numerator() == other.max.numerator()
            && self.max.denominator() == other.max.denominator()
    }
}

/// A heating ramp-rate range in degrees Celsius per minute, exact.
#[derive(Debug, Clone, Copy, PartialEq, Eq)]
pub struct RampRateRange {
    min: Frac,
    max: Frac,
}

impl RampRateRange {
    #[verifier::type_invariant]
    spec fn ordered(self) -> bool {
        self.min.wf() && self.max.wf() && q_le(self.min@, self.max@)
    }

    pub closed spec fn lo(self) -> (int, int) {
        self.min@
    }

    pub closed spec fn hi(self) -> (int, int) {
        self.max@
    }

    /// Fails with `InvalidRange` exactly when `min > max`.
    pub fn new(min: Frac, max: Frac) -> (r: Result<RampRateRange, GugenError>)
        requires
            min.wf(),
            max.wf(),
        ensures
            r matches Ok(x) ==> x.lo() == min@ && x.hi() == max@,
            r is Err <==> !q_le(min@, max@),
            r is Err ==> r->Err_0 == GugenError::InvalidRange,
    {
        if frac_le(min, max) {
            Ok(RampRateRange { min, max })
        } else {
            Err(GugenError::InvalidRange)
        }
    }

    pub fn min_rate(&self) -> (r: Frac)
        ensures
            r@ == self.lo(),
            r.wf(),
    {
        proof {
            use_type_invariant(self);
        }
        self.min
    }

    pub fn max_rate(&self) -> (r: Frac)
        ensures
            r@ == self.hi(),
            r.wf(),
    {
        proof {
            use_type_invariant(self);
        }
        self.max
    }

    /// Exactly the same bounds.
    pub fn same(&self, other: &RampRateRange) -> (r: bool)
        ensures
            r == (self.lo() == other.lo() && self.hi() == other.hi()),
    {
        self.min.numerator() == other.min.numerator() && self.min.denominator()
            == other.min.denominator() && self.max.numerator() == other.max.numerator()
            && self.max.denominator() == other.max.denominator()
    }
}

/// A condition value compared by exact equality of its key.
pub trait ConditionValue: Sized {
    /// What equality compares.
    spec fn key(&self) -> Seq<int>;

    /// How the value is written in a report.
    spec fn text(&self) -> Seq<char>;

    fn same_value(&self, other: &Self) -> (r: bool)
        ensures
            r == (self.key() == other.key()),
    ;

    fn copy_value(&self) -> (r: Self)
        ensures
            r.key() == self.key(),
            r.text() == self.text(),
    ;

    fn describe(&self) -> (r: String)
        ensures
            r@ == self.text(),
    ;
}

/// A rational as `n` or `n/d`.
pub open spec fn frac_text(q: (int, int)) -> Seq<char> {
    if q.1 == 1 {
        int_text(q.0)
    } else {
        int_text(q.0) + "/"@ + decimal(q.1 as nat)
    }
}

/// Appends a canonical rational as `n` or `n/d`.
pub fn append_frac(s: &mut String, f: Frac)
    requires
        f.wf(),
    ensures
        final(s)@ == old(s)@ + frac_text(f@),
{
    append_int(s, f.numerator());
    if f.denominator() != 1 {
        s.append("/");
        append_decimal(s, f.denominator() as u128);
    }
    assert(final(s)@ =~= old(s)@ + frac_text(f@));
}

impl ConditionValue for TemperatureRange {
    open spec fn key(&self) -> Seq<int> {
        seq![self.lo().0, self.lo().1, self.hi().0, self.hi().1]
    }

    open spec fn text(&self) -> Seq<char> {
        "TemperatureRange { min_celsius: "@ + frac_text(self.lo()) + ", max_celsius: "@ + frac_text(self.hi()) + " }"@
    }

    fn same_value(&self, other: &Self) -> (r: bool) {
        let r = self.same(other);
        proof {
            if self.key() == other.key() {
                assert(self.key()[0] == other.key()[0] && self.key()[1] == other.key()[1]);
                assert(self.key()[2] == other.key()[2] && self.key()[3] == other.key()[3]);
            }
        }
        r
    }

    fn copy_value(&self) -> (r: Self) {
        *self
    }

    fn describe(&self) -> (r: String) {
        let mut s = String::from_str("TemperatureRange { min_celsius: ");
        append_frac(&mut s, self.min_celsius());
        s.append(", max_celsius: ");
        append_frac(&mut s, self.max_celsius());
        s.append(" }");
        assert(s@ =~= self.text());
        s
    }
}

impl ConditionValue for DurationRange {
    open spec fn key(&self) -> Seq<int> {
        seq![self.lo().0, self.lo().1, self.hi().0, self.hi().1]
    }

    open spec fn text(&self) -> Seq<char> {
        "DurationRange { min_hours: "@ + frac_text(self.lo()) + ", max_hours: "@ + frac_text(self.hi()) + " }"@
    }

    fn same_value(&self, other: &Self) -> (r: bool) {
        let r = self.same(other);
        proof {
            if self.key() == other.key() {
                assert(self.key()[0] == other.key()[0] && self.key()[1] == other.key()[1]);
                assert(self.key()[2] == other.key()[2] && self.key()[3] == other.key()[3]);
            }
        }
        r
    }

    fn copy_value(&self) -> (r: Self) {
        *self
    }

    fn describe(&self) -> (r: String) {
        let mut s = String::from_str("DurationRange { min_hours: ");
        append_frac(&mut s, self.min_hours());
        s.append(", max_hours: ");
        append_frac(&mut s, self.max_hours());
        s.append(" }");
        assert(s@ =~= self.text());
        s
    }
}

impl ConditionValue for RampRateRange {
    open spec fn key(&self) -> Seq<int> {
        seq![self.lo().0, self.lo().1, self.hi().0, self.hi().1]
    }

    open spec fn text(&self) -> Seq<char> {
        "RampRateRange { min_rate: "@ + frac_text(self.lo()) + ", max_rate: "@ + frac_text(self.hi()) + " }"@
    }

    fn same_value(&self, other: &Self) -> (r: bool) {
        let r = self.same(other);
        proof {
            if self.key() == other.key() {
                assert(self.key()[0] == other.key()[0] && self.key()[1] == other.key()[1]);
                assert(self.key()[2] == other.key()[2] && self.key()[3] == other.key()[3]);
            }
        }
        r
    }

    fn copy_value(&self) -> (r: Self) {
        *self
    }

    fn describe(&self) -> (r: String) {
        let mut s = String::from_str("RampRateRange { min_rate: ");
        append_frac(&mut s, self.min_rate());
        s.append(", max_rate: ");
        append_frac(&mut s, self.max_rate());
        s.append(" }");
        assert(s@ =~= self.text());
        s
    }
}

impl ConditionValue for Atmosphere {
    open spec fn key(&self) -> Seq<int> {
        match self {
            Atmosphere::Air => seq![0int],
            Atmosphere::Controlled { description } => seq![1int] + description@.map_values(
                |c: char| c as int,
            ),
        }
    }

    open spec fn text(&self) -> Seq<char> {
        match self {
            Atmosphere::Air => "Air"@,
            Atmosphere::Controlled { description } => "Controlled { description: \""@
                + description@ + "\" }"@,
        }
    }

    fn same_value(&self, other: &Self) -> (r: bool) {
        let r = self.same(other);
        proof {
            if let Atmosphere::Controlled { description: a } = self {
                if let Atmosphere::Controlled { description: b } = other {
                    let ka = self.key();
                    let kb = other.key();
                    if ka == kb {
                        assert(ka.len() == kb.len());
                        assert forall|i: int| 0 <= i < a@.len() implies a@[i] == b@[i] by {
                            assert(ka[i + 1] == kb[i + 1]);
                        }
                        assert(a@ =~= b@);
                    }
                    if a@ == b@ {
                        assert(ka =~= kb);
                    }
                } else {
                    assert(self.key()[0] != other.key()[0]);
                }
            } else if let Atmosphere::Controlled { .. } = other {
                assert(self.key()[0] != other.key()[0]);
            }
        }
        r
    }

    fn copy_value(&self) -> (r: Self) {
        match self {
            Atmosphere::Air => Atmosphere::Air,
            Atmosphere::Controlled { description } => {
                let d2 = String::from_str(description.as_str());
                let r = Atmosphere::Controlled { description: d2 };
                proof {
                    assert(r.key() =~= self.key());
                }
                r
            },
        }
    }

    fn describe(&self) -> (r: String) {
        match self {
            Atmosphere::Air => String::from_str("Air"),
            Atmosphere::Controlled { description } => {
                let mut s = String::from_str("Controlled { description: \"");
                s.append(description.as_str());
                s.append("\" }");
                s
            },
        }
    }
}

#[derive(Debug, Clone, Copy, PartialEq, Eq, Structural, PartialOrd, Ord)]
pub enum HeatingPurpose {
    Calcination,
    Sintering,
    Annealing,
}

impl HeatingPurpose {
    /// The purpose's name.
    pub open spec fn name_text(self) -> Seq<char> {
        match self {
            HeatingPurpose::Calcination => "Calcination"@,
            HeatingPurpose::Sintering => "Sintering"@,
            HeatingPurpose::Annealing => "Annealing"@,
        }
    }

    pub fn name(&self) -> (r: &'static str)
        ensures
            r@ == self.name_text(),
    {
        match self {
            HeatingPurpose::Calcination => "Calcination",
            HeatingPurpose::Sintering => "Sintering",
            HeatingPurpose::Annealing => "Annealing",
        }
    }
}

/// The furnace atmosphere: air, or a controlled one described in words.
#[derive(Debug, Clone, PartialEq, Eq)]
pub enum Atmosphere {
    Air,
    Controlled { description: String },
}

impl Atmosphere {
    /// The atmosphere in words; `Air` for air.
    pub open spec fn text(self) -> Seq<char> {
        match self {
            Atmosphere::Air => "Air"@,
            Atmosphere::Controlled { description } => description@,
        }
    }

    /// Same atmosphere: both air, or both controlled with equal text.
    pub fn same(&self, other: &Atmosphere) -> (r: bool)
        ensures
            r == (match (*self, *other) {
                (Atmosphere::Air, Atmosphere::Air) => true,
                (
                    Atmosphere::Controlled { description: a },
                    Atmosphere::Controlled { description: b },
                ) => a@ == b@,
                _ => false,
            }),
    {
        match (self, other) {
            (Atmosphere::Air, Atmosphere::Air) => true,
            (Atmosphere::Controlled { description: a }, Atmosphere::Controlled { description: b }) => {
                crate::text::chars_eq(&crate::text::chars_of(a.as_str()), b.as_str())
            },
            _ => false,
        }
    }
}

#[derive(Debug, Clone, Copy, PartialEq, Eq, PartialOrd, Ord)]
pub enum RouteFamily {
    ConventionalSolidState,
    Mechanochemical,
}

#[derive(Debug, Clone, Copy, PartialEq, Eq, Structural)]
pub enum StepRequirement {
    Required,
}

/// One process operation. Heating carries the conditions that precedents
/// can resolve; every other operation (weighing, mixing, grinding,
/// forming, cooling, characterization) is carried as its description,
/// which condition resolution never reads.
#[derive(Debug, Clone, PartialEq, Eq)]
pub enum ProcessStep {
    Heat {
        purpose: HeatingPurpose,
        temperature: Option<TemperatureRange>,
        duration: Option<DurationRange>,
        atmosphere: Option<Atmosphere>,
        ramp: Option<RampRateRange>,
    },
    Other { description: String },
}

/// A step of a plan and whether it is required.
#[derive(Debug, Clone, PartialEq, Eq)]
pub struct PlannedStep {
    pub requirement: StepRequirement,
    pub step: ProcessStep,
}

/// Two temperature ranges are the same condition value exactly when both
/// their minimum and their maximum are equal: ranges that only overlap
/// differ.
pub proof fn lemma_temperature_same_value(a: TemperatureRange, b: TemperatureRange)
    ensures
        (a.key() == b.key()) <==> (a.lo() == b.lo() && a.hi() == b.hi()),
{
    if a.key() == b.key() {
        assert(a.key()[0] == b.key()[0] && a.key()[1] == b.key()[1]);
        assert(a.key()[2] == b.key()[2] && a.key()[3] == b.key()[3]);
    }
}

/// Two duration ranges are the same condition value exactly when both
/// their minimum and their maximum are equal.
pub proof fn lemma_duration_same_value(a: DurationRange, b: DurationRange)
    ensures
        (a.key() == b.key()) <==> (a.lo() == b.lo() && a.hi() == b.hi()),
{
    if a.key() == b.key() {
        assert(a.key()[0] == b.key()[0] && a.key()[1] == b.key()[1]);
        assert(a.key()[2] == b.key()[2] && a.key()[3] == b.key()[3]);
    }
}

/// Two ramp-rate ranges are the same condition value exactly when both
/// their minimum and their maximum are equal.
pub proof fn lemma_ramp_same_value(a: RampRateRange, b: RampRateRange)
    ensures
        (a.key() == b.key()) <==> (a.lo() == b.lo() && a.hi() == b.hi()),
{
    if a.key() == b.key() {
        assert(a.key()[0] == b.key()[0] && a.key()[1] == b.key()[1]);
        assert(a.key()[2] == b.key()[2] && a.key()[3] == b.key()[3]);
    }
}

/// Two atmospheres are the same condition value exactly when both are air,
/// or both are controlled with the same description.
pub proof fn lemma_atmosphere_same_value(a: Atmosphere, b: Atmosphere)
    ensures
        (a.key() == b.key()) <==> (match (a, b) {
            (Atmosphere::Air, Atmosphere::Air) => true,
            (Atmosphere::Controlled { description: x }, Atmosphere::Controlled { description: y }) => x@
                == y@,
            _ => false,
        }),
{
    match (a, b) {
        (Atmosphere::Controlled { description: x }, Atmosphere::Controlled { description: y }) => {
            let ka = a.key();
            let kb = b.key();
            if ka == kb {
                assert(ka.len() == kb.len());
                assert forall|i: int| 0 <= i < x@.len() implies x@[i] == y@[i] by {
                    assert(ka[i + 1] == kb[i + 1]);
                }
                assert(x@ =~= y@);
            }
            if x@ == y@ {
                assert(ka =~= kb);
            }
        },
        (Atmosphere::Air, Atmosphere::Controlled { .. }) => {
            assert(a.key()[0] != b.key()[0]);
        },
        (Atmosphere::Controlled { .. }, Atmosphere::Air) => {
            assert(a.key()[0] != b.key()[0]);
        },
        _ => {},
    }
}

} // verus!

