//! Calendar arithmetic and the report timestamp: days since the Unix epoch
//! to a proleptic Gregorian date, and RFC 3339 formatting of a second
//! count.

use vstd::arithmetic::div_mod::{lemma_fundamental_div_mod, lemma_fundamental_div_mod_converse};
use crate::text::{append_padded, padded};
use vstd::prelude::*;

verus! {

/// The civil date of day `z` counted from 1970-01-01, by Howard Hinnant's
/// public-domain days-to-civil formula.
pub open spec fn civil_of_days(z: int) -> (int, int, int) {
    let z2 = z + 719468;
    let era = z2 / 146097;
    let doe = z2 % 146097;
    let yoe = (doe - doe / 1460 + doe / 36524 - doe / 146096) / 365;
    let y = yoe + era * 400;
    let doy = doe - (365 * yoe + yoe / 4 - yoe / 100);
    let mp = (5 * doy + 2) / 153;
    let d = doy - (153 * mp + 2) / 5 + 1;
    let m = if mp < 10 { mp + 3 } else { mp - 9 };
    (if m <= 2 { y + 1 } else { y }, m, d)
}

/// Within one 400-year era, the year of era is at most 399 and the day of
/// that year lies in `0..=365`.
proof fn lemma_day_of_year(doe: u32)
    requires
        doe < 146097,
    ensures
        ({
            let yoe = (doe - doe / 1460 + doe / 36524 - doe / 146096) / 365;
            &&& doe / 1460 <= doe
            &&& yoe <= 399
            &&& 365 * yoe + yoe / 4 - yoe / 100 <= doe
            &&& doe - (365 * yoe + yoe / 4 - yoe / 100) <= 365
        }),
{
    assert({
        let a = (doe - doe / 1460 + doe / 36524 - doe / 146096) as u32;
        let yoe = a / 365;
        &&& yoe <= 399
        &&& 365 * yoe + yoe / 4 - yoe / 100 <= doe
        &&& doe - (365 * yoe + yoe / 4 - yoe / 100) <= 365
    }) by (bit_vector)
        requires
            doe < 146097,
    ;
}

/// Day number (days since 1970-01-01) to `(year, month, day)`.
pub fn civil_from_days(z: i64) -> (r: (i64, u32, u32))
    requires
        z <= i64::MAX - 719468,
    ensures
        (r.0 as int, r.1 as int, r.2 as int) == civil_of_days(z as int),
        1 <= r.1 <= 12,
        1 <= r.2 <= 31,
{
    let z = z + 719_468;
    let (era, doe): (i64, u32) = if z >= 0 {
        ((z as u64 / 146_097) as i64, (z as u64 % 146_097) as u32)
    } else {
        let w = (-(z + 1)) as u64;
        (-((w / 146_097) as i64) - 1, (146_096 - w % 146_097) as u32)
    };
    proof {
        if z >= 0 {
            lemma_fundamental_div_mod(z as int, 146097);
        } else {
            let w = -(z + 1);
            lemma_fundamental_div_mod(w as int, 146097);
            lemma_fundamental_div_mod_converse(z as int, 146097, era as int, doe as int);
        }
        assert(era as int == (z as int) / 146097);
        assert(doe as int == (z as int) % 146097);
        lemma_day_of_year(doe);
    }
    assert(-64_000_000_000_000 <= era <= 64_000_000_000_000) by (nonlinear_arith)
        requires
            era * 146097 + doe == z,
            0 <= doe < 146097,
            i64::MIN <= z <= i64::MAX,
    ;
    let yoe = (doe - doe / 1460 + doe / 36_524 - doe / 146_096) / 365;
    let y = yoe as i64 + era * 400;
    let doy = doe - (365 * yoe + yoe / 4 - yoe / 100);
    let mp = (5 * doy + 2) / 153;
    assert(mp <= 11);
    let d = doy - (153 * mp + 2) / 5 + 1;
    assert(1 <= d <= 31) by (nonlinear_arith)
        requires
            mp == (5 * doy + 2) / 153,
            d == doy - (153 * mp + 2) / 5 + 1,
            doy <= 365,
    ;
    let m = if mp < 10 { mp + 3 } else { mp - 9 };
    let year = if m <= 2 { y + 1 } else { y };
    (year, m, d)
}

/// `secs` seconds after 1970-01-01T00:00:00Z as `YYYY-MM-DDTHH:MM:SSZ`.
pub open spec fn rfc3339_text(secs: nat) -> Seq<char> {
    let date = civil_of_days((secs / 86400) as int);
    let t = secs % 86400;
    padded(date.0 as nat, 4) + "-"@ + padded(date.1 as nat, 2) + "-"@ + padded(date.2 as nat, 2)
        + "T"@ + padded(t / 3600, 2) + ":"@ + padded((t % 3600) / 60, 2) + ":"@ + padded(
        t % 60,
        2,
    ) + "Z"@
}

/// Formats a Unix time in seconds as an RFC 3339 UTC timestamp.
pub fn format_rfc3339(secs: u64) -> (r: String)
    ensures
        r@ == rfc3339_text(secs as nat),
{
    let (year, month, day) = civil_from_days((secs / 86_400) as i64);
    let ghost date = civil_of_days((secs / 86400) as int);
    proof {
        let z2 = (secs / 86400) as int + 719468;
        assert(z2 / 146097 >= 0);
        assert(date.0 >= 0) by (nonlinear_arith)
            requires
                z2 >= 0,
                date == civil_of_days((secs / 86400) as int),
                z2 == (secs / 86400) as int + 719468,
        {
            vstd::arithmetic::div_mod::lemma_div_pos_is_pos(z2, 146097);
        }
    }
    let t = secs % 86_400;
    let mut out = String::new();
    append_padded(&mut out, year as u64, 4);
    out.append("-");
    append_padded(&mut out, month as u64, 2);
    out.append("-");
    append_padded(&mut out, day as u64, 2);
    out.append("T");
    append_padded(&mut out, t / 3600, 2);
    out.append(":");
    append_padded(&mut out, (t % 3600) / 60, 2);
    out.append(":");
    append_padded(&mut out, t % 60, 2);
    out.append("Z");
    assert(out@ =~= rfc3339_text(secs as nat));
    out
}

#[verifier::external_type_specification]
#[verifier::external_body]
pub struct ExSystemTime(std::time::SystemTime);

/// The current system time, through `std::time::SystemTime::now`. Nothing
/// is claimed of the value: it is the clock's.
#[verifier::external_body]
fn system_time_now() -> std::time::SystemTime {
    std::time::SystemTime::now()
}

/// Whole seconds from the Unix epoch to `t`, through
/// `SystemTime::duration_since(UNIX_EPOCH)`; `None` when `t` lies before
/// the epoch. Nothing is claimed of the count: it depends on the clock.
#[verifier::external_body]
fn seconds_since_unix_epoch(t: &std::time::SystemTime) -> Option<u64> {
    match t.duration_since(std::time::UNIX_EPOCH) {
        Ok(d) => Some(d.as_secs()),
        Err(_) => None,
    }
}

/// The current UTC time as an RFC 3339 timestamp; a clock set before 1970
/// reads as the epoch itself.
pub fn now_rfc3339() -> (r: String)
    ensures
        exists|secs: nat| r@ == rfc3339_text(secs),
{
    let now = system_time_now();
    let secs = match seconds_since_unix_epoch(&now) {
        Some(s) => s,
        None => 0,
    };
    format_rfc3339(secs)
}

} // verus!
