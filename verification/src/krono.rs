//! The build timestamp: honoring `SOURCE_DATE_EPOCH` for reproducible
//! builds, and parsing the time strings the generated output carries.

use vstd::prelude::*;

use crate::environment::EnvironmentMap;
use crate::util::ParseFromEnv;

verus! {

/// An instant in UTC, as chrono represents it.  The verifier treats the
/// value as opaque; the unverified driver unwraps it for rendering.
#[verifier::external_body]
pub struct UtcTime {
    pub inner: chrono::DateTime<chrono::Utc>,
}

/// Relies on chrono::DateTime::parse_from_rfc2822 followed by a
/// conversion to UTC; text that does not parse yields `None`.
#[verifier::external_body]
fn parse_rfc2822_utc(s: &str) -> (r: Option<UtcTime>)
{
    match chrono::DateTime::parse_from_rfc2822(s) {
        Ok(d) => Some(UtcTime { inner: d.with_timezone(&chrono::offset::Utc) }),
        Err(_) => None,
    }
}

/// Whether chrono can represent `ts` whole seconds since the epoch as a
/// UTC time; conversion succeeds exactly on this fixed range.
pub uninterp spec fn timestamp_representable(ts: i64) -> bool;

/// Relies on chrono::DateTime::from_timestamp: whole seconds since the
/// epoch to UTC, succeeding exactly on chrono's representable range.
#[verifier::external_body]
fn timestamp_to_utc(ts: i64) -> (r: Option<UtcTime>)
    ensures
        (r is Some) == timestamp_representable(ts),
{
    chrono::DateTime::from_timestamp(ts, 0).map(|d| UtcTime { inner: d })
}

/// Parses a time string in RFC 2822 form, as the generated output
/// records it, into UTC; `None` for text that does not parse.
pub fn strptime(s: &str) -> (r: Option<UtcTime>)
{
    parse_rfc2822_utc(s)
}

/// The build time pinned by `SOURCE_DATE_EPOCH`: the pin takes effect
/// exactly when the variable is present, holds a signed decimal number,
/// and denotes a representable UTC time; in every other case it is
/// silently ignored — never an error — and the caller falls back to the
/// current time.
pub fn get_source_date_epoch_from_env(env: &mut EnvironmentMap) -> (r: Option<UtcTime>)
    requires
        old(env).wf(),
    ensures
        final(env).wf(),
        final(env).keys() == old(env).keys(),
        final(env).vals() == old(env).vals(),
        final(env).prefix() == old(env).prefix(),
        forall|i: int|
            0 <= i < old(env).states().len() ==> old(env).states()[i].spec_le(
                #[trigger] final(env).states()[i],
            ),
        (r is Some) == (old(env).map_has("SOURCE_DATE_EPOCH"@) && (<i64 as ParseFromEnv>::parse_spec(
            old(env).map_val("SOURCE_DATE_EPOCH"@),
        ) matches Some(n) && timestamp_representable(n))),
{
    match env.get(crate::SOURCE_DATE_EPOCH) {
        None => None,
        Some(v) => match i64::parse_from_env(v.as_str()) {
            Ok(ts) => timestamp_to_utc(ts),
            Err(_) => None,
        },
    }
}

} // verus!
