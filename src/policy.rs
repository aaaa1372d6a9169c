//! The access policy evaluated before a transform may run: an optional
//! expiry instant, an optional place tag and an optional manner tag.
use chrono::Utc;
use vstd::prelude::*;
use vstd::string::StringSliceAdditionalSpecFns;

verus! {

/// The one place tag that is let through.
pub const ALLOWED_PLACE: &'static str = "allowed_location";

/// The one manner tag that is let through.
pub const ALLOWED_MANNER: &'static str = "read_only";

/// Why access was denied.
#[derive(Debug, Clone, Copy, PartialEq, Eq, Structural)]
pub enum AccessDenied {
    /// The current time is past the expiry instant.
    Expired,
    /// The place tag is not the allowed one.
    Place,
    /// The manner tag is not the allowed one.
    Manner,
}

/// The decision of the policy at instant `now` (milliseconds since the Unix
/// epoch): the expiry is checked first, then the place, then the manner.
pub open spec fn access_decision(
    now: i64,
    expiry: Option<i64>,
    place: Option<Seq<char>>,
    manner: Option<Seq<char>>,
) -> Result<(), AccessDenied> {
    if expiry is Some && now > expiry->Some_0 {
        Err(AccessDenied::Expired)
    } else if place is Some && place->Some_0 != ALLOWED_PLACE@ {
        Err(AccessDenied::Place)
    } else if manner is Some && manner->Some_0 != ALLOWED_MANNER@ {
        Err(AccessDenied::Manner)
    } else {
        Ok(())
    }
}

/// The characters of an optional text.
pub open spec fn opt_view(s: Option<&str>) -> Option<Seq<char>> {
    match s {
        Some(t) => Some(t@),
        None => None,
    }
}

/// Text equality, compared byte by byte.
pub fn str_eq(a: &str, b: &str) -> (r: bool)
    ensures
        r == (a@ == b@),
{
    let x = a.as_bytes();
    let y = b.as_bytes();
    if x.len() != y.len() {
        return false;
    }
    let mut i: usize = 0;
    while i < x.len()
        invariant
            x@ == a.spec_bytes(),
            y@ == b.spec_bytes(),
            x@.len() == y@.len(),
            i <= x@.len(),
            forall|j: int| 0 <= j < i ==> x@[j] == y@[j],
        decreases x@.len() - i,
    {
        if x[i] != y[i] {
            return false;
        }
        i = i + 1;
    }
    assert(x@ =~= y@);
    proof {
        vstd::utf8::encode_utf8_decode_utf8(a@);
        vstd::utf8::encode_utf8_decode_utf8(b@);
        assert(a.spec_bytes() == vstd::utf8::encode_utf8(a@));
        assert(b.spec_bytes() == vstd::utf8::encode_utf8(b@));
    }
    true
}

/// Evaluates the policy at instant `now` (milliseconds since the Unix epoch).
pub fn check_access(
    now: i64,
    time_restriction: Option<i64>,
    place: Option<&str>,
    manner: Option<&str>,
) -> (r: Result<(), AccessDenied>)
    ensures
        r == access_decision(now, time_restriction, opt_view(place), opt_view(manner)),
{
    if let Some(tr) = time_restriction {
        if now > tr {
            return Err(AccessDenied::Expired);
        }
    }
    if let Some(p) = place {
        if !str_eq(p, ALLOWED_PLACE) {
            return Err(AccessDenied::Place);
        }
    }
    if let Some(m) = manner {
        if !str_eq(m, ALLOWED_MANNER) {
            return Err(AccessDenied::Manner);
        }
    }
    Ok(())
}

/// Relies on chrono's `Utc::now` and `DateTime::timestamp_millis`: the
/// current time in milliseconds since the Unix epoch. Nothing is known of the
/// value.
#[verifier::external_body]
pub(crate) fn current_time_millis() -> (r: i64) {
    Utc::now().timestamp_millis()
}

/// Evaluates the policy at the current time. Without an expiry instant the
/// decision does not depend on the time.
pub fn check_access_now(
    time_restriction: Option<i64>,
    place: Option<&str>,
    manner: Option<&str>,
) -> (r: Result<(), AccessDenied>)
    ensures
        exists|now: i64| r == access_decision(now, time_restriction, opt_view(place), opt_view(manner)),
        time_restriction is None ==> r == access_decision(
            0,
            None,
            opt_view(place),
            opt_view(manner),
        ),
{
    let now = current_time_millis();
    check_access(now, time_restriction, place, manner)
}

} // verus!
