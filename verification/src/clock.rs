//! The time of day, as the text that records carry.

use vstd::prelude::*;

use crate::text::is_ascii_text;

verus! {

/// What every timestamp has in common: ASCII text that ends in the offset of
/// UTC, with a date and a time of at least whole seconds before it.
pub open spec fn is_timestamp(s: Seq<char>) -> bool {
    &&& is_ascii_text(s)
    &&& s.len() >= 25
    &&& s.skip(s.len() - 6) == "+00:00"@
}

/// The current time, from `chrono::Utc::now` and `DateTime::to_rfc3339`.
///
/// Which time it is depends on the machine's clock. Of every outcome the form
/// is stated: an RFC 3339 timestamp in UTC, whose year has four digits or
/// more. On a clock set before 1970 `Utc::now` panics; no argument rules that
/// out.
#[verifier::external_body]
pub(crate) fn current_time() -> (now: String)
    ensures
        is_timestamp(now@),
{
    chrono::Utc::now().to_rfc3339()
}

} // verus!
