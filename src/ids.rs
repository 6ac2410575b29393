//! The registry's clock and fresh instance ids.

use vstd::prelude::*;
use vstd::string::StringExecFns;
use crate::model::TimestampMs;

verus! {

broadcast use vstd::string::group_string_axioms;

/// Relies on std's `SystemTime::now`, read as milliseconds since the Unix
/// epoch. Nothing is promised of the value: it is the wall clock.
#[verifier::external_body]
pub fn get_timestamp_ms() -> (r: TimestampMs) {
    let since = std::time::SystemTime::now().duration_since(std::time::UNIX_EPOCH).unwrap_or_default();
    TimestampMs { timestamp_ms: since.as_millis() as u64 }
}

/// Relies on uuid's `Uuid::new_v4`, written in its hyphenated form, which is
/// 36 characters long (`Hyphenated::LENGTH`). The value is random.
#[verifier::external_body]
fn random_uuid_text() -> (r: String)
    ensures
        r@.len() == 36,
{
    uuid::Uuid::new_v4().hyphenated().to_string()
}

/// A fresh instance id: `prefix`, a dash, then a random UUID.
pub fn generate_instance_id(prefix: &str) -> (r: String)
    ensures
        r@.len() == prefix@.len() + 37,
        r@.subrange(0, prefix@.len() as int + 1) == prefix@.push('-'),
{
    let dash = "-";
    proof {
        reveal_strlit("-");
    }
    let mut r = prefix.to_owned();
    r.append(dash);
    let u = random_uuid_text();
    r.append(u.as_str());
    assert(r@.subrange(0, prefix@.len() as int + 1) =~= prefix@.push('-'));
    r
}

} // verus!
