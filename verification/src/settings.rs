//! The settings that have a value of their own when none is configured.
use vstd::prelude::*;

verus! {

/// The file that the Google service account key is read from, unless another is configured.
pub fn default_svc_key_file() -> (name: String)
    ensures
        name@ == "google_private_key.json"@,
{
    "google_private_key.json".to_owned()
}

/// When to run, unless something else is configured: every 30th minute.
///
/// The fields are: second, minute, hour, day of month, month, day of week.
pub fn default_schedule_string() -> (schedule: String)
    ensures
        schedule@ == "0 */30 * * * *"@,
{
    "0 */30 * * * *".to_owned()
}

} // verus!
