use vstd::prelude::*;

verus! {

/// Whether a cached file must be fetched again: it exists (its age in
/// seconds is known) and it is at least `interval_secs` old. A missing file
/// is never refreshed here.
pub fn cache_update_required(age_secs: Option<u64>, interval_secs: u64) -> (r: bool)
    ensures
        r == (age_secs is Some && age_secs->Some_0 >= interval_secs),
{
    match age_secs {
        Some(age) => age >= interval_secs,
        None => false,
    }
}

} // verus!
