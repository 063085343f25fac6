use vstd::prelude::*;

verus! {

/// Relies on std::time::SystemTime::now and duration_since: whole seconds
/// since the Unix epoch, or `None` where the clock reads earlier than it.
#[verifier::external_body]
fn seconds_since_epoch() -> (r: Option<u64>) {
    std::time::SystemTime::now().duration_since(std::time::UNIX_EPOCH).ok().map(|d| d.as_secs())
}

/// The current time in whole seconds since the Unix epoch, used to name saved
/// models and records; zero where the system clock reads before the epoch.
pub fn sys_time() -> (r: u64) {
    match seconds_since_epoch() {
        Some(s) => s,
        None => 0,
    }
}

} // verus!
