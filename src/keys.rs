use rand::distributions::Alphanumeric;
use rand::{thread_rng, Rng};
use vstd::prelude::*;

verus! {

/// Relies on rand's `thread_rng` sampled through `Alphanumeric`: a fresh
/// random key of fourteen letters and digits. Nothing is promised of its
/// value, which differs from call to call.
#[verifier::external_body]
pub fn shortid() -> (r: String)
    ensures
        r@.len() == 14,
{
    thread_rng().sample_iter(&Alphanumeric).take(14).map(char::from).collect()
}

} // verus!
