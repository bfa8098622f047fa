//! The engine marker: the name of the engine that made a data directory.
use vstd::prelude::*;

use crate::error::KvsError;

verus! {

/// Checks the engine requested at start against the marker found in the
/// data directory (empty where there is none). On success, the result is
/// the marker to keep from now on.
pub fn check_engine(engine: &str, marker: &str) -> (r: Result<String, KvsError>)
    ensures
        r is Ok <==> (marker@.len() == 0 || marker@ == engine@),
        r matches Ok(m) ==> m@ == engine@,
        r is Err ==> r == Err::<String, KvsError>(KvsError::EngineMismatch),
{
    let wanted = engine.to_owned();
    let found = marker.to_owned();
    if marker.is_empty() || found == wanted {
        Ok(wanted)
    } else {
        Err(KvsError::EngineMismatch)
    }
}

} // verus!
