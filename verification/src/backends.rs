//! What a driver's report of its version means for a run.

use crate::runtime::{RuntimeError, RuntimeErrorKind};
use vstd::prelude::*;

verus! {

/// The driver-supported CUDA API version, from what the driver was asked for: the encoded version,
/// or why the driver could not say. `decode` reads an encoded version. This is not the NVIDIA
/// driver release number and does not prove PTX support.
pub fn cuda_driver_api_version<V, F: FnOnce(i32) -> Result<V, RuntimeError>>(
    queried: Result<i32, String>,
    decode: F,
) -> (result: Result<V, RuntimeError>)
    requires
        queried matches Ok(encoded) ==> call_requires(decode, (encoded,)),
    ensures
        match queried {
            Ok(encoded) => call_ensures(decode, (encoded,), result),
            Err(message) => result matches Err(error) && error.kind is DriverIncompatible
                && error.message@ == message@,
        },
{
    match queried {
        Ok(encoded) => decode(encoded),
        Err(message) => Err(RuntimeError::new(RuntimeErrorKind::DriverIncompatible, message)),
    }
}

/// A version that meets requirements. `check` is what the requirements make of it.
pub fn validate_cuda_driver<V, F: FnOnce(&V) -> Result<(), RuntimeError>>(
    version: Result<V, RuntimeError>,
    check: F,
) -> (result: Result<V, RuntimeError>)
    requires
        version matches Ok(version) ==> call_requires(check, (&version,)),
    ensures
        match version {
            Ok(version) => match result {
                Ok(valid) => valid == version && call_ensures(
                    check,
                    (&version,),
                    Ok::<(), RuntimeError>(()),
                ),
                Err(error) => call_ensures(check, (&version,), Err::<(), RuntimeError>(error)),
            },
            Err(error) => result == Err::<V, RuntimeError>(error),
        },
{
    match version {
        Ok(version) => {
            let checked = check(&version);
            match checked {
                Ok(unit) => {
                    assert(unit == ());
                    Ok(version)
                },
                Err(error) => Err(error),
            }
        },
        Err(error) => Err(error),
    }
}

} // verus!
