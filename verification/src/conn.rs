//! The checks that a connection makes before it sends a request.

use vstd::prelude::*;
use vstd::string::StringSliceAdditionalSpecFns;

verus! {

/// A single FastCGI request.
pub struct Request {}

/// The parameter holds a null byte.
pub open spec fn has_null(p: &str) -> bool {
    p.spec_bytes().contains(0u8)
}

/// Whether `bytes` holds a null byte.
fn contains_null(bytes: &[u8]) -> (r: bool)
    ensures
        r == bytes@.contains(0u8),
{
    let mut i: usize = 0;
    while i < bytes.len()
        invariant
            0 <= i <= bytes@.len(),
            forall|j: int| 0 <= j < i ==> bytes@[j] != 0u8,
        decreases bytes@.len() - i,
    {
        if bytes[i] == 0 {
            assert(bytes@[i as int] == 0u8);
            return true;
        }
        i += 1;
    }
    false
}

/// The index of the first parameter whose name holds a null byte, which a
/// connection refuses to send; `None` where no name holds one.
pub fn first_param_with_null(params: &[&str]) -> (r: Option<usize>)
    ensures
        match r {
            Some(i) => i < params@.len() && has_null(params@[i as int]) && forall|j: int|
                0 <= j < i ==> !has_null(#[trigger] params@[j]),
            None => forall|j: int| 0 <= j < params@.len() ==> !has_null(#[trigger] params@[j]),
        },
{
    let mut i: usize = 0;
    while i < params.len()
        invariant
            0 <= i <= params@.len(),
            forall|j: int| 0 <= j < i ==> !has_null(#[trigger] params@[j]),
        decreases params@.len() - i,
    {
        let p: &str = params[i];
        if contains_null(p.as_bytes()) {
            return Some(i);
        }
        i += 1;
    }
    None
}

} // verus!
