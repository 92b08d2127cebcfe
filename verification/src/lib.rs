//! Parsing of unsigned decimal numbers from byte strings, sixteen digits at
//! a time.

pub mod decimal;
pub mod format;
pub mod kernel;
pub mod lanes;
pub mod laws;
pub mod oracle;
pub mod scalar;
pub mod utils;

pub use crate::kernel::ParseResult;

use crate::decimal::parsed;
use vstd::prelude::*;

verus! {

/// Parses the unsigned decimal number at the front of `x`: the value of the
/// leading run of ASCII digits and the length of that run. Where `x` starts
/// with no digit, or the number does not fit in 64 bits, both are zero.
pub fn parse(x: &[u8]) -> (r: ParseResult)
    ensures
        r@ == parsed(x@),
{
    assert(x@.subrange(0, x@.len() as int) =~= x@);
    crate::kernel::parse(x, 0, x.len())
}

} // verus!
