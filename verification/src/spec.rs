//! Names that the FastCGI specification defines.

use vstd::prelude::*;

verus! {

/// The parameter that holds the maximum number of concurrent transport
/// connections an application supports.
pub const PARAM_MAX_CONNS: &'static str = "FCGI_MAX_CONNS";

/// The parameter that holds the maximum number of concurrent requests an
/// application supports.
pub const PARAM_MAX_REQS: &'static str = "FCGI_MAX_REQS";

/// The parameter that says whether an application multiplexes connections.
pub const PARAM_MPXS_CONNS: &'static str = "FCGI_MPXS_CONNS";

} // verus!
