use vstd::prelude::*;

verus! {

/// Unit of request on the wire: 16 KiB blocks.
pub const BLOCKSIZE: u32 = 16384;

/// How many blocks may be outstanding on one connection.
pub const MAXREQUESTS: u32 = 5;

} // verus!
